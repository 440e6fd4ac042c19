//! Delta stage and symbol stage: from hashes to gap codes.

use crate::FingerprintCompressor;
use vstd::prelude::*;

verus! {

/// Largest value of a normal code; it marks a gap that continues in the
/// exceptional stream.
pub const MAX_NORMAL_VALUE: u8 = 7;

/// Number of bit positions in a difference value.
pub const WORD_BITS: u32 = 32;

/// The difference sequence: every hash XORed with the one before it, the first with zero.
pub open spec fn differences(raw: Seq<u32>) -> Seq<u32> {
    Seq::new(raw.len(), |i: int| if i == 0 { raw[0] } else { raw[i] ^ raw[i - 1] })
}

/// Whether `d` has a one at position `bit`, counted from 1 at the least significant end.
pub open spec fn bit_set(d: u32, bit: nat) -> bool {
    1 <= bit <= 32 && (d >> ((bit - 1) as u32)) & 1 == 1
}

/// The highest set position of `d` among `1..=upto`, or 0 where there is none.
pub open spec fn last_set_bit(d: u32, upto: nat) -> nat
    decreases upto,
{
    if upto == 0 {
        0
    } else if bit_set(d, upto) {
        upto
    } else {
        last_set_bit(d, (upto - 1) as nat)
    }
}

/// The distance from the set position `bit` down to the set position before it
/// (or to 0 where `bit` is the lowest).
pub open spec fn gap_at(d: u32, bit: nat) -> nat {
    (bit - last_set_bit(d, (bit - 1) as nat)) as nat
}

/// The normal code of a gap: the gap itself below the escape value, else the escape value.
pub open spec fn normal_code(gap: nat) -> u8 {
    if gap < 7 {
        gap as u8
    } else {
        7
    }
}

/// The normal codes of the set positions of `d` among `1..=upto`, lowest first.
pub open spec fn gap_codes(d: u32, upto: nat) -> Seq<u8>
    decreases upto,
{
    if upto == 0 {
        Seq::empty()
    } else if bit_set(d, upto) {
        gap_codes(d, (upto - 1) as nat).push(normal_code(gap_at(d, upto)))
    } else {
        gap_codes(d, (upto - 1) as nat)
    }
}

/// The exceptional codes of the set positions of `d` among `1..=upto`: for each
/// gap of 7 or more, lowest first, what the gap has above 7.
pub open spec fn escaped_gaps(d: u32, upto: nat) -> Seq<u8>
    decreases upto,
{
    if upto == 0 {
        Seq::empty()
    } else if bit_set(d, upto) && gap_at(d, upto) >= 7 {
        escaped_gaps(d, (upto - 1) as nat).push((gap_at(d, upto) - 7) as u8)
    } else {
        escaped_gaps(d, (upto - 1) as nat)
    }
}

/// The normal codes of one difference value: its gap codes, then the terminator 0.
pub open spec fn normal_codes(d: u32) -> Seq<u8> {
    gap_codes(d, 32).push(0)
}

/// The exceptional codes of one difference value.
pub open spec fn exceptional_codes(d: u32) -> Seq<u8> {
    escaped_gaps(d, 32)
}

/// The normal stream of a difference sequence: the normal codes of its values, in order.
pub open spec fn normal_stream(diffs: Seq<u32>) -> Seq<u8>
    decreases diffs.len(),
{
    if diffs.len() == 0 {
        Seq::empty()
    } else {
        normal_stream(diffs.drop_last()) + normal_codes(diffs.last())
    }
}

/// The exceptional stream of a difference sequence.
pub open spec fn exceptional_stream(diffs: Seq<u32>) -> Seq<u8>
    decreases diffs.len(),
{
    if diffs.len() == 0 {
        Seq::empty()
    } else {
        exceptional_stream(diffs.drop_last()) + exceptional_codes(diffs.last())
    }
}

/// The number of set positions of `d` among `1..=upto`.
pub open spec fn set_bit_count(d: u32, upto: nat) -> nat
    decreases upto,
{
    if upto == 0 {
        0
    } else if bit_set(d, upto) {
        set_bit_count(d, (upto - 1) as nat) + 1
    } else {
        set_bit_count(d, (upto - 1) as nat)
    }
}

/// The number of set positions of `d` among `1..=upto` whose gap is 7 or more.
pub open spec fn long_gap_count(d: u32, upto: nat) -> nat
    decreases upto,
{
    if upto == 0 {
        0
    } else if bit_set(d, upto) && gap_at(d, upto) >= 7 {
        long_gap_count(d, (upto - 1) as nat) + 1
    } else {
        long_gap_count(d, (upto - 1) as nat)
    }
}

/// The set bits of all values of a difference sequence together.
pub open spec fn total_set_bits(diffs: Seq<u32>) -> nat
    decreases diffs.len(),
{
    if diffs.len() == 0 {
        0
    } else {
        total_set_bits(diffs.drop_last()) + set_bit_count(diffs.last(), 32)
    }
}

/// The gaps of 7 or more of all values of a difference sequence together.
pub open spec fn total_long_gaps(diffs: Seq<u32>) -> nat
    decreases diffs.len(),
{
    if diffs.len() == 0 {
        0
    } else {
        total_long_gaps(diffs.drop_last()) + long_gap_count(diffs.last(), 32)
    }
}

/// The last set position among `1..=upto` is at most `upto`.
pub proof fn lemma_last_set_bit_bound(d: u32, upto: nat)
    ensures
        last_set_bit(d, upto) <= upto,
        last_set_bit(d, upto) > 0 ==> bit_set(d, last_set_bit(d, upto)),
    decreases upto,
{
    if upto > 0 && !bit_set(d, upto) {
        lemma_last_set_bit_bound(d, (upto - 1) as nat);
    }
}

/// One difference value gives one gap code for each set bit, one exceptional
/// code for each gap of 7 or more, and never more of the latter than of the former.
pub proof fn lemma_code_counts(d: u32, upto: nat)
    ensures
        gap_codes(d, upto).len() == set_bit_count(d, upto),
        escaped_gaps(d, upto).len() == long_gap_count(d, upto),
        long_gap_count(d, upto) <= set_bit_count(d, upto) <= upto,
    decreases upto,
{
    if upto > 0 {
        lemma_code_counts(d, (upto - 1) as nat);
    }
}

/// Every gap code lies in `1..=7`, and every exceptional code in `0..=25`,
/// for positions within the word.
pub proof fn lemma_code_ranges(d: u32, upto: nat)
    requires
        upto <= 32,
    ensures
        forall|i: int| 0 <= i < gap_codes(d, upto).len() ==> 1 <= #[trigger] gap_codes(d, upto)[i] <= 7,
        forall|i: int| 0 <= i < escaped_gaps(d, upto).len() ==> #[trigger] escaped_gaps(d, upto)[i] <= 25,
    decreases upto,
{
    if upto > 0 {
        let below = (upto - 1) as nat;
        lemma_code_ranges(d, below);
        lemma_last_set_bit_bound(d, below);
        assert forall|i: int| 0 <= i < gap_codes(d, upto).len() implies 1 <= #[trigger] gap_codes(
            d,
            upto,
        )[i] <= 7 by {
            if i < gap_codes(d, below).len() {
                assert(gap_codes(d, upto)[i] == gap_codes(d, below)[i]);
            }
        }
        assert forall|i: int| 0 <= i < escaped_gaps(d, upto).len() implies #[trigger] escaped_gaps(
            d,
            upto,
        )[i] <= 25 by {
            if i < escaped_gaps(d, below).len() {
                assert(escaped_gaps(d, upto)[i] == escaped_gaps(d, below)[i]);
            }
        }
    }
}

/// The normal stream holds one code for each value and one for each set bit;
/// the exceptional stream holds one code for each gap of 7 or more.
pub proof fn lemma_stream_lengths(diffs: Seq<u32>)
    ensures
        normal_stream(diffs).len() == diffs.len() + total_set_bits(diffs),
        exceptional_stream(diffs).len() == total_long_gaps(diffs),
        total_long_gaps(diffs) <= total_set_bits(diffs) <= 32 * diffs.len(),
    decreases diffs.len(),
{
    if diffs.len() > 0 {
        lemma_stream_lengths(diffs.drop_last());
        lemma_code_counts(diffs.last(), 32);
    }
}

/// Every code of the normal stream is at most 7, and every code of the
/// exceptional stream at most 25.
pub proof fn lemma_stream_ranges(diffs: Seq<u32>)
    ensures
        forall|i: int| 0 <= i < normal_stream(diffs).len() ==> #[trigger] normal_stream(diffs)[i] <= 7,
        forall|i: int|
            0 <= i < exceptional_stream(diffs).len() ==> #[trigger] exceptional_stream(diffs)[i]
                <= 25,
    decreases diffs.len(),
{
    if diffs.len() > 0 {
        lemma_stream_ranges(diffs.drop_last());
        lemma_code_ranges(diffs.last(), 32);
        let normal_head = normal_stream(diffs.drop_last());
        let exceptional_head = exceptional_stream(diffs.drop_last());
        assert forall|i: int| 0 <= i < normal_stream(diffs).len() implies #[trigger] normal_stream(
            diffs,
        )[i] <= 7 by {
            if i < normal_head.len() {
                assert(normal_stream(diffs)[i] == normal_head[i]);
            } else {
                let j = i - normal_head.len();
                assert(normal_stream(diffs)[i] == normal_codes(diffs.last())[j]);
                if j < gap_codes(diffs.last(), 32).len() {
                    assert(normal_codes(diffs.last())[j] == gap_codes(diffs.last(), 32)[j]);
                }
            }
        }
        assert forall|i: int|
            0 <= i < exceptional_stream(diffs).len() implies #[trigger] exceptional_stream(diffs)[i]
            <= 25 by {
            if i < exceptional_head.len() {
                assert(exceptional_stream(diffs)[i] == exceptional_head[i]);
            } else {
                let j = i - exceptional_head.len();
                assert(exceptional_stream(diffs)[i] == escaped_gaps(diffs.last(), 32)[j]);
            }
        }
    }
}

/// A zero difference has no set bit, so it gives no gap code and no exceptional code.
pub proof fn lemma_zero_difference(upto: nat)
    ensures
        gap_codes(0, upto) == Seq::<u8>::empty(),
        escaped_gaps(0, upto) == Seq::<u8>::empty(),
        set_bit_count(0, upto) == 0,
    decreases upto,
{
    if upto > 0 {
        lemma_zero_difference((upto - 1) as nat);
        let s: u32 = (upto - 1) as u32;
        assert((0u32 >> s) & 1 == 0) by (bit_vector);
    }
}

/// The value 1 has its only set bit at position 1: one gap code, the gap 1.
pub proof fn lemma_lowest_bit_alone(upto: nat)
    requires
        1 <= upto <= 32,
    ensures
        last_set_bit(1, upto) == 1,
        gap_codes(1, upto) == seq![1u8],
        escaped_gaps(1, upto) == Seq::<u8>::empty(),
    decreases upto,
{
    let s: u32 = (upto - 1) as u32;
    if upto == 1 {
        assert((1u32 >> 0u32) & 1 == 1) by (bit_vector);
        assert(gap_codes(1, 0) =~= Seq::<u8>::empty());
        assert(gap_codes(1, 1) =~= seq![1u8]);
        assert(escaped_gaps(1, 0) =~= Seq::<u8>::empty());
        assert(gap_at(1, 1) == 1);
    } else {
        lemma_lowest_bit_alone((upto - 1) as nat);
        assert((1u32 >> s) & 1 == 0) by (bit_vector)
            requires
                1 <= s < 32,
        ;
    }
}

/// The fingerprint of the single hash 1 has the difference 1, the normal
/// codes 1 and 0, and no exceptional code.
pub proof fn lemma_single_element()
    ensures
        differences(seq![1u32]) == seq![1u32],
        normal_stream(differences(seq![1u32])) == seq![1u8, 0u8],
        exceptional_stream(differences(seq![1u32])) == Seq::<u8>::empty(),
{
    let diffs = differences(seq![1u32]);
    assert(diffs =~= seq![1u32]);
    lemma_lowest_bit_alone(32);
    assert(diffs.drop_last() =~= Seq::<u32>::empty());
    assert(normal_stream(diffs.drop_last()) =~= Seq::<u8>::empty());
    assert(exceptional_stream(diffs.drop_last()) =~= Seq::<u8>::empty());
    assert(diffs.last() == 1);
    assert(normal_codes(1) =~= seq![1u8, 0u8]);
    assert(normal_stream(diffs) =~= seq![1u8, 0u8]);
    assert(exceptional_stream(diffs) =~= Seq::<u8>::empty());
}

/// A hash that repeats gives the difference 0, which contributes the
/// terminator to the normal stream and nothing to the exceptional stream.
pub proof fn lemma_repeated_value(x: u32)
    ensures
        differences(seq![x, x]) == seq![x, 0u32],
        normal_codes(0) == seq![0u8],
        exceptional_codes(0) == Seq::<u8>::empty(),
        normal_stream(differences(seq![x, x])) == normal_codes(x) + seq![0u8],
        exceptional_stream(differences(seq![x, x])) == exceptional_codes(x),
{
    assert(x ^ x == 0) by (bit_vector);
    let diffs = differences(seq![x, x]);
    assert(diffs =~= seq![x, 0u32]);
    lemma_zero_difference(32);
    assert(normal_codes(0) =~= seq![0u8]);
    let head = diffs.drop_last();
    assert(head =~= seq![x]);
    assert(head.drop_last() =~= Seq::<u32>::empty());
    assert(normal_stream(head.drop_last()) =~= Seq::<u8>::empty());
    assert(exceptional_stream(head.drop_last()) =~= Seq::<u8>::empty());
    assert(head.last() == x && diffs.last() == 0);
    assert(normal_stream(head) =~= normal_codes(x));
    assert(exceptional_stream(head) =~= exceptional_codes(x));
    assert(exceptional_stream(diffs) =~= exceptional_codes(x));
}

/// At a set position the gap lies in `1..=32`. Below 7 it is the normal code
/// and the exceptional codes stay as they are; from 7 on the normal code is
/// the escape value 7 and the exceptional code is the gap less 7. So the
/// escape value stands for gaps of 7 or more and for no others.
pub proof fn lemma_escape_boundary(d: u32, bit: nat)
    requires
        bit_set(d, bit),
    ensures
        1 <= gap_at(d, bit) <= 32,
        gap_codes(d, bit) == gap_codes(d, (bit - 1) as nat).push(normal_code(gap_at(d, bit))),
        normal_code(gap_at(d, bit)) == 7 <==> gap_at(d, bit) >= 7,
        gap_at(d, bit) < 7 ==> normal_code(gap_at(d, bit)) == gap_at(d, bit) && escaped_gaps(d, bit)
            == escaped_gaps(d, (bit - 1) as nat),
        gap_at(d, bit) >= 7 ==> escaped_gaps(d, bit) == escaped_gaps(d, (bit - 1) as nat).push(
            (gap_at(d, bit) - 7) as u8,
        ),
{
    lemma_last_set_bit_bound(d, (bit - 1) as nat);
}

impl FingerprintCompressor {
    /// Delta stage: XORs every hash with the one before it.
    pub fn differences(raw_fingerprint: &[u32]) -> (diffs: Vec<u32>)
        ensures
            diffs@ == differences(raw_fingerprint@),
    {
        let mut diffs: Vec<u32> = Vec::new();
        let mut previous: u32 = 0;
        let mut i: usize = 0;
        while i < raw_fingerprint.len()
            invariant
                i <= raw_fingerprint.len(),
                diffs@ == differences(raw_fingerprint@).take(i as int),
                i > 0 ==> previous == raw_fingerprint@[i - 1],
                i == 0 ==> previous == 0,
            decreases raw_fingerprint.len() - i,
        {
            let current: u32 = raw_fingerprint[i];
            proof {
                assert(current ^ 0 == current) by (bit_vector);
                assert(differences(raw_fingerprint@).take(i + 1) =~= differences(
                    raw_fingerprint@,
                ).take(i as int).push(current ^ previous));
            }
            diffs.push(current ^ previous);
            previous = current;
            i += 1;
        }
        assert(differences(raw_fingerprint@).take(i as int) =~= differences(raw_fingerprint@));
        diffs
    }

    /// Symbol stage: appends the normal codes of `sub`, terminator included, to
    /// `normal_bits`, and its exceptional codes to `exceptional_bits`.
    pub fn process_subfingerprint(
        sub: u32,
        normal_bits: &mut Vec<u8>,
        exceptional_bits: &mut Vec<u8>,
    )
        ensures
            final(normal_bits)@ == old(normal_bits)@ + normal_codes(sub),
            final(exceptional_bits)@ == old(exceptional_bits)@ + exceptional_codes(sub),
    {
        let mut bit: u32 = 1;
        let mut last_bit: u32 = 0;
        while bit <= WORD_BITS
            invariant
                1 <= bit <= 33,
                last_bit == last_set_bit(sub, (bit - 1) as nat),
                last_bit < bit,
                normal_bits@ == old(normal_bits)@ + gap_codes(sub, (bit - 1) as nat),
                exceptional_bits@ == old(exceptional_bits)@ + escaped_gaps(sub, (bit - 1) as nat),
            decreases 33 - bit,
        {
            if (sub >> (bit - 1)) & 1 == 1 {
                let value: u8 = (bit - last_bit) as u8;
                if value >= MAX_NORMAL_VALUE {
                    normal_bits.push(MAX_NORMAL_VALUE);
                    exceptional_bits.push(value - MAX_NORMAL_VALUE);
                } else {
                    normal_bits.push(value);
                }
                last_bit = bit;
            }
            proof {
                assert(normal_bits@ =~= old(normal_bits)@ + gap_codes(sub, bit as nat));
                assert(exceptional_bits@ =~= old(exceptional_bits)@ + escaped_gaps(
                    sub,
                    bit as nat,
                ));
            }
            bit += 1;
        }
        normal_bits.push(0);
        assert(normal_bits@ =~= old(normal_bits)@ + normal_codes(sub));
    }
}

} // verus!
