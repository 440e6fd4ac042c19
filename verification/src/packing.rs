//! Bit-packing stage: fields of a few bits written head first into a byte buffer.

use crate::FingerprintCompressor;
use vstd::arithmetic::div_mod::lemma_fundamental_div_mod_converse;
use vstd::prelude::*;

verus! {

/// Whether bit `j` of the byte `b` is set, position 0 being the most significant.
pub open spec fn byte_bit(b: u8, j: int) -> bool {
    0 <= j < 8 && (b >> ((7 - j) as u8)) & 1 == 1
}

/// Whether bit `k` of a buffer is set: bit `k % 8` of byte `k / 8`.
pub open spec fn bit_at(buf: Seq<u8>, k: int) -> bool {
    0 <= k < 8 * buf.len() && byte_bit(buf[k / 8], k % 8)
}

/// The byte whose eight bits, most significant first, are `bits(first)` to `bits(first + 7)`.
pub open spec fn byte_of_bits(bits: spec_fn(int) -> bool, first: int) -> u8 {
    (if bits(first) { 0x80u8 } else { 0u8 })
    | (if bits(first + 1) { 0x40u8 } else { 0u8 })
    | (if bits(first + 2) { 0x20u8 } else { 0u8 })
    | (if bits(first + 3) { 0x10u8 } else { 0u8 })
    | (if bits(first + 4) { 0x08u8 } else { 0u8 })
    | (if bits(first + 5) { 0x04u8 } else { 0u8 })
    | (if bits(first + 6) { 0x02u8 } else { 0u8 })
    | (if bits(first + 7) { 0x01u8 } else { 0u8 })
}

/// A byte is determined by its eight bits.
pub proof fn lemma_byte_of_bits(b: u8, bits: spec_fn(int) -> bool, first: int)
    requires
        forall|t: int| 0 <= t < 8 ==> #[trigger] byte_bit(b, t) == bits(first + t),
    ensures
        b == byte_of_bits(bits, first),
{
    assert(byte_bit(b, 0) == bits(first + 0));
    assert(byte_bit(b, 1) == bits(first + 1));
    assert(byte_bit(b, 2) == bits(first + 2));
    assert(byte_bit(b, 3) == bits(first + 3));
    assert(byte_bit(b, 4) == bits(first + 4));
    assert(byte_bit(b, 5) == bits(first + 5));
    assert(byte_bit(b, 6) == bits(first + 6));
    assert(byte_bit(b, 7) == bits(first + 7));
    assert(b == (if (b >> 7u8) & 1 == 1 { 0x80u8 } else { 0u8 })
        | (if (b >> 6u8) & 1 == 1 { 0x40u8 } else { 0u8 })
        | (if (b >> 5u8) & 1 == 1 { 0x20u8 } else { 0u8 })
        | (if (b >> 4u8) & 1 == 1 { 0x10u8 } else { 0u8 })
        | (if (b >> 3u8) & 1 == 1 { 0x08u8 } else { 0u8 })
        | (if (b >> 2u8) & 1 == 1 { 0x04u8 } else { 0u8 })
        | (if (b >> 1u8) & 1 == 1 { 0x02u8 } else { 0u8 })
        | (if (b >> 0u8) & 1 == 1 { 0x01u8 } else { 0u8 })) by (bit_vector);
}

/// The bits of the byte made of eight bits are those bits.
pub proof fn lemma_bits_of_byte(bits: spec_fn(int) -> bool, first: int, t: int)
    requires
        0 <= t < 8,
    ensures
        byte_bit(byte_of_bits(bits, first), t) == bits(first + t),
{
    let b0 = bits(first);
    let b1 = bits(first + 1);
    let b2 = bits(first + 2);
    let b3 = bits(first + 3);
    let b4 = bits(first + 4);
    let b5 = bits(first + 5);
    let b6 = bits(first + 6);
    let b7 = bits(first + 7);
    let v = byte_of_bits(bits, first);
    assert(((v >> 7u8) & 1 == 1) == b0 && ((v >> 6u8) & 1 == 1) == b1 && ((v >> 5u8) & 1 == 1)
        == b2 && ((v >> 4u8) & 1 == 1) == b3 && ((v >> 3u8) & 1 == 1) == b4 && ((v >> 2u8) & 1
        == 1) == b5 && ((v >> 1u8) & 1 == 1) == b6 && ((v >> 0u8) & 1 == 1) == b7)
        by (bit_vector)
        requires
            v == (if b0 { 0x80u8 } else { 0u8 }) | (if b1 { 0x40u8 } else { 0u8 }) | (if b2 {
                0x20u8
            } else {
                0u8
            }) | (if b3 { 0x10u8 } else { 0u8 }) | (if b4 { 0x08u8 } else { 0u8 }) | (if b5 {
                0x04u8
            } else {
                0u8
            }) | (if b6 { 0x02u8 } else { 0u8 }) | (if b7 { 0x01u8 } else { 0u8 }),
    ;
}

/// No bit of a zero byte is set.
pub proof fn lemma_zero_byte(t: int)
    ensures
        !byte_bit(0u8, t),
{
    if 0 <= t < 8 {
        let s: u8 = (7 - t) as u8;
        assert((0u8 >> s) & 1 == 0) by (bit_vector);
    }
}

/// Two buffers that agree on the eight bits of byte `j` agree on that byte.
pub proof fn lemma_same_bits_same_byte(a: Seq<u8>, b: Seq<u8>, j: int)
    requires
        0 <= j < a.len(),
        j < b.len(),
        forall|k: int| 8 * j <= k < 8 * j + 8 ==> #[trigger] bit_at(a, k) == bit_at(b, k),
    ensures
        a[j] == b[j],
{
    let bits = |k: int| bit_at(a, k);
    assert forall|t: int| 0 <= t < 8 implies #[trigger] byte_bit(a[j], t) == bits(8 * j + t) by {
        assert((8 * j + t) / 8 == j && (8 * j + t) % 8 == t);
    }
    assert forall|t: int| 0 <= t < 8 implies #[trigger] byte_bit(b[j], t) == bits(8 * j + t) by {
        assert((8 * j + t) / 8 == j && (8 * j + t) % 8 == t);
        assert(bit_at(a, 8 * j + t) == bit_at(b, 8 * j + t));
    }
    lemma_byte_of_bits(a[j], bits, 8 * j);
    lemma_byte_of_bits(b[j], bits, 8 * j);
}

/// Whether `value` can be written in `width` bits.
pub open spec fn fits_in(value: u8, width: int) -> bool {
    (value as u32) >> (width as u32) == 0
}

/// Whether a field of `length` bits that starts at bit `start` lies within a
/// buffer of `len` bytes and can hold `value`.
pub open spec fn field_fits(len: nat, start: int, length: int, value: u8) -> bool {
    1 <= length <= 8 && start + length <= 8 * len && fits_in(value, length)
}

/// Bit `k` of a buffer after the low `length` bits of `value` were written,
/// most significant first, from bit `start` on.
pub open spec fn written_bit(before: Seq<u8>, start: int, length: int, value: u8, k: int) -> bool {
    if start <= k < start + length {
        byte_bit(value, 8 - length + (k - start))
    } else {
        bit_at(before, k)
    }
}

/// Bit `k` of a buffer after the first `count` bytes of `source` were written
/// as fields of `width` bits, one after another from bit `start` on, each
/// value with its most significant bit first.
pub open spec fn copied_bit(
    before: Seq<u8>,
    source: Seq<u8>,
    count: int,
    start: int,
    width: int,
    k: int,
) -> bool {
    if start <= k < start + width * count {
        byte_bit(source[(k - start) / width], 8 - width + (k - start) % width)
    } else {
        bit_at(before, k)
    }
}

/// The position of bit `t` of field `i`, for fields of `width` bits from bit `start` on.
pub open spec fn field_bit(start: int, width: int, i: int, t: int) -> int {
    start + i * width + t
}

/// Writes a bit field with `bitlab::InsertBitsIntoVecU8::set`, for a `u8` value.
///
/// Trusted: the call succeeds where the field is not empty, ends within the
/// buffer and `value` needs no more than `length` bits. On success the low
/// `length` bits of `value` stand, most significant first, at the bits
/// `8 * byte_offset + bit_offset` and up, and every other bit is as before; on
/// failure the buffer is as before. The demands keep the crate's 32-bit
/// position arithmetic from overflowing.
#[verifier::external_body]
pub(crate) fn set_bits(
    buf: &mut Vec<u8>,
    byte_offset: u32,
    bit_offset: u32,
    length: u32,
    value: u8,
) -> (r: Result<(), String>)
    requires
        8 * byte_offset + bit_offset + length <= u32::MAX,
        8 * old(buf)@.len() <= u32::MAX,
        length <= 8,
    ensures
        final(buf)@.len() == old(buf)@.len(),
        field_fits(old(buf)@.len(), 8 * byte_offset + bit_offset, length as int, value)
            ==> r.is_ok(),
        r.is_err() ==> final(buf)@ == old(buf)@,
        r.is_ok() ==> forall|k: int|
            0 <= k < 8 * old(buf)@.len() ==> #[trigger] bit_at(final(buf)@, k) == written_bit(
                old(buf)@,
                8 * byte_offset + bit_offset,
                length as int,
                value,
                k,
            ),
{
    bitlab::InsertBitsIntoVecU8::set(buf, byte_offset, bit_offset, length, value)
}

impl FingerprintCompressor {
    /// Writes every byte of `source_vec` into `output_vec` as a field of
    /// `num_bits` bits, most significant bit first, one field after another,
    /// starting `bit_index` bits behind the byte `byte_index`. An empty source
    /// leaves the buffer as it is, whatever the other arguments.
    pub fn copy_significant_bits(
        source_vec: &Vec<u8>,
        output_vec: &mut Vec<u8>,
        byte_index: u32,
        bit_index: u32,
        num_bits: u32,
    )
        requires
            forall|i: int|
                0 <= i < source_vec@.len() ==> fits_in(#[trigger] source_vec@[i], num_bits as int),
            source_vec@.len() > 0 ==> 1 <= num_bits <= 8,
            source_vec@.len() > 0 ==> 8 * old(output_vec)@.len() <= u32::MAX,
            source_vec@.len() > 0 ==> 8 * byte_index + bit_index + num_bits * source_vec@.len() <= 8
                * old(output_vec)@.len(),
        ensures
            final(output_vec)@.len() == old(output_vec)@.len(),
            source_vec@.len() == 0 ==> final(output_vec)@ == old(output_vec)@,
            forall|k: int|
                0 <= k < 8 * old(output_vec)@.len() ==> #[trigger] bit_at(final(output_vec)@, k)
                    == copied_bit(
                    old(output_vec)@,
                    source_vec@,
                    source_vec@.len() as int,
                    8 * byte_index + bit_index,
                    num_bits as int,
                    k,
                ),
            forall|i: int, t: int|
                0 <= i < source_vec@.len() && 0 <= t < num_bits ==> bit_at(
                    final(output_vec)@,
                    #[trigger] field_bit(8 * byte_index + bit_index, num_bits as int, i, t),
                ) == byte_bit(source_vec@[i], 8 - num_bits + t),
    {
        let ghost start: int = 8 * byte_index + bit_index;
        let ghost width: int = num_bits as int;
        let mut bit_index: u32 = bit_index;
        let mut i: usize = 0;
        proof {
            assert(width * 0 == 0) by (nonlinear_arith);
        }
        while i < source_vec.len()
            invariant
                i <= source_vec@.len(),
                width == num_bits,
                forall|n: int|
                    0 <= n < source_vec@.len() ==> fits_in(#[trigger] source_vec@[n], width),
                source_vec@.len() > 0 ==> 1 <= num_bits <= 8,
                source_vec@.len() > 0 ==> 8 * output_vec@.len() <= u32::MAX,
                source_vec@.len() > 0 ==> start + width * source_vec@.len() <= 8
                    * output_vec@.len(),
                output_vec@.len() == old(output_vec)@.len(),
                8 * byte_index + bit_index == start + width * i,
                i == 0 ==> output_vec@ == old(output_vec)@,
                forall|k: int|
                    0 <= k < 8 * output_vec@.len() ==> #[trigger] bit_at(output_vec@, k)
                        == copied_bit(old(output_vec)@, source_vec@, i as int, start, width, k),
            decreases source_vec@.len() - i,
        {
            let value: u8 = source_vec[i];
            let ghost before = output_vec@;
            let ghost pos: int = start + width * i;
            proof {
                assert(width * (i + 1) == width * i + width) by (nonlinear_arith);
                assert(width * (i + 1) <= width * source_vec@.len()) by (nonlinear_arith)
                    requires
                        i + 1 <= source_vec@.len(),
                        width >= 0,
                ;
                assert(fits_in(source_vec@[i as int], width));
            }
            let r = set_bits(output_vec, byte_index, bit_index, num_bits, value);
            proof {
                assert forall|k: int| 0 <= k < 8 * output_vec@.len() implies #[trigger] bit_at(
                    output_vec@,
                    k,
                ) == copied_bit(old(output_vec)@, source_vec@, i + 1, start, width, k) by {
                    assert(bit_at(output_vec@, k) == written_bit(before, pos, width, value, k));
                    if pos <= k < pos + width {
                        assert(width * i == i * width) by (nonlinear_arith);
                        lemma_fundamental_div_mod_converse(k - start, width, i as int, k - pos);
                    } else {
                        assert(bit_at(before, k) == copied_bit(
                            old(output_vec)@,
                            source_vec@,
                            i as int,
                            start,
                            width,
                            k,
                        ));
                    }
                }
            }
            r.unwrap();
            bit_index += num_bits;
            i += 1;
        }
        proof {
            let count = source_vec@.len() as int;
            assert forall|n: int, t: int| 0 <= n < count && 0 <= t < num_bits implies bit_at(
                output_vec@,
                #[trigger] field_bit(start, width, n, t),
            ) == byte_bit(source_vec@[n], 8 - num_bits + t) by {
                let k = field_bit(start, width, n, t);
                assert(n * width + width <= width * count) by (nonlinear_arith)
                    requires
                        n + 1 <= count,
                        width >= 0,
                ;
                assert(0 <= n * width) by (nonlinear_arith)
                    requires
                        0 <= n,
                        0 <= width,
                ;
                lemma_fundamental_div_mod_converse(k - start, width, n, t);
                assert(bit_at(output_vec@, k) == copied_bit(
                    old(output_vec)@,
                    source_vec@,
                    count,
                    start,
                    width,
                    k,
                ));
            }
        }
    }
}

} // verus!
