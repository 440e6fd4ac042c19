//! Header, buffer layout and text form of a compressed fingerprint.

use crate::packing::{bit_at, byte_bit, byte_of_bits, copied_bit, field_bit, fits_in};
use crate::packing::{lemma_bits_of_byte, lemma_byte_of_bits};
use crate::packing::{lemma_same_bits_same_byte, lemma_zero_byte};
use crate::symbols::{differences, exceptional_stream, lemma_single_element, normal_stream};
use crate::symbols::{lemma_stream_lengths, lemma_stream_ranges, total_long_gaps, total_set_bits};
use crate::FingerprintCompressor;
use base64::prelude::BASE64_URL_SAFE;
use vstd::prelude::*;

verus! {

/// Bytes of the header: the algorithm and three bytes of the element count.
pub const HEADER_SIZE: usize = 4;

/// Width of the field of a normal code.
pub const NORMAL_BITS: u32 = 3;

/// Width of the field of an exceptional code.
pub const EXCEPTIONAL_BITS: u32 = 5;

/// The number of bytes that `count` fields of `width` bits take.
pub open spec fn region_size(count: nat, width: nat) -> nat {
    (count * width + 7) / 8
}

/// The buffer's length: the header, 3 bits for each normal code, and 5 bits
/// for each exceptional code.
pub open spec fn buffer_size(normal_count: nat, exceptional_count: nat) -> nat {
    4 + region_size(normal_count, 3) + region_size(exceptional_count, 5)
}

/// The byte of the 64-bit element count that starts at bit `shift`.
pub open spec fn count_byte(count: nat, shift: u64) -> u8 {
    (((count as u64) >> shift) & 0xff) as u8
}

/// The header: the algorithm, then the bytes at offsets 5, 6 and 7 of the
/// element count written as eight little-endian bytes.
pub open spec fn header(algorithm: u8, count: nat) -> Seq<u8> {
    seq![algorithm, count_byte(count, 40), count_byte(count, 48), count_byte(count, 56)]
}

/// Bit `k` of a packed region: bit `k % width` of the field `k / width`, which
/// holds the low `width` bits of `codes[k / width]`, most significant first;
/// zero behind the last field.
pub open spec fn packed_bit(codes: Seq<u8>, width: int, k: int) -> bool {
    0 <= k < width * codes.len() && byte_bit(codes[k / width], 8 - width + k % width)
}

/// The bits of a packed region, by position.
pub open spec fn packed_bits(codes: Seq<u8>, width: int) -> spec_fn(int) -> bool {
    |k: int| packed_bit(codes, width, k)
}

/// A packed region of `size` bytes: every code in a field of `width` bits,
/// one field after another, most significant bit first.
pub open spec fn packed_region(codes: Seq<u8>, width: int, size: nat) -> Seq<u8> {
    Seq::new(size, |j: int| byte_of_bits(packed_bits(codes, width), 8 * j))
}

/// The buffer for two code streams: the header, the normal region of 3-bit
/// fields, the exceptional region of 5-bit fields.
pub open spec fn layout(normal: Seq<u8>, exceptional: Seq<u8>, algorithm: u8, count: nat) -> Seq<u8> {
    header(algorithm, count) + packed_region(normal, 3, region_size(normal.len(), 3))
        + packed_region(exceptional, 5, region_size(exceptional.len(), 5))
}

/// The encoded buffer of a fingerprint, before it is turned into text.
pub open spec fn encoded_bytes(raw: Seq<u32>, algorithm: u8) -> Seq<u8> {
    layout(
        normal_stream(differences(raw)),
        exceptional_stream(differences(raw)),
        algorithm,
        raw.len(),
    )
}

/// The length of the encoded buffer: one normal code for each element and for
/// each set bit of a difference, one exceptional code for each gap of 7 or more.
pub open spec fn encoded_len(raw: Seq<u32>) -> nat {
    buffer_size(
        raw.len() + total_set_bits(differences(raw)),
        total_long_gaps(differences(raw)),
    )
}

/// Whether every bit position of the encoded buffer can be counted in 32 bits.
pub open spec fn fits(raw: Seq<u32>) -> bool {
    8 * encoded_len(raw) <= u32::MAX
}

/// The 64 symbols of URL-safe base64.
pub open spec fn is_url_safe_symbol(c: char) -> bool {
    ('A' <= c && c <= 'Z') || ('a' <= c && c <= 'z') || ('0' <= c && c <= '9') || c == '-' || c
        == '_'
}

/// The characters of padded URL-safe base64: the symbols and the padding `=`.
pub open spec fn is_url_safe_char(c: char) -> bool {
    is_url_safe_symbol(c) || c == '='
}

/// The number of padding characters behind the text of `len` bytes.
pub open spec fn padding_len(len: nat) -> nat {
    ((3 - len % 3) % 3) as nat
}

/// Whether `text` has the shape of the padded URL-safe base64 of `len` bytes:
/// four characters for every three bytes begun, symbols first, and `=` in
/// the last `padding_len(len)` places only.
pub open spec fn is_padded_url_safe(text: Seq<char>, len: nat) -> bool {
    &&& text.len() == 4 * ((len + 2) / 3)
    &&& forall|i: int|
        0 <= i < text.len() - padding_len(len) ==> is_url_safe_symbol(#[trigger] text[i])
    &&& forall|i: int| text.len() - padding_len(len) <= i < text.len() ==> #[trigger] text[i] == '='
}

/// The padded URL-safe base64 text of a byte sequence.
pub uninterp spec fn base64_url_safe(bytes: Seq<u8>) -> Seq<char>;

/// The compressed fingerprint as text.
pub open spec fn compressed_text(raw: Seq<u32>, algorithm: u8) -> Seq<char> {
    base64_url_safe(encoded_bytes(raw, algorithm))
}

/// The compressed fingerprint as text where it fits, else nothing.
pub open spec fn compressed_text_if_fits(raw: Seq<u32>, algorithm: u8) -> Option<Seq<char>> {
    if fits(raw) {
        Some(compressed_text(raw, algorithm))
    } else {
        None
    }
}

/// Encodes bytes with `base64::Engine::encode` on the engine `BASE64_URL_SAFE`.
///
/// Trusted: the text is a function of the bytes alone, it has four characters
/// for every three bytes begun, the padding `=` fills the places that the last
/// group leaves open, and every character before it is a letter, a digit, `-`
/// or `_`. The demand keeps the text's length within `usize`.
#[verifier::external_body]
fn encode_url_safe(bytes: Vec<u8>) -> (text: String)
    requires
        4 * ((bytes@.len() + 2) / 3) <= usize::MAX,
    ensures
        text@ == base64_url_safe(bytes@),
        is_padded_url_safe(text@, bytes@.len()),
{
    base64::Engine::encode(&BASE64_URL_SAFE, bytes)
}

/// Converts with `num_traits::ToPrimitive::to_u32`, as `rustfft` hands it on.
///
/// Trusted: the value itself where it is at most `u32::MAX`, else nothing.
#[verifier::external_body]
fn to_u32(n: usize) -> (r: Option<u32>)
    ensures
        r == (if n <= u32::MAX { Some(n as u32) } else { None }),
{
    rustfft::num_traits::ToPrimitive::to_u32(&n)
}

/// The encoded buffer has the length that its code counts give, and its first
/// byte is the algorithm.
pub proof fn lemma_encoded_len(raw: Seq<u32>, algorithm: u8)
    ensures
        encoded_bytes(raw, algorithm).len() == encoded_len(raw),
        encoded_bytes(raw, algorithm)[0] == algorithm,
{
    lemma_stream_lengths(differences(raw));
}

/// The longest fingerprint that is known to fit whatever its hashes are.
pub const MAX_FINGERPRINT_LEN: usize = 16_000_000;

/// A fingerprint of at most `MAX_FINGERPRINT_LEN` hashes fits.
pub proof fn lemma_short_fingerprint_fits(raw: Seq<u32>)
    requires
        raw.len() <= MAX_FINGERPRINT_LEN,
    ensures
        fits(raw),
{
    lemma_stream_lengths(differences(raw));
}

/// Equal inputs give equal results, for every fingerprint: whether there is a
/// text, and which, depends on the fingerprint and the algorithm alone.
pub proof fn lemma_deterministic_if_fits(
    first: Option<Seq<char>>,
    second: Option<Seq<char>>,
    raw: Seq<u32>,
    algorithm: u8,
)
    requires
        first == compressed_text_if_fits(raw, algorithm),
        second == compressed_text_if_fits(raw, algorithm),
    ensures
        first == second,
{
}

/// Equal inputs give equal text: the text is a function of the fingerprint
/// and the algorithm alone.
pub proof fn lemma_deterministic(
    first: Seq<char>,
    second: Seq<char>,
    raw: Seq<u32>,
    algorithm: u8,
)
    requires
        first == compressed_text(raw, algorithm),
        second == compressed_text(raw, algorithm),
    ensures
        first == second,
{
}

/// A count below 2^40 leaves the three count bytes of the header zero.
pub proof fn lemma_count_field_zero(algorithm: u8, count: nat)
    requires
        count < 0x100_0000_0000,
    ensures
        header(algorithm, count) == seq![algorithm, 0u8, 0u8, 0u8],
{
    let c: u64 = count as u64;
    assert(((c >> 40) & 0xff) == 0 && ((c >> 48) & 0xff) == 0 && ((c >> 56) & 0xff) == 0)
        by (bit_vector)
        requires
            c < 0x100_0000_0000,
    ;
}

/// Every bit of a packed region is the bit of its field.
pub proof fn lemma_packed_region_bit(codes: Seq<u8>, width: int, size: nat, k: int)
    requires
        0 <= k < 8 * size,
    ensures
        bit_at(packed_region(codes, width, size), k) == packed_bit(codes, width, k),
{
    lemma_bits_of_byte(packed_bits(codes, width), 8 * (k / 8), k % 8);
}

/// Behind the header, every bit of the layout is the bit of its field in the
/// region that it lies in.
pub proof fn lemma_layout_bit(
    normal: Seq<u8>,
    exceptional: Seq<u8>,
    algorithm: u8,
    count: nat,
    k: int,
)
    requires
        32 <= k < 8 * buffer_size(normal.len(), exceptional.len()),
    ensures
        bit_at(layout(normal, exceptional, algorithm, count), k) == (if k < 8 * (4 + region_size(
            normal.len(),
            3,
        )) {
            packed_bit(normal, 3, k - 32)
        } else {
            packed_bit(exceptional, 5, k - 8 * (4 + region_size(normal.len(), 3)))
        }),
{
    let first_size = region_size(normal.len(), 3);
    let second_size = region_size(exceptional.len(), 5);
    let second: int = (4 + first_size) as int;
    let whole = layout(normal, exceptional, algorithm, count);
    let j = k / 8;
    if k < 8 * second {
        lemma_packed_region_bit(normal, 3, first_size, k - 32);
        assert(whole[j] == packed_region(normal, 3, first_size)[j - 4]);
        assert((k - 32) / 8 == j - 4 && (k - 32) % 8 == k % 8);
    } else {
        lemma_packed_region_bit(exceptional, 5, second_size, k - 8 * second);
        assert(whole[j] == packed_region(exceptional, 5, second_size)[j - second]);
        assert((k - 8 * second) / 8 == j - second && (k - 8 * second) % 8 == k % 8);
    }
}

/// In the layout, field `i` of the normal region, which begins behind the
/// header, holds the normal code `i` in 3 bits; field `i` of the exceptional
/// region, which begins at the next whole byte, holds the exceptional code `i`
/// in 5 bits; the bits left over in either region are zero. The encoded buffer
/// of a fingerprint is the layout of its two streams.
pub proof fn lemma_layout_fields(normal: Seq<u8>, exceptional: Seq<u8>, algorithm: u8, count: nat)
    ensures
        forall|i: int, t: int|
            0 <= i < normal.len() && 0 <= t < 3 ==> bit_at(
                layout(normal, exceptional, algorithm, count),
                #[trigger] field_bit(32, 3, i, t),
            ) == byte_bit(normal[i], 5 + t),
        forall|i: int, t: int|
            0 <= i < exceptional.len() && 0 <= t < 5 ==> bit_at(
                layout(normal, exceptional, algorithm, count),
                #[trigger] field_bit(8 * (4 + region_size(normal.len(), 3)) as int, 5, i, t),
            ) == byte_bit(exceptional[i], 3 + t),
        forall|k: int|
            32 + 3 * normal.len() <= k < 8 * (4 + region_size(normal.len(), 3)) ==> !#[trigger] bit_at(
                layout(normal, exceptional, algorithm, count),
                k,
            ),
        forall|k: int|
            8 * (4 + region_size(normal.len(), 3)) + 5 * exceptional.len() <= k < 8 * buffer_size(
                normal.len(),
                exceptional.len(),
            ) ==> !#[trigger] bit_at(layout(normal, exceptional, algorithm, count), k),
{
    let second: int = (4 + region_size(normal.len(), 3)) as int;
    let whole = layout(normal, exceptional, algorithm, count);
    assert forall|i: int, t: int| 0 <= i < normal.len() && 0 <= t < 3 implies bit_at(
        whole,
        #[trigger] field_bit(32, 3, i, t),
    ) == byte_bit(normal[i], 5 + t) by {
        lemma_layout_bit(normal, exceptional, algorithm, count, 32 + 3 * i + t);
        assert((3 * i + t) / 3 == i && (3 * i + t) % 3 == t);
    }
    assert forall|i: int, t: int| 0 <= i < exceptional.len() && 0 <= t < 5 implies bit_at(
        whole,
        #[trigger] field_bit(8 * second, 5, i, t),
    ) == byte_bit(exceptional[i], 3 + t) by {
        lemma_layout_bit(normal, exceptional, algorithm, count, 8 * second + 5 * i + t);
        assert((5 * i + t) / 5 == i && (5 * i + t) % 5 == t);
    }
    assert forall|k: int| 32 + 3 * normal.len() <= k < 8 * second implies !#[trigger] bit_at(
        whole,
        k,
    ) by {
        lemma_layout_bit(normal, exceptional, algorithm, count, k);
    }
    assert forall|k: int|
        8 * second + 5 * exceptional.len() <= k < 8 * buffer_size(
            normal.len(),
            exceptional.len(),
        ) implies !#[trigger] bit_at(whole, k) by {
        lemma_layout_bit(normal, exceptional, algorithm, count, k);
    }
}

/// The fingerprint of the single hash 1 encodes to the header and one byte:
/// the codes 1 and 0 as the fields `001` and `000`, and two zero bits.
pub proof fn lemma_single_element_bytes(algorithm: u8)
    ensures
        encoded_bytes(seq![1u32], algorithm) == seq![algorithm, 0u8, 0u8, 0u8, 0x20u8],
{
    let raw = seq![1u32];
    lemma_single_element();
    lemma_count_field_zero(algorithm, 1);
    let codes = seq![1u8, 0u8];
    let bits = packed_bits(codes, 3);
    assert forall|t: int| 0 <= t < 8 implies #[trigger] byte_bit(0x20u8, t) == bits(0 + t) by {
        let s: u8 = (7 - t) as u8;
        assert(((0x20u8 >> s) & 1 == 1) == (s == 5)) by (bit_vector)
            requires
                s < 8,
        ;
        if t < 3 {
            let r: u8 = (2 - t) as u8;
            assert(((1u8 >> r) & 1 == 1) == (r == 0)) by (bit_vector)
                requires
                    r < 8,
            ;
            assert(codes[t / 3] == 1u8 && t % 3 == t);
        } else if t < 6 {
            lemma_zero_byte(5 + t % 3);
            assert(codes[t / 3] == 0u8);
        }
    }
    lemma_byte_of_bits(0x20u8, bits, 0);
    assert(packed_region(codes, 3, 1) =~= seq![0x20u8]);
    assert(packed_region(Seq::<u8>::empty(), 5, 0) =~= Seq::<u8>::empty());
    assert(encoded_bytes(raw, algorithm) =~= seq![algorithm, 0u8, 0u8, 0u8, 0x20u8]);
}

/// The empty fingerprint encodes to the header alone: the algorithm and three zero bytes.
pub proof fn lemma_empty_input(algorithm: u8)
    ensures
        fits(Seq::<u32>::empty()),
        encoded_bytes(Seq::<u32>::empty(), algorithm) == seq![algorithm, 0u8, 0u8, 0u8],
{
    let raw = Seq::<u32>::empty();
    assert(differences(raw) =~= Seq::<u32>::empty());
    lemma_count_field_zero(algorithm, 0);
    assert(encoded_bytes(raw, algorithm) =~= seq![algorithm, 0u8, 0u8, 0u8]);
}

/// A buffer that starts as the header followed by zero bytes, and into which
/// the normal codes and then the exceptional codes were copied as fields, is
/// the layout of the two streams.
pub proof fn lemma_layout_from_bits(
    blank: Seq<u8>,
    half: Seq<u8>,
    output: Seq<u8>,
    normal: Seq<u8>,
    exceptional: Seq<u8>,
    algorithm: u8,
    count: nat,
)
    requires
        blank.len() == buffer_size(normal.len(), exceptional.len()),
        half.len() == blank.len(),
        output.len() == blank.len(),
        forall|j: int| 0 <= j < 4 ==> blank[j] == header(algorithm, count)[j],
        forall|j: int| 4 <= j < blank.len() ==> blank[j] == 0,
        forall|k: int|
            0 <= k < 8 * blank.len() ==> #[trigger] bit_at(half, k) == copied_bit(
                blank,
                normal,
                normal.len() as int,
                32,
                3,
                k,
            ),
        forall|k: int|
            0 <= k < 8 * blank.len() ==> #[trigger] bit_at(output, k) == copied_bit(
                half,
                exceptional,
                exceptional.len() as int,
                8 * (4 + region_size(normal.len(), 3)) as int,
                5,
                k,
            ),
    ensures
        output == layout(normal, exceptional, algorithm, count),
{
    let second: int = (4 + region_size(normal.len(), 3)) as int;
    let want = layout(normal, exceptional, algorithm, count);
    assert forall|k: int| 0 <= k < 8 * output.len() implies #[trigger] bit_at(output, k) == (if k
        < 32 {
        bit_at(blank, k)
    } else if k < 8 * second {
        packed_bit(normal, 3, k - 32)
    } else {
        packed_bit(exceptional, 5, k - 8 * second)
    }) by {
        assert(bit_at(half, k) == copied_bit(blank, normal, normal.len() as int, 32, 3, k));
        lemma_zero_byte(k % 8);
    }
    assert forall|j: int| 0 <= j < output.len() implies output[j] == want[j] by {
        if j < 4 {
            lemma_same_bits_same_byte(output, blank, j);
        } else if j < second {
            let bits = packed_bits(normal, 3);
            assert forall|t: int| 0 <= t < 8 implies #[trigger] byte_bit(output[j], t) == bits(
                8 * (j - 4) + t,
            ) by {
                assert(bit_at(output, 8 * j + t) == bits(8 * (j - 4) + t));
            }
            lemma_byte_of_bits(output[j], bits, 8 * (j - 4));
        } else {
            let bits = packed_bits(exceptional, 5);
            assert forall|t: int| 0 <= t < 8 implies #[trigger] byte_bit(output[j], t) == bits(
                8 * (j - second) + t,
            ) by {
                assert(bit_at(output, 8 * j + t) == bits(8 * (j - second) + t));
            }
            lemma_byte_of_bits(output[j], bits, 8 * (j - second));
        }
    }
    assert(output =~= want);
}

impl FingerprintCompressor {
    /// Runs the delta and the symbol stage over a whole fingerprint.
    pub fn symbol_streams(raw_fingerprint: &[u32]) -> (streams: (Vec<u8>, Vec<u8>))
        ensures
            streams.0@ == normal_stream(differences(raw_fingerprint@)),
            streams.1@ == exceptional_stream(differences(raw_fingerprint@)),
    {
        let mut normal_bytes: Vec<u8> = Vec::new();
        let mut exceptional_bytes: Vec<u8> = Vec::new();
        let diffs = Self::differences(raw_fingerprint);
        let mut i: usize = 0;
        while i < diffs.len()
            invariant
                i <= diffs@.len(),
                normal_bytes@ == normal_stream(diffs@.take(i as int)),
                exceptional_bytes@ == exceptional_stream(diffs@.take(i as int)),
            decreases diffs@.len() - i,
        {
            proof {
                assert(diffs@.take(i + 1).drop_last() =~= diffs@.take(i as int));
            }
            Self::process_subfingerprint(diffs[i], &mut normal_bytes, &mut exceptional_bytes);
            i += 1;
        }
        assert(diffs@.take(i as int) =~= diffs@);
        (normal_bytes, exceptional_bytes)
    }

    /// Bit-packing stage: lays out the header and the two packed regions.
    pub fn assemble(
        normal_bytes: &Vec<u8>,
        exceptional_bytes: &Vec<u8>,
        algorithm: u8,
        fingerprint_size: usize,
    ) -> (output: Vec<u8>)
        requires
            8 * buffer_size(normal_bytes@.len(), exceptional_bytes@.len()) <= u32::MAX,
            forall|i: int| 0 <= i < normal_bytes@.len() ==> #[trigger] normal_bytes@[i] < 8,
            forall|i: int| 0 <= i < exceptional_bytes@.len() ==> #[trigger] exceptional_bytes@[i] < 32,
        ensures
            output@ == layout(
                normal_bytes@,
                exceptional_bytes@,
                algorithm,
                fingerprint_size as nat,
            ),
    {
        let normal_bits_size: usize = (normal_bytes.len() * 3 + 7) / 8;
        let exceptional_bits_size: usize = (exceptional_bytes.len() * 5 + 7) / 8;
        let output_size: usize = HEADER_SIZE + normal_bits_size + exceptional_bits_size;

        let mut output: Vec<u8> = vec![0u8; output_size];
        let size: u64 = fingerprint_size as u64;
        output.set(0, algorithm);
        output.set(1, ((size >> 40) & 0xff) as u8);
        output.set(2, ((size >> 48) & 0xff) as u8);
        output.set(3, ((size >> 56) & 0xff) as u8);
        let ghost blank = output@;

        proof {
            assert forall|i: int| 0 <= i < normal_bytes@.len() implies fits_in(
                #[trigger] normal_bytes@[i],
                3,
            ) by {
                let v: u8 = normal_bytes@[i];
                assert((v as u32) >> 3u32 == 0) by (bit_vector)
                    requires
                        v < 8,
                ;
            }
            assert forall|i: int| 0 <= i < exceptional_bytes@.len() implies fits_in(
                #[trigger] exceptional_bytes@[i],
                5,
            ) by {
                let v: u8 = exceptional_bytes@[i];
                assert((v as u32) >> 5u32 == 0) by (bit_vector)
                    requires
                        v < 32,
                ;
            }
        }
        Self::copy_significant_bits(normal_bytes, &mut output, 4, 0, NORMAL_BITS);
        let ghost half = output@;
        let offset: u32 = to_u32(normal_bits_size).unwrap();
        Self::copy_significant_bits(
            exceptional_bytes,
            &mut output,
            4 + offset,
            0,
            EXCEPTIONAL_BITS,
        );
        proof {
            lemma_layout_from_bits(
                blank,
                half,
                output@,
                normal_bytes@,
                exceptional_bytes@,
                algorithm,
                fingerprint_size as nat,
            );
        }
        output
    }

    /// Encodes a fingerprint into its byte buffer.
    pub fn encode(raw_fingerprint: &[u32], algorithm: u8) -> (output: Vec<u8>)
        requires
            fits(raw_fingerprint@),
        ensures
            output@ == encoded_bytes(raw_fingerprint@, algorithm),
            output@.len() == encoded_len(raw_fingerprint@),
            output@[0] == algorithm,
    {
        proof {
            lemma_stream_lengths(differences(raw_fingerprint@));
            lemma_stream_ranges(differences(raw_fingerprint@));
            lemma_encoded_len(raw_fingerprint@, algorithm);
        }
        let (normal_bytes, exceptional_bytes) = Self::symbol_streams(raw_fingerprint);
        Self::assemble(&normal_bytes, &exceptional_bytes, algorithm, raw_fingerprint.len())
    }

    /// Compresses a fingerprint into padded URL-safe base64 text.
    pub fn compress(raw_fingerprint: &[u32], algorithm: u8) -> (text: String)
        requires
            fits(raw_fingerprint@),
        ensures
            text@ == compressed_text(raw_fingerprint@, algorithm),
            is_padded_url_safe(text@, encoded_len(raw_fingerprint@)),
            forall|i: int| 0 <= i < text@.len() ==> is_url_safe_char(#[trigger] text@[i]),
    {
        let output = Self::encode(raw_fingerprint, algorithm);
        encode_url_safe(output)
    }

    /// Compresses a fingerprint where it fits, and says so where it does not.
    pub fn try_compress(raw_fingerprint: &[u32], algorithm: u8) -> (text: Option<String>)
        ensures
            text.is_some() <==> fits(raw_fingerprint@),
            text matches Some(t) ==> compressed_text_if_fits(raw_fingerprint@, algorithm) == Some(
                t@,
            ),
            text matches Some(t) ==> {
                &&& t@ == compressed_text(raw_fingerprint@, algorithm)
                &&& is_padded_url_safe(t@, encoded_len(raw_fingerprint@))
                &&& forall|i: int| 0 <= i < t@.len() ==> is_url_safe_char(#[trigger] t@[i])
            },
    {
        let (normal_bytes, exceptional_bytes) = Self::symbol_streams(raw_fingerprint);
        proof {
            lemma_stream_lengths(differences(raw_fingerprint@));
            lemma_stream_ranges(differences(raw_fingerprint@));
        }
        let normal_count: u128 = normal_bytes.len() as u128;
        let exceptional_count: u128 = exceptional_bytes.len() as u128;
        let size: u128 = 4 + (normal_count * 3 + 7) / 8 + (exceptional_count * 5 + 7) / 8;
        if 8 * size <= 0xffff_ffff {
            let output = Self::assemble(
                &normal_bytes,
                &exceptional_bytes,
                algorithm,
                raw_fingerprint.len(),
            );
            Some(encode_url_safe(output))
        } else {
            None
        }
    }
}

} // verus!
