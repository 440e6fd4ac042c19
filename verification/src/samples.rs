//! Audio samples from their byte form.

use vstd::prelude::*;

verus! {

/// The signed 16-bit sample whose little-endian bytes are `low` and `high`.
pub open spec fn sample_of(low: u8, high: u8) -> int {
    if low + 256 * high < 32768 {
        low + 256 * high
    } else {
        low + 256 * high - 65536
    }
}

/// The samples of a byte sequence: one for each whole pair of bytes, in order.
/// A last byte without a partner is left out.
pub open spec fn samples_of(bytes: Seq<u8>) -> Seq<i16> {
    Seq::new(bytes.len() / 2, |i: int| sample_of(bytes[2 * i], bytes[2 * i + 1]) as i16)
}

/// Reads signed 16-bit little-endian samples out of `bytes`.
pub fn samples_from_s16le(bytes: &[u8]) -> (samples: Vec<i16>)
    ensures
        samples@ == samples_of(bytes@),
{
    let mut samples: Vec<i16> = Vec::new();
    let count: usize = bytes.len() / 2;
    let mut i: usize = 0;
    while i < count
        invariant
            i <= count,
            count == bytes@.len() / 2,
            bytes@.len() <= usize::MAX,
            samples@ == samples_of(bytes@).take(i as int),
        decreases count - i,
    {
        let low: i32 = bytes[2 * i] as i32;
        let high: i32 = bytes[2 * i + 1] as i32;
        let value: i32 = low + 256 * high;
        let sample: i16 = if value < 32768 {
            value as i16
        } else {
            (value - 65536) as i16
        };
        proof {
            assert(samples_of(bytes@).take(i + 1) =~= samples_of(bytes@).take(i as int).push(
                sample,
            ));
        }
        samples.push(sample);
        i += 1;
    }
    assert(samples_of(bytes@).take(i as int) =~= samples_of(bytes@));
    samples
}

} // verus!
