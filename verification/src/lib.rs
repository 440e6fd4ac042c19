//! Compression of acoustic fingerprints.
//!
//! A fingerprint is a sequence of 32-bit hashes. It is delta-coded with XOR,
//! every difference is turned into gap codes for its set bits, the codes are
//! bit-packed behind a four byte header, and the buffer is rendered as
//! URL-safe base64 text.

use vstd::prelude::*;

pub mod compressor;
pub mod packing;
pub mod samples;
pub mod symbols;

verus! {

/// The compressor. It holds no state: every operation is an associated function.
pub struct FingerprintCompressor {}

} // verus!
