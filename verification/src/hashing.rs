//! Trusted bridge to the absorbing hash that binds commitments.
//!
//! The hash consumes a sequence of native 64-bit words with no padding and
//! returns a fixed-size digest of four words.  Its value is named by the
//! uninterpreted `absorb_digest`; nothing more is assumed of it than
//! determinism and the digest width.

use vstd::prelude::*;

verus! {

/// The digest of the absorbing hash on a sequence of native words.
pub uninterp spec fn absorb_digest(inputs: Seq<u64>) -> Seq<u64>;

/// Relies on `keccak_hash::keccak` (Keccak-256): the 32-byte digest is a
/// function of the input bytes alone — here the little-endian bytes of the
/// input words — and is returned as four little-endian words.
#[verifier::external_body]
pub(crate) fn absorb_words(inputs: &Vec<u64>) -> (r: Vec<u64>)
    ensures
        r@ == absorb_digest(inputs@),
        r@.len() == 4,
{
    let mut bytes: Vec<u8> = Vec::with_capacity(inputs.len() * 8);
    for w in inputs.iter() {
        bytes.extend_from_slice(&w.to_le_bytes());
    }
    let h = keccak_hash::keccak(&bytes);
    let b = h.to_fixed_bytes();
    let mut out: Vec<u64> = Vec::with_capacity(4);
    for i in 0..4 {
        let mut word = [0u8; 8];
        word.copy_from_slice(&b[i * 8..(i + 1) * 8]);
        out.push(u64::from_le_bytes(word));
    }
    out
}

} // verus!
