//! Fiat-Shamir derivation of the challenge point.
//!
//! The circuit commitment digest and the external commitment's limbs are
//! absorbed through the same hash used for commitments; the output words,
//! split into 32-bit halves, form the limb encoding of the challenge, read
//! as a scalar-field element.  The challenge is thereby bound to both
//! commitments before either party can choose it.

use vstd::prelude::*;

verus! {

use crate::limbs::limbs_val;
use crate::limbs::lemma_limbs_val_injective;
use crate::field::Fp;
use crate::field::fp_modulus;
use crate::field::reduce_limbs;
use crate::hashing::absorb_digest;
use crate::hashing::absorb_words;

/// Number of 32-bit limbs of the external (pairing-based) commitment.
pub const KZG_COMMITMENT_LIMBS: usize = 12;

/// Native words split into little-endian 32-bit halves.
pub open spec fn split_words(s: Seq<u64>) -> Seq<u32> {
    Seq::new(
        2 * s.len(),
        |t: int|
            if t % 2 == 0 {
                (s[t / 2] & 0xffff_ffff) as u32
            } else {
                (s[t / 2] >> 32) as u32
            },
    )
}

/// The challenge derived from the in-circuit commitment digest and the
/// external commitment limbs.
pub open spec fn derive_spec(circuit_commitment: Seq<u64>, kzg_commitment: Seq<u32>) -> nat {
    limbs_val(
        split_words(
            absorb_digest(circuit_commitment + kzg_commitment.map(|i: int, l: u32| l as u64)),
        ),
    ) % fp_modulus()
}

/// Derive the challenge point binding the two commitments: absorb the
/// circuit commitment digest followed by the external commitment limbs,
/// split the digest words into 32-bit limbs, and reduce into the field.
#[verifier::loop_isolation(false)]
pub fn fiat_shamir_for_proof_of_commitment_equivalence(
    circuit_commitment: &Vec<u64>,
    kzg_commitment: &Vec<u32>,
) -> (r: Fp)
    requires
        circuit_commitment@.len() == 4,
        kzg_commitment@.len() == KZG_COMMITMENT_LIMBS,
    ensures
        r.wf(),
        r@ == derive_spec(circuit_commitment@, kzg_commitment@),
{
    let ghost mapped = kzg_commitment@.map(|i: int, l: u32| l as u64);
    let mut input: Vec<u64> = Vec::new();
    let mut i: usize = 0;
    while i < circuit_commitment.len()
        invariant
            0 <= i <= circuit_commitment@.len(),
            input@ =~= circuit_commitment@.subrange(0, i as int),
        decreases circuit_commitment@.len() - i,
    {
        input.push(circuit_commitment[i]);
        i = i + 1;
    }
    let mut j: usize = 0;
    while j < kzg_commitment.len()
        invariant
            0 <= j <= kzg_commitment@.len(),
            input@ =~= circuit_commitment@ + mapped.subrange(0, j as int),
        decreases kzg_commitment@.len() - j,
    {
        input.push(kzg_commitment[j] as u64);
        j = j + 1;
    }
    proof {
        assert(input@ =~= circuit_commitment@ + mapped);
    }
    let digest = absorb_words(&input);
    let mut limbs: Vec<u32> = Vec::new();
    let mut k: usize = 0;
    while k < digest.len()
        invariant
            0 <= k <= digest@.len(),
            limbs@.len() == 2 * k,
            forall|t: int| 0 <= t < 2 * k ==> limbs@[t] == split_words(digest@)[t],
        decreases digest@.len() - k,
    {
        let word = digest[k];
        proof {
            assert((word & 0xffff_ffffu64) < 0x1_0000_0000u64) by (bit_vector);
            assert((word >> 32u64) < 0x1_0000_0000u64) by (bit_vector);
        }
        limbs.push((word & 0xffff_ffff) as u32);
        limbs.push((word >> 32) as u32);
        k = k + 1;
    }
    proof {
        assert(limbs@ =~= split_words(digest@));
    }
    reduce_limbs(&limbs)
}

/// The absorbed transcript determines both commitments: two sessions
/// absorb the same word sequence only if they agree on the circuit digest
/// and on the external commitment.  Distinctness of the derived challenges
/// for distinct commitments then rests on the hash alone.
pub proof fn lemma_transcript_injective(c1: Seq<u64>, k1: Seq<u32>, c2: Seq<u64>, k2: Seq<u32>)
    requires
        c1.len() == c2.len(),
        c1 + k1.map(|i: int, l: u32| l as u64) == c2 + k2.map(|i: int, l: u32| l as u64),
    ensures
        c1 == c2,
        k1 == k2,
{
    let m1 = k1.map(|i: int, l: u32| l as u64);
    let m2 = k2.map(|i: int, l: u32| l as u64);
    assert((c1 + m1).len() == (c2 + m2).len());
    assert(m1.len() == k1.len() && m2.len() == k2.len());
    assert forall|t: int| 0 <= t < c1.len() implies c1[t] == c2[t] by {
        assert((c1 + m1)[t] == (c2 + m2)[t]);
    }
    assert(c1 =~= c2);
    assert forall|t: int| 0 <= t < k1.len() implies k1[t] == k2[t] by {
        assert((c1 + m1)[c1.len() + t] == (c2 + m2)[c2.len() + t]);
        assert(m1[t] == m2[t]);
    }
    assert(k1 =~= k2);
}

/// Deriving twice from the same pair of commitments gives the same
/// challenge, limb for limb: the transform is deterministic.
pub proof fn lemma_derive_deterministic(
    a: &Fp,
    b: &Fp,
    circuit_commitment: Seq<u64>,
    kzg_commitment: Seq<u32>,
)
    requires
        a.wf(),
        b.wf(),
        a@ == derive_spec(circuit_commitment, kzg_commitment),
        b@ == derive_spec(circuit_commitment, kzg_commitment),
    ensures
        a@ == b@,
        a.limbs@ == b.limbs@,
{
    lemma_limbs_val_injective(a.limbs@, b.limbs@);
}

} // verus!
