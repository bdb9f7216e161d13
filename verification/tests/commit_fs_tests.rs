use poe::blob_polynomial::{BlobPolynomial, BLOB_WIDTH};
use poe::fiat_shamir::fiat_shamir_for_proof_of_commitment_equivalence;
use poe::field::Fp;

fn blob_with(entries: &[(usize, u32)]) -> BlobPolynomial {
    let mut values: Vec<Fp> = Vec::with_capacity(BLOB_WIDTH);
    for _ in 0..BLOB_WIDTH {
        values.push(Fp::zero());
    }
    for &(i, v) in entries {
        values[i] = Fp::from_word(v);
    }
    BlobPolynomial::new(values).expect("blob construction")
}

#[test]
fn commit_digest_has_fixed_width_and_is_deterministic() {
    let blob = blob_with(&[(3, 14)]);
    let d1 = blob.commit();
    let d2 = blob.commit();
    assert_eq!(d1.len(), 4);
    assert_eq!(d1, d2);
}

#[test]
fn commit_separates_blobs_differing_in_one_value() {
    let base = blob_with(&[(0, 1)]);
    // differ in exactly one coefficient, at several positions
    for &(i, v) in &[(0usize, 2u32), (1, 1), (2048, 7), (4095, 1)] {
        let other = blob_with(&[(0, 1), (i, v)]);
        if i == 0 {
            assert_eq!(other.iter().len(), BLOB_WIDTH);
        }
        assert_ne!(base.commit(), other.commit());
    }
}

#[test]
fn derive_is_deterministic_and_binds_the_external_commitment() {
    let blob = blob_with(&[(0, 1), (100, 42)]);
    let digest = blob.commit();
    let kzg1: Vec<u32> = (0..12u32).collect();
    let kzg2: Vec<u32> = (1..13u32).collect();
    let c1a = fiat_shamir_for_proof_of_commitment_equivalence(&digest, &kzg1);
    let c1b = fiat_shamir_for_proof_of_commitment_equivalence(&digest, &kzg1);
    let c2 = fiat_shamir_for_proof_of_commitment_equivalence(&digest, &kzg2);
    // determinism: same commitments, same challenge, limb for limb
    assert_eq!(c1a.limbs, c1b.limbs);
    // binding: a different external commitment moves the challenge
    assert!(!c1a.equals(&c2));
}

#[test]
fn derive_binds_the_circuit_commitment() {
    let blob_a = blob_with(&[(0, 1)]);
    let blob_b = blob_with(&[(0, 2)]);
    let kzg: Vec<u32> = (0..12u32).collect();
    let ca = fiat_shamir_for_proof_of_commitment_equivalence(&blob_a.commit(), &kzg);
    let cb = fiat_shamir_for_proof_of_commitment_equivalence(&blob_b.commit(), &kzg);
    assert!(!ca.equals(&cb));
}
