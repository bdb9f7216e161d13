//! The assembled equivalence check: external commitment in, the three
//! public outputs out.  Commitment, challenge and evaluation are computed
//! in that order, each stage feeding the next, exactly as the constraint
//! system wires them.

use vstd::prelude::*;

verus! {

use crate::field::Fp;
use crate::limbs::lemma_limbs_val_injective;
use crate::domain::Domain;
use crate::blob_polynomial::BlobPolynomial;
use crate::blob_polynomial::commit_words;
use crate::blob_polynomial::eval_at_spec;
use crate::hashing::absorb_digest;
use crate::fiat_shamir::fiat_shamir_for_proof_of_commitment_equivalence;
use crate::fiat_shamir::derive_spec;
use crate::fiat_shamir::KZG_COMMITMENT_LIMBS;

/// The public outputs of one proving session: the in-circuit commitment
/// digest, the Fiat-Shamir challenge, and the claimed evaluation at it.
pub struct PublicOutputs {
    pub commitment: Vec<u64>,
    pub challenge: Fp,
    pub evaluation: Fp,
}

/// Run the equivalence pipeline on a blob and an external commitment:
/// commit to the blob, derive the challenge binding both commitments, and
/// evaluate the blob at that challenge.
pub fn equivalence_public_outputs(blob: &BlobPolynomial, domain: &Domain, kzg_commitment: &Vec<
    u32,
>) -> (r: PublicOutputs)
    requires
        blob.wf(),
        domain.wf(),
        kzg_commitment@.len() == KZG_COMMITMENT_LIMBS,
    ensures
        r.commitment@ == absorb_digest(commit_words(blob.values())),
        r.challenge.wf(),
        r.challenge@ == derive_spec(r.commitment@, kzg_commitment@),
        r.evaluation.wf(),
        r.evaluation@ == eval_at_spec(domain.values(), blob.values(), r.challenge@),
{
    let commitment = blob.commit();
    let challenge = fiat_shamir_for_proof_of_commitment_equivalence(&commitment, kzg_commitment);
    let evaluation = blob.eval_at(domain, &challenge);
    PublicOutputs { commitment, challenge, evaluation }
}

/// Two runs of the pipeline over the same blob values, domain values and
/// external commitment produce the same public outputs, digest word for
/// digest word and limb for limb.
pub proof fn lemma_outputs_deterministic(
    o1: &PublicOutputs,
    o2: &PublicOutputs,
    values: Seq<nat>,
    domain_values: Seq<nat>,
    kzg_commitment: Seq<u32>,
)
    requires
        o1.challenge.wf(),
        o2.challenge.wf(),
        o1.evaluation.wf(),
        o2.evaluation.wf(),
        o1.commitment@ == absorb_digest(commit_words(values)),
        o2.commitment@ == absorb_digest(commit_words(values)),
        o1.challenge@ == derive_spec(o1.commitment@, kzg_commitment),
        o2.challenge@ == derive_spec(o2.commitment@, kzg_commitment),
        o1.evaluation@ == eval_at_spec(domain_values, values, o1.challenge@),
        o2.evaluation@ == eval_at_spec(domain_values, values, o2.challenge@),
    ensures
        o1.commitment@ == o2.commitment@,
        o1.challenge.limbs@ == o2.challenge.limbs@,
        o1.evaluation.limbs@ == o2.evaluation.limbs@,
{
    lemma_limbs_val_injective(o1.challenge.limbs@, o2.challenge.limbs@);
    lemma_limbs_val_injective(o1.evaluation.limbs@, o2.evaluation.limbs@);
}

} // verus!
