use poe::assembly::equivalence_public_outputs;
use poe::domain::Domain;
use poe::hex::{parse_blob, parse_kzg_commitment};

fn fixed_blob_hex() -> Vec<u8> {
    let mut s = vec![b'0'; 4096 * 64];
    s[63] = b'1';
    s[64 + 62] = b'2';
    s[64 * 4095 + 60] = b'7';
    s
}

fn fixed_kzg_hex() -> Vec<u8> {
    let mut s = vec![b'0'; 96];
    s[0] = b'a';
    s[95] = b'3';
    s
}

#[test]
fn end_to_end_outputs_are_reproducible() {
    let domain = Domain::new().expect("domain construction");
    let blob1 = parse_blob(&fixed_blob_hex()).expect("blob decodes");
    let kzg1 = parse_kzg_commitment(&fixed_kzg_hex()).expect("commitment decodes");
    let out1 = equivalence_public_outputs(&blob1, &domain, &kzg1);

    // a second, fully independent run over the same inputs
    let domain2 = Domain::new().expect("domain construction");
    let blob2 = parse_blob(&fixed_blob_hex()).expect("blob decodes");
    let kzg2 = parse_kzg_commitment(&fixed_kzg_hex()).expect("commitment decodes");
    let out2 = equivalence_public_outputs(&blob2, &domain2, &kzg2);

    assert_eq!(out1.commitment, out2.commitment);
    assert_eq!(out1.challenge.limbs, out2.challenge.limbs);
    assert_eq!(out1.evaluation.limbs, out2.evaluation.limbs);
    assert_eq!(out1.commitment.len(), 4);
    assert_eq!(out1.challenge.limbs.len(), 8);
    assert_eq!(out1.evaluation.limbs.len(), 8);
}

#[test]
fn end_to_end_outputs_depend_on_the_blob() {
    let domain = Domain::new().expect("domain construction");
    let blob_a = parse_blob(&fixed_blob_hex()).expect("blob decodes");
    let kzg = parse_kzg_commitment(&fixed_kzg_hex()).expect("commitment decodes");
    let mut other_hex = fixed_blob_hex();
    other_hex[63] = b'2';
    let blob_b = parse_blob(&other_hex).expect("blob decodes");
    let out_a = equivalence_public_outputs(&blob_a, &domain, &kzg);
    let out_b = equivalence_public_outputs(&blob_b, &domain, &kzg);
    assert_ne!(out_a.commitment, out_b.commitment);
    assert!(!out_a.challenge.equals(&out_b.challenge));
}
