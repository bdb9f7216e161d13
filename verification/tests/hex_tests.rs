use poe::field::Fp;
use poe::hex::{parse_blob, parse_bls12_381_scalar, parse_kzg_commitment, LoadError};

const MODULUS_HEX: &str = "73eda753299d7d483339d80809a1d80553bda402fffe5bfeffffffff00000001";

fn scalar_hex_of_word(w: u32) -> Vec<u8> {
    let mut s = vec![b'0'; 64];
    let tail = format!("{:08x}", w);
    s[56..64].copy_from_slice(tail.as_bytes());
    s
}

#[test]
fn scalar_decodes_big_endian_value() {
    let s = scalar_hex_of_word(0x20);
    let f = parse_bls12_381_scalar(&s).expect("valid scalar");
    assert!(f.equals(&Fp::from_word(0x20)));
    // mixed-case digits are accepted
    let mut t = scalar_hex_of_word(0);
    t[56..64].copy_from_slice(b"DeadBeef");
    let g = parse_bls12_381_scalar(&t).expect("valid scalar");
    assert!(g.equals(&Fp::from_word(0xdeadbeef)));
}

#[test]
fn scalar_length_must_be_exact() {
    let short = vec![b'0'; 63];
    assert!(matches!(parse_bls12_381_scalar(&short), Err(LoadError::LengthMismatch)));
    let long = vec![b'0'; 65];
    assert!(matches!(parse_bls12_381_scalar(&long), Err(LoadError::LengthMismatch)));
}

#[test]
fn scalar_rejects_non_hex_characters() {
    let mut s = scalar_hex_of_word(7);
    s[10] = b'g';
    assert!(matches!(parse_bls12_381_scalar(&s), Err(LoadError::DecodeError)));
    let mut t = scalar_hex_of_word(7);
    t[0] = b' ';
    assert!(matches!(parse_bls12_381_scalar(&t), Err(LoadError::DecodeError)));
}

#[test]
fn scalar_must_be_below_the_field_order() {
    let at_order: Vec<u8> = MODULUS_HEX.as_bytes().to_vec();
    assert!(matches!(parse_bls12_381_scalar(&at_order), Err(LoadError::DecodeError)));
    // one below the order is accepted
    let mut below = MODULUS_HEX.as_bytes().to_vec();
    *below.last_mut().unwrap() = b'0';
    let f = parse_bls12_381_scalar(&below).expect("r - 1 is canonical");
    assert_eq!(f.limbs[0], 0x00000000);
    assert_eq!(f.limbs[7], 0x73eda753);
}

#[test]
fn kzg_commitment_decodes_into_twelve_limbs() {
    let mut s = vec![b'0'; 96];
    s[94] = b'2';
    s[95] = b'a';
    let v = parse_kzg_commitment(&s).expect("valid commitment");
    assert_eq!(v.len(), 12);
    assert_eq!(v[0], 0x2a);
    assert!(v[1..].iter().all(|&l| l == 0));
    assert!(matches!(parse_kzg_commitment(&vec![b'0'; 95]), Err(LoadError::LengthMismatch)));
    let mut bad = vec![b'0'; 96];
    bad[3] = b'z';
    assert!(matches!(parse_kzg_commitment(&bad), Err(LoadError::DecodeError)));
}

#[test]
fn blob_requires_exact_length_and_hex_chunks() {
    let r = parse_blob(&vec![b'0'; 100]);
    assert!(matches!(r, Err(LoadError::LengthMismatch)));
    let mut bad = vec![b'0'; 4096 * 64];
    bad[64 * 17 + 3] = b'x';
    assert!(matches!(parse_blob(&bad), Err(LoadError::DecodeError)));
    // a chunk at or above the field order is refused as well
    let mut over = vec![b'0'; 4096 * 64];
    over[64 * 5..64 * 6].copy_from_slice(MODULUS_HEX.as_bytes());
    assert!(matches!(parse_blob(&over), Err(LoadError::DecodeError)));
}

#[test]
fn blob_decodes_chunkwise() {
    let mut s = vec![b'0'; 4096 * 64];
    s[63] = b'5';
    s[64 + 63] = b'9';
    let b = parse_blob(&s).expect("valid blob");
    assert_eq!(b.iter().len(), 4096);
    assert!(b.iter()[0].equals(&Fp::from_word(5)));
    assert!(b.iter()[1].equals(&Fp::from_word(9)));
    assert!(b.iter()[2].is_zero());
}
