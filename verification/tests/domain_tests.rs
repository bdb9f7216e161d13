use num::Num;
use poe::blob_polynomial::BLOB_WIDTH;
use poe::domain::{bit_rev_exec, Domain};
use poe::field::Fp;

const MODULUS_HEX: &str = "73eda753299d7d483339d80809a1d80553bda402fffe5bfeffffffff00000001";

fn fp_to_biguint(f: &Fp) -> num::BigUint {
    num::BigUint::from_slice(&f.limbs)
}

#[test]
fn bit_reversal_of_twelve_bits() {
    assert_eq!(bit_rev_exec(0, 12), 0);
    assert_eq!(bit_rev_exec(1, 12), 2048);
    assert_eq!(bit_rev_exec(2, 12), 1024);
    assert_eq!(bit_rev_exec(3, 12), 3072);
    assert_eq!(bit_rev_exec(2048, 12), 1);
    assert_eq!(bit_rev_exec(4095, 12), 4095);
    // reversing twice gives the index back
    for i in [0u64, 1, 2, 3, 17, 100, 2047, 2048, 4095] {
        assert_eq!(bit_rev_exec(bit_rev_exec(i, 12), 12), i);
    }
}

#[test]
fn domain_has_4096_distinct_roots_of_unity() {
    let domain = Domain::new().expect("domain construction");
    assert_eq!(domain.elements.len(), BLOB_WIDTH);
    // entry 0 is the root to the 0th power: one
    let one = Fp::one();
    assert!(domain.elements[0].equals(&one));
    // spot-check distinctness
    assert!(!domain.elements[0].equals(&domain.elements[1]));
    assert!(!domain.elements[1].equals(&domain.elements[2]));
    assert!(!domain.elements[4095].equals(&domain.elements[4094]));
    // every checked entry to the 4096th power is one
    for i in [0usize, 1, 2, 3, 77, 2048, 4095] {
        let p = domain.elements[i].pow_to_const(4096);
        assert!(p.equals(&one));
    }
}

#[test]
fn domain_matches_independent_root_computation() {
    let domain = Domain::new().expect("domain construction");
    let r = num::BigUint::from_str_radix(MODULUS_HEX, 16).unwrap();
    let exponent = (&r - 1u32) / num::BigUint::from(4096u32);
    let omega = num::BigUint::from(7u32).modpow(&exponent, &r);
    // the entry whose bit-reversed index is 1 carries omega itself
    let at_2048 = fp_to_biguint(&domain.elements[2048]);
    assert_eq!(at_2048, omega);
    // and entry 1024 carries omega squared
    let at_1024 = fp_to_biguint(&domain.elements[1024]);
    assert_eq!(at_1024, omega.modpow(&num::BigUint::from(2u32), &r));
    // omega has order exactly 4096, not 2048
    assert_ne!(
        omega.modpow(&num::BigUint::from(2048u32), &r),
        num::BigUint::from(1u32)
    );
}
