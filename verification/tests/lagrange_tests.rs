//! Cross-check of the barycentric evaluator against an independent
//! Lagrange-interpolation reference over the same (point, value) pairs.

use num::Num;
use num::One;
use num::Zero;
use poe::blob_polynomial::{BlobPolynomial, BLOB_WIDTH};
use poe::domain::Domain;
use poe::field::Fp;

const MODULUS_HEX: &str = "73eda753299d7d483339d80809a1d80553bda402fffe5bfeffffffff00000001";

fn fp_to_biguint(f: &Fp) -> num::BigUint {
    num::BigUint::from_slice(&f.limbs)
}

fn sub_mod(a: &num::BigUint, b: &num::BigUint, r: &num::BigUint) -> num::BigUint {
    (a + r - b) % r
}

fn inv_mod(a: &num::BigUint, r: &num::BigUint) -> num::BigUint {
    a.modpow(&(r - 2u32), r)
}

/// Direct Lagrange interpolation: sum of f[i] * prod_{j != i} (x - d[j]) /
/// (d[i] - d[j]); terms with f[i] == 0 contribute nothing and are skipped.
fn lagrange_eval(
    d: &[num::BigUint],
    f: &[num::BigUint],
    x: &num::BigUint,
    r: &num::BigUint,
) -> num::BigUint {
    let mut acc = num::BigUint::zero();
    for i in 0..d.len() {
        if f[i].is_zero() {
            continue;
        }
        let mut numerator = num::BigUint::one();
        let mut denominator = num::BigUint::one();
        for j in 0..d.len() {
            if j == i {
                continue;
            }
            numerator = numerator * sub_mod(x, &d[j], r) % r;
            denominator = denominator * sub_mod(&d[i], &d[j], r) % r;
        }
        let term = &f[i] * numerator % r * inv_mod(&denominator, r) % r;
        acc = (acc + term) % r;
    }
    acc
}

#[test]
fn barycentric_matches_lagrange_off_domain() {
    let domain = Domain::new().expect("domain construction");
    let r = num::BigUint::from_str_radix(MODULUS_HEX, 16).unwrap();

    let mut values: Vec<Fp> = Vec::with_capacity(BLOB_WIDTH);
    for _ in 0..BLOB_WIDTH {
        values.push(Fp::zero());
    }
    values[0] = Fp::from_word(5);
    values[7] = Fp::from_word(9);
    values[4095] = Fp::from_word(1234567);
    let blob = BlobPolynomial::new(values).expect("blob construction");

    let d: Vec<num::BigUint> = domain.elements.iter().map(fp_to_biguint).collect();
    let f: Vec<num::BigUint> = blob.iter().iter().map(fp_to_biguint).collect();

    for x_word in [2u32, 3, 99991] {
        let x = Fp::from_word(x_word);
        // the challenge is off the domain
        for e in domain.elements.iter() {
            assert!(!e.equals(&x));
        }
        let got = fp_to_biguint(&blob.eval_at(&domain, &x));
        let expected = lagrange_eval(&d, &f, &num::BigUint::from(x_word), &r);
        assert_eq!(got, expected);
    }
}
