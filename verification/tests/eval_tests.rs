use poe::blob_polynomial::{BlobPolynomial, BLOB_WIDTH};
use poe::domain::Domain;
use poe::field::Fp;

fn blob_with(entries: &[(usize, u32)]) -> BlobPolynomial {
    let mut values: Vec<Fp> = Vec::with_capacity(BLOB_WIDTH);
    for _ in 0..BLOB_WIDTH {
        values.push(Fp::zero());
    }
    for &(i, v) in entries {
        values[i] = Fp::from_word(v);
    }
    BlobPolynomial::new(values).expect("blob construction")
}

#[test]
fn eval_on_domain_returns_stored_values() {
    let domain = Domain::new().expect("domain construction");
    let blob = blob_with(&[(0, 11), (1, 22), (5, 33), (4095, 44)]);
    for &(i, v) in &[(0usize, 11u32), (1, 22), (5, 33), (4095, 44)] {
        let r = blob.eval_at(&domain, domain.element(i));
        assert!(r.equals(&Fp::from_word(v)));
    }
    // an index whose stored value is zero evaluates to zero
    let r = blob.eval_at(&domain, domain.element(7));
    assert!(r.is_zero());
}

#[test]
fn scenario_all_zero_blob_evaluates_to_zero() {
    let domain = Domain::new().expect("domain construction");
    let blob = blob_with(&[]);
    // off-domain challenge: 2 is not a 4096th root of unity
    let x = Fp::from_word(2);
    for e in domain.elements.iter() {
        assert!(!e.equals(&x));
    }
    let r = blob.eval_at(&domain, &x);
    assert!(r.is_zero());
    // another off-domain point
    let y = Fp::from_word(123456789);
    let r2 = blob.eval_at(&domain, &y);
    assert!(r2.is_zero());
}

#[test]
fn scenario_unit_blob_at_first_two_domain_points() {
    let domain = Domain::new().expect("domain construction");
    let blob = blob_with(&[(0, 1)]);
    let at_0 = blob.eval_at(&domain, domain.element(0));
    assert!(at_0.equals(&Fp::one()));
    let at_1 = blob.eval_at(&domain, domain.element(1));
    assert!(at_1.is_zero());
}
