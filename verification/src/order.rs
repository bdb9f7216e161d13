//! The multiplicative-order argument behind the domain's distinctness:
//! an element whose 4096th power is one but whose 2048th power is not has
//! order exactly 4096, so its first 4096 powers are pairwise distinct.
//! The chain runs through exponent arithmetic alone: powers multiply by
//! adding exponents, the exponents with power one are closed under the
//! Euclidean step, and every divisor of a power of two is a power of two.

use vstd::prelude::*;

verus! {

use vstd::arithmetic::power::pow;
use vstd::arithmetic::power::lemma_pow0;
use vstd::arithmetic::power::lemma_pow_adds;
use vstd::arithmetic::power2::pow2;
use vstd::arithmetic::power2::lemma_pow2_adds;
use vstd::arithmetic::power2::lemma_pow2_pos;
use vstd::arithmetic::div_mod::lemma_small_mod;
use vstd::arithmetic::div_mod::lemma_mod_bound;
use vstd::arithmetic::div_mod::lemma_mul_mod_noop;
use vstd::arithmetic::div_mod::lemma_fundamental_div_mod;
use crate::field::fp_modulus;
use crate::field::fp_mul_s;
use crate::field::fp_pow_s;

/// `x` divides `y`.
pub open spec fn divides(x: nat, y: nat) -> bool {
    exists|k: nat| y == #[trigger] (k * x)
}

/// Greatest common divisor by the Euclidean recursion.
pub open spec fn gcd_nat(a: nat, b: nat) -> nat
    decreases b,
{
    if b == 0 {
        a
    } else {
        gcd_nat(b, a % b)
    }
}

/// Powers multiply by adding exponents, in the field.
proof fn lemma_fp_pow_product(w: nat, a: nat, b: nat)
    ensures
        fp_mul_s(fp_pow_s(w, a), fp_pow_s(w, b)) == fp_pow_s(w, a + b),
{
    let m = fp_modulus() as int;
    let wi = w as int;
    lemma_mul_mod_noop(pow(wi, a), pow(wi, b), m);
    lemma_pow_adds(wi, a, b);
}

/// An exponent with power one stays power one under any multiple.
proof fn lemma_fp_pow_multiple(w: nat, a: nat, k: nat)
    requires
        fp_pow_s(w, a) == 1,
    ensures
        fp_pow_s(w, k * a) == 1,
    decreases k,
{
    let m = fp_modulus() as int;
    if k == 0 {
        lemma_pow0(w as int);
        lemma_small_mod(1, fp_modulus());
        assert(0 * a == 0) by (nonlinear_arith);
    } else {
        lemma_fp_pow_multiple(w, a, (k - 1) as nat);
        lemma_fp_pow_product(w, ((k - 1) as nat) * a, a);
        assert(((k - 1) as nat) * a + a == k * a) by (nonlinear_arith)
            requires
                k > 0,
        ;
        assert(fp_mul_s(1, 1) == 1) by {
            lemma_small_mod(1, fp_modulus());
        }
    }
}

/// Exponents with power one are closed under taking remainders.
proof fn lemma_fp_pow_mod_exponent(w: nat, a: nat, b: nat)
    requires
        fp_pow_s(w, b) == 1,
        b > 0,
    ensures
        fp_pow_s(w, a % b) == fp_pow_s(w, a),
{
    let m = fp_modulus() as int;
    let q = a / b;
    let r = a % b;
    lemma_fundamental_div_mod(a as int, b as int);
    assert(a == q * b + r);
    lemma_fp_pow_multiple(w, b, q);
    lemma_fp_pow_product(w, q * b, r);
    assert(fp_mul_s(1, fp_pow_s(w, r)) == fp_pow_s(w, a));
    lemma_mod_bound(pow(w as int, r), m);
    lemma_small_mod(fp_pow_s(w, r), fp_modulus());
    assert(fp_mul_s(1, fp_pow_s(w, r)) == fp_pow_s(w, r));
}

/// Exponents with power one are closed under the greatest common divisor.
proof fn lemma_fp_pow_gcd(w: nat, a: nat, b: nat)
    requires
        fp_pow_s(w, a) == 1,
        fp_pow_s(w, b) == 1,
    ensures
        fp_pow_s(w, gcd_nat(a, b)) == 1,
    decreases b,
{
    if b > 0 {
        lemma_fp_pow_mod_exponent(w, a, b);
        lemma_fp_pow_gcd(w, b, a % b);
    }
}

/// The greatest common divisor divides both arguments, and is positive
/// when either argument is.
proof fn lemma_gcd_divides(a: nat, b: nat)
    ensures
        divides(gcd_nat(a, b), a),
        divides(gcd_nat(a, b), b),
        a > 0 || b > 0 ==> gcd_nat(a, b) > 0,
    decreases b,
{
    if b == 0 {
        assert(a == 1 * a) by (nonlinear_arith);
        assert(0 == 0 * a) by (nonlinear_arith);
    } else {
        lemma_gcd_divides(b, a % b);
        let g = gcd_nat(b, a % b);
        let k1 = choose|k: nat| b == #[trigger] (k * g);
        let k2 = choose|k: nat| (a % b) == #[trigger] (k * g);
        let q = a / b;
        lemma_fundamental_div_mod(a as int, b as int);
        assert(a == q * b + a % b);
        assert(q * (k1 * g) + k2 * g == (q * k1 + k2) * g) by (nonlinear_arith);
        assert(a == ((q * k1 + k2) as nat) * g);
        assert(divides(g, a));
        if g == 0 {
            assert(b == k1 * 0);
            assert(k1 * 0 == 0) by (nonlinear_arith);
        }
    }
}

/// A positive divisor of 2^n is itself a power of two, 2^j with j <= n.
proof fn lemma_divisor_of_pow2(x: nat, n: nat)
    requires
        x > 0,
        divides(x, pow2(n)),
    ensures
        exists|j: nat| j <= n && x == #[trigger] pow2(j),
    decreases n,
{
    lemma_pow2_pos(n);
    let k = choose|k: nat| pow2(n) == #[trigger] (k * x);
    if n == 0 {
        assert(pow2(0) == 1) by {
            vstd::arithmetic::power2::lemma2_to64();
        }
        assert(x == 1) by (nonlinear_arith)
            requires
                k * x == 1,
                x > 0,
        ;
        assert(0 <= 0nat && x == pow2(0));
    } else {
        vstd::arithmetic::power2::lemma_pow2_unfold(n);
        assert(pow2(n) == 2 * pow2((n - 1) as nat));
        if x % 2 == 0 {
            let y = x / 2;
            lemma_fundamental_div_mod(x as int, 2);
            assert(x == 2 * y);
            assert(y > 0);
            assert(k * (2 * y) == 2 * (k * y)) by (nonlinear_arith);
            assert(2 * (k * y) == 2 * pow2((n - 1) as nat));
            assert(pow2((n - 1) as nat) == k * y);
            assert(divides(y, pow2((n - 1) as nat)));
            lemma_divisor_of_pow2(y, (n - 1) as nat);
            let j = choose|j: nat| j <= n - 1 && y == #[trigger] pow2(j);
            lemma_pow2_adds(1, j);
            assert(pow2(1) == 2) by {
                vstd::arithmetic::power2::lemma2_to64();
            }
            assert(x == pow2(j + 1) && j + 1 <= n);
        } else {
            // x odd: the cofactor k must be even, and x then divides 2^(n-1)
            lemma_fundamental_div_mod(x as int, 2);
            lemma_fundamental_div_mod(k as int, 2);
            let xh = x / 2;
            let kh = k / 2;
            assert(x == 2 * xh + 1);
            if k % 2 == 1 {
                assert(k == 2 * kh + 1);
                assert((2 * kh + 1) * (2 * xh + 1) == 2 * (2 * kh * xh + kh + xh) + 1)
                    by (nonlinear_arith);
                assert(pow2(n) == 2 * (2 * kh * xh + kh + xh) + 1);
                assert(false);
            }
            assert(k == 2 * kh);
            assert((2 * kh) * x == 2 * (kh * x)) by (nonlinear_arith);
            assert(2 * (kh * x) == 2 * pow2((n - 1) as nat));
            assert(pow2((n - 1) as nat) == kh * x);
            assert(divides(x, pow2((n - 1) as nat)));
            lemma_divisor_of_pow2(x, (n - 1) as nat);
            let j = choose|j: nat| j <= n - 1 && x == #[trigger] pow2(j);
            assert(j <= n && x == pow2(j));
        }
    }
}

/// An element whose 4096th power is one and whose 2048th power is not has
/// pairwise-distinct powers over all exponents below 4096: its
/// multiplicative order is exactly 4096.
pub proof fn lemma_root_powers_distinct(w: nat, e1: nat, e2: nat)
    requires
        fp_pow_s(w, 4096) == 1,
        fp_pow_s(w, 2048) != 1,
        e1 < e2 < 4096,
    ensures
        fp_pow_s(w, e1) != fp_pow_s(w, e2),
{
    let m = fp_modulus() as int;
    if fp_pow_s(w, e1) == fp_pow_s(w, e2) {
        let d = (e2 - e1) as nat;
        let c = (4096 - e2) as nat;
        // multiply both powers by w^(4096 - e2)
        lemma_fp_pow_product(w, e1, c);
        lemma_fp_pow_product(w, e2, c);
        assert(fp_pow_s(w, e1 + c) == fp_pow_s(w, (4096 - d) as nat));
        assert(fp_pow_s(w, e2 + c) == fp_pow_s(w, 4096));
        assert(fp_pow_s(w, (4096 - d) as nat) == 1);
        // then w^d * w^(4096 - d) == w^4096 == 1 pins w^d to one
        lemma_fp_pow_product(w, d, (4096 - d) as nat);
        assert(fp_mul_s(fp_pow_s(w, d), 1) == 1);
        lemma_mod_bound(pow(w as int, d), m);
        lemma_small_mod(fp_pow_s(w, d), fp_modulus());
        assert(fp_mul_s(fp_pow_s(w, d), 1) == fp_pow_s(w, d));
        assert(fp_pow_s(w, d) == 1);
        // the gcd of d and 4096 is a power of two below 4096, so it
        // divides 2048, forcing w^2048 == 1
        lemma_fp_pow_gcd(w, d, 4096);
        lemma_gcd_divides(d, 4096);
        let g = gcd_nat(d, 4096);
        let kd = choose|k: nat| d == #[trigger] (k * g);
        assert(g <= d) by (nonlinear_arith)
            requires
                d == kd * g,
                d > 0,
                g > 0,
        ;
        assert(pow2(12) == 4096 && pow2(11) == 2048) by {
            vstd::arithmetic::power2::lemma2_to64();
        }
        lemma_divisor_of_pow2(g, 12);
        let j = choose|j: nat| j <= 12 && g == #[trigger] pow2(j);
        if j == 12 {
            assert(g == 4096);
        }
        assert(j <= 11);
        lemma_pow2_adds((11 - j) as nat, j);
        assert(pow2(11) == pow2((11 - j) as nat) * pow2(j));
        lemma_fp_pow_multiple(w, g, pow2((11 - j) as nat));
        assert(fp_pow_s(w, 2048) == 1);
    }
}

} // verus!
