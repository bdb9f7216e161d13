//! Elements of the BLS12-381 scalar field, held as eight canonical
//! little-endian base-2^32 limbs, with the modular operations the
//! barycentric evaluator needs: add, sub, mul, divide (via the
//! inversion exponent r - 2), fixed-exponent power, zero test and select.

use vstd::prelude::*;

verus! {

use vstd::arithmetic::power::pow;
use vstd::arithmetic::power::lemma_pow0;
use vstd::arithmetic::power::lemma_pow1;
use vstd::arithmetic::power::lemma_pow_adds;
use vstd::arithmetic::power::lemma_pow_multiplies;
use vstd::arithmetic::power::lemma_pow_mod_noop;
use vstd::arithmetic::power2::pow2;
use vstd::arithmetic::div_mod::lemma_small_mod;
use vstd::arithmetic::div_mod::lemma_mod_bound;
use vstd::arithmetic::div_mod::lemma_mul_mod_noop_left;
use vstd::arithmetic::div_mod::lemma_mul_mod_noop_right;
use vstd::arithmetic::mul::lemma_mul_is_associative;
use crate::limbs::limbs_val;
use crate::limbs::lemma_limbs_val_zero;
use crate::limbs::lemma_limbs_val_injective;
use crate::limbs::lemma_limbs_minimal_len;
use crate::limbs::pad_limbs;
use crate::limbs::limbs_eq;
use crate::limbs::copy_limbs;
use crate::bigint::pow_mod;
use crate::bigint::big_add;
use crate::bigint::big_sub;
use crate::bigint::big_mul;
use crate::bigint::big_rem;
use crate::bigint::big_modpow;

/// Number of base-2^32 limbs in a field element.
pub const FP_LIMBS: usize = 8;

/// The BLS12-381 scalar field order r.
pub open spec fn fp_modulus() -> nat {
    0x73eda753299d7d483339d80809a1d80553bda402fffe5bfeffffffff00000001nat
}

/// Reduction of an integer into the field.
pub open spec fn fp_reduce(x: int) -> nat {
    (x % (fp_modulus() as int)) as nat
}

/// Field addition.
pub open spec fn fp_add_s(a: nat, b: nat) -> nat {
    fp_reduce(a as int + b)
}

/// Field subtraction, for canonical operands.
pub open spec fn fp_sub_s(a: nat, b: nat) -> nat {
    fp_reduce(a + fp_modulus() - b)
}

/// Field multiplication.
pub open spec fn fp_mul_s(a: nat, b: nat) -> nat {
    fp_reduce(a as int * b)
}

/// Field exponentiation.
pub open spec fn fp_pow_s(a: nat, e: nat) -> nat {
    pow_mod(a, e, fp_modulus())
}

/// The multiplicative-inverse candidate `a ^ (r - 2) mod r`.
pub open spec fn fp_inv_s(a: nat) -> nat {
    fp_pow_s(a, (fp_modulus() - 2) as nat)
}

/// Field division `a * b⁻¹ mod r`.
pub open spec fn fp_div_s(a: nat, b: nat) -> nat {
    fp_mul_s(a, fp_inv_s(b))
}

/// The limb form of the field order.
pub open spec fn modulus_limb_seq() -> Seq<u32> {
    seq![
        0x00000001u32,
        0xffffffffu32,
        0xfffe5bfeu32,
        0x53bda402u32,
        0x09a1d805u32,
        0x3339d808u32,
        0x299d7d48u32,
        0x73eda753u32,
    ]
}

/// The limb form of the inversion exponent r - 2.
pub open spec fn inv_exponent_limb_seq() -> Seq<u32> {
    seq![
        0xffffffffu32,
        0xfffffffeu32,
        0xfffe5bfeu32,
        0x53bda402u32,
        0x09a1d805u32,
        0x3339d808u32,
        0x299d7d48u32,
        0x73eda753u32,
    ]
}

proof fn lemma_constant_limb_seqs()
    ensures
        limbs_val(modulus_limb_seq()) == fp_modulus(),
        limbs_val(inv_exponent_limb_seq()) == fp_modulus() - 2,
        fp_modulus() < pow2(32 * 8),
{
    reveal_with_fuel(limbs_val, 10);
    assert(limbs_val(modulus_limb_seq()) == fp_modulus());
    assert(limbs_val(inv_exponent_limb_seq())
        == 0x73eda753299d7d483339d80809a1d80553bda402fffe5bfefffffffeffffffffnat);
    lemma_fp_modulus_bound();
}

pub(crate) proof fn lemma_fp_modulus_bound()
    ensures
        fp_modulus() < pow2(256),
{
    vstd::arithmetic::power2::lemma2_to64();
    vstd::arithmetic::power2::lemma_pow2_adds(64, 64);
    vstd::arithmetic::power2::lemma_pow2_adds(128, 128);
    assert(0x1_0000_0000_0000_0000nat * 0x1_0000_0000_0000_0000nat
        == 0x1_0000_0000_0000_0000_0000_0000_0000_0000nat) by (nonlinear_arith);
    assert(pow2(128) == 0x1_0000_0000_0000_0000_0000_0000_0000_0000nat);
    assert(0x1_0000_0000_0000_0000_0000_0000_0000_0000nat
        * 0x1_0000_0000_0000_0000_0000_0000_0000_0000nat
        == 0x1_0000_0000_0000_0000_0000_0000_0000_0000_0000_0000_0000_0000_0000_0000_0000_0000nat)
        by (nonlinear_arith);
    assert(pow2(256)
        == 0x1_0000_0000_0000_0000_0000_0000_0000_0000_0000_0000_0000_0000_0000_0000_0000_0000nat);
}

/// An element of the BLS12-381 scalar field in canonical form.
pub struct Fp {
    pub limbs: Vec<u32>,
}

impl View for Fp {
    type V = nat;

    open spec fn view(&self) -> nat {
        limbs_val(self.limbs@)
    }
}

impl Fp {
    /// Canonical form: exactly eight limbs, value fully reduced.
    pub open spec fn wf(&self) -> bool {
        self.limbs@.len() == FP_LIMBS && self@ < fp_modulus()
    }

    /// The additive identity.
    pub fn zero() -> (r: Fp)
        ensures
            r.wf(),
            r@ == 0,
    {
        let mut v: Vec<u32> = Vec::new();
        pad_limbs(&mut v, FP_LIMBS);
        proof {
            lemma_limbs_val_zero(v@);
        }
        Fp { limbs: v }
    }

    /// The field element denoted by one machine word.
    pub fn from_word(x: u32) -> (r: Fp)
        ensures
            r.wf(),
            r@ == x as nat,
    {
        let mut v: Vec<u32> = Vec::new();
        v.push(x);
        proof {
            assert(limbs_val(Seq::<u32>::empty()) == 0);
            assert(v@.drop_first() =~= Seq::<u32>::empty());
            assert(limbs_val(v@) == x as nat);
        }
        pad_limbs(&mut v, FP_LIMBS);
        proof {
            assert((x as nat) < 0x1_0000_0000);
            assert(0x1_0000_0000 < fp_modulus());
        }
        Fp { limbs: v }
    }

    /// The multiplicative identity.
    pub fn one() -> (r: Fp)
        ensures
            r.wf(),
            r@ == 1,
    {
        Fp::from_word(1)
    }

    /// Field addition.
    pub fn add(&self, other: &Fp) -> (r: Fp)
        requires
            self.wf(),
            other.wf(),
        ensures
            r.wf(),
            r@ == fp_add_s(self@, other@),
    {
        let s = big_add(&self.limbs, &other.limbs);
        reduce_limbs(&s)
    }

    /// Field subtraction, computed as `a + r - b` before reduction.
    pub fn sub(&self, other: &Fp) -> (r: Fp)
        requires
            self.wf(),
            other.wf(),
        ensures
            r.wf(),
            r@ == fp_sub_s(self@, other@),
    {
        let m = modulus_limbs();
        let t1 = big_add(&self.limbs, &m);
        let t2 = big_sub(&t1, &other.limbs);
        reduce_limbs(&t2)
    }

    /// Field multiplication.
    pub fn mul(&self, other: &Fp) -> (r: Fp)
        requires
            self.wf(),
            other.wf(),
        ensures
            r.wf(),
            r@ == fp_mul_s(self@, other@),
    {
        let p = big_mul(&self.limbs, &other.limbs);
        reduce_limbs(&p)
    }

    /// Field division through the inversion exponent; the divisor must not
    /// be the provably-zero element.
    pub fn divide(&self, other: &Fp) -> (r: Fp)
        requires
            self.wf(),
            other.wf(),
            other@ != 0,
        ensures
            r.wf(),
            r@ == fp_div_s(self@, other@),
    {
        let m = modulus_limbs();
        let e = inv_exponent_limbs();
        let mut iv = big_modpow(&other.limbs, &e, &m);
        proof {
            lemma_constant_limb_seqs();
            lemma_mod_bound(pow(other@ as int, (fp_modulus() - 2) as nat), fp_modulus() as int);
            lemma_limbs_minimal_len(iv@, 8);
        }
        pad_limbs(&mut iv, FP_LIMBS);
        let inv_fp = Fp { limbs: iv };
        self.mul(&inv_fp)
    }

    /// True exactly on the zero element.
    pub fn is_zero(&self) -> (r: bool)
        ensures
            r <==> self@ == 0,
    {
        let mut i: usize = 0;
        let mut all_zero = true;
        while i < self.limbs.len()
            invariant
                0 <= i <= self.limbs@.len(),
                all_zero <==> (forall|j: int| 0 <= j < i ==> self.limbs@[j] == 0),
            decreases self.limbs@.len() - i,
        {
            if self.limbs[i] != 0 {
                all_zero = false;
            }
            i = i + 1;
        }
        proof {
            lemma_limbs_val_zero(self.limbs@);
        }
        all_zero
    }

    /// Value equality of two canonical elements.
    pub fn equals(&self, other: &Fp) -> (r: bool)
        requires
            self.wf(),
            other.wf(),
        ensures
            r <==> self@ == other@,
    {
        let r = limbs_eq(&self.limbs, &other.limbs);
        proof {
            if self@ == other@ {
                lemma_limbs_val_injective(self.limbs@, other.limbs@);
            }
        }
        r
    }

    /// Branch-free choice: both arguments are already evaluated; the flag
    /// only picks which value is returned.
    pub fn select(cond: bool, a: &Fp, b: &Fp) -> (r: Fp)
        requires
            a.wf(),
            b.wf(),
        ensures
            r.wf(),
            r@ == if cond {
                a@
            } else {
                b@
            },
    {
        if cond {
            Fp { limbs: copy_limbs(&a.limbs) }
        } else {
            Fp { limbs: copy_limbs(&b.limbs) }
        }
    }

    /// Fixed-exponent power by square-and-multiply over the bits of `e`.
    pub fn pow_to_const(&self, e: u64) -> (r: Fp)
        requires
            self.wf(),
        ensures
            r.wf(),
            r@ == fp_pow_s(self@, e as nat),
    {
        let mut acc = Fp::one();
        let mut base = Fp { limbs: copy_limbs(&self.limbs) };
        let mut rem: u64 = e;
        proof {
            lemma_pow1(self@ as int);
            assert((1 * pow(self@ as int, e as nat)) % (fp_modulus() as int)
                == pow(self@ as int, e as nat) % (fp_modulus() as int));
        }
        while rem > 0
            invariant
                acc.wf(),
                base.wf(),
                self.wf(),
                (acc@ * pow(base@ as int, rem as nat)) % (fp_modulus() as int)
                    == pow(self@ as int, e as nat) % (fp_modulus() as int),
            decreases rem,
        {
            let ghost acc0 = acc@;
            let ghost base0 = base@;
            let ghost rem0 = rem as nat;
            if rem % 2 == 1 {
                acc = acc.mul(&base);
            }
            let new_base = base.mul(&base);
            base = new_base;
            rem = rem / 2;
            proof {
                lemma_pow_step(acc0, base0, rem0);
                if rem0 % 2 == 1 {
                    assert(acc@ == fp_mul_s(acc0, base0));
                } else {
                    assert(acc@ == acc0);
                }
                assert(base@ == fp_mul_s(base0, base0));
                assert(rem as nat == rem0 / 2);
            }
        }
        proof {
            lemma_pow0(base@ as int);
            assert(pow(base@ as int, 0) == 1);
            assert((acc@ as int * 1) % (fp_modulus() as int) == acc@ as int % (fp_modulus() as int));
            lemma_small_mod(acc@, fp_modulus());
        }
        acc
    }
}

/// One square-and-multiply step preserves the partial-power invariant.
proof fn lemma_pow_step(acc: nat, base: nat, rem: nat)
    ensures
        rem % 2 == 1 ==> (fp_mul_s(acc, base) * pow(fp_mul_s(base, base) as int, rem / 2)) % (
        fp_modulus() as int) == (acc * pow(base as int, rem)) % (fp_modulus() as int),
        rem % 2 == 0 ==> (acc * pow(fp_mul_s(base, base) as int, rem / 2)) % (fp_modulus() as int)
            == (acc * pow(base as int, rem)) % (fp_modulus() as int),
{
    let m = fp_modulus() as int;
    let h = rem / 2;
    let b = base as int;
    let a = acc as int;
    // pow(base^2 mod r, h) mod r == pow(base, 2h) mod r
    lemma_pow_mod_noop(b * b, h, m);
    lemma_pow1(b);
    lemma_pow_adds(b, 1, 1);
    assert(pow(b, 2) == b * b);
    lemma_pow_multiplies(b, 2, h);
    assert(pow(b * b, h) == pow(b, 2 * h));
    assert(fp_mul_s(base, base) == (b * b) % m);
    assert(pow(fp_mul_s(base, base) as int, h) % m == pow(b, 2 * h) % m);
    if rem % 2 == 0 {
        assert(rem == 2 * h);
        lemma_mul_mod_noop_right(a, pow(fp_mul_s(base, base) as int, h), m);
        lemma_mul_mod_noop_right(a, pow(b, 2 * h), m);
        assert((a * pow(fp_mul_s(base, base) as int, h)) % m == (a * pow(b, rem)) % m);
    } else {
        assert(rem == 2 * h + 1);
        let ab = (a * b) % m;
        lemma_mul_mod_noop_right(ab, pow(fp_mul_s(base, base) as int, h), m);
        lemma_mul_mod_noop_right(ab, pow(b, 2 * h), m);
        assert((ab * pow(fp_mul_s(base, base) as int, h)) % m == (ab * pow(b, 2 * h)) % m);
        lemma_mul_mod_noop_left(a * b, pow(b, 2 * h), m);
        assert((ab * pow(b, 2 * h)) % m == ((a * b) * pow(b, 2 * h)) % m);
        lemma_mul_is_associative(a, b, pow(b, 2 * h));
        lemma_pow_adds(b, 1, 2 * h);
        assert(b * pow(b, 2 * h) == pow(b, 2 * h + 1));
        assert(((a * b) * pow(b, 2 * h)) % m == (a * pow(b, rem)) % m);
        assert(fp_mul_s(acc, base) == ab);
    }
}

/// The limb form of the field order.
pub(crate) fn modulus_limbs() -> (r: Vec<u32>)
    ensures
        r@ == modulus_limb_seq(),
        limbs_val(r@) == fp_modulus(),
        r@.len() == 8,
{
    let mut v: Vec<u32> = Vec::new();
    v.push(0x00000001);
    v.push(0xffffffff);
    v.push(0xfffe5bfe);
    v.push(0x53bda402);
    v.push(0x09a1d805);
    v.push(0x3339d808);
    v.push(0x299d7d48);
    v.push(0x73eda753);
    proof {
        assert(v@ =~= modulus_limb_seq());
        lemma_constant_limb_seqs();
    }
    v
}

/// The limb form of the inversion exponent r - 2.
fn inv_exponent_limbs() -> (r: Vec<u32>)
    ensures
        limbs_val(r@) == fp_modulus() - 2,
{
    let mut v: Vec<u32> = Vec::new();
    v.push(0xffffffff);
    v.push(0xfffffffe);
    v.push(0xfffe5bfe);
    v.push(0x53bda402);
    v.push(0x09a1d805);
    v.push(0x3339d808);
    v.push(0x299d7d48);
    v.push(0x73eda753);
    proof {
        assert(v@ =~= inv_exponent_limb_seq());
        lemma_constant_limb_seqs();
    }
    v
}

/// Decide whether a value is a canonical field element: eight limbs
/// denoting a value below the field order.
pub fn check_canonical(x: &Fp) -> (r: bool)
    ensures
        r <==> x.wf(),
{
    if x.limbs.len() != FP_LIMBS {
        return false;
    }
    let m = modulus_limbs();
    let mut t = big_rem(&x.limbs, &m);
    proof {
        lemma_constant_limb_seqs();
        lemma_mod_bound(limbs_val(x.limbs@) as int, fp_modulus() as int);
        lemma_limbs_minimal_len(t@, 8);
    }
    pad_limbs(&mut t, FP_LIMBS);
    let r = limbs_eq(&t, &x.limbs);
    proof {
        if r {
            assert(limbs_val(t@) == x@);
        } else {
            if x@ < fp_modulus() {
                lemma_small_mod(x@, fp_modulus());
                lemma_limbs_val_injective(t@, x.limbs@);
            }
        }
    }
    r
}

/// Reduce an arbitrary limb vector into a canonical field element.
pub(crate) fn reduce_limbs(v: &Vec<u32>) -> (r: Fp)
    ensures
        r.wf(),
        r@ == limbs_val(v@) % fp_modulus(),
{
    let m = modulus_limbs();
    let mut t = big_rem(v, &m);
    proof {
        lemma_constant_limb_seqs();
        lemma_mod_bound(limbs_val(v@) as int, fp_modulus() as int);
        lemma_limbs_minimal_len(t@, 8);
    }
    pad_limbs(&mut t, FP_LIMBS);
    Fp { limbs: t }
}

} // verus!
