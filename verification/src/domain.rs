//! The evaluation domain: the 4096th roots of unity of the scalar field in
//! bit-reversal-permuted order, derived from the field's multiplicative
//! generator 7.  The two facts the evaluator rests on — all entries pairwise
//! distinct, every entry a 4096th root of unity — are checked while the
//! table is built and carried in the `Domain` well-formedness predicate.

use vstd::prelude::*;

verus! {

use vstd::arithmetic::power::pow;
use vstd::arithmetic::power::lemma1_pow;
use vstd::arithmetic::power::lemma_pow_multiplies;
use vstd::arithmetic::power::lemma_pow_mod_noop;
use vstd::arithmetic::power2::pow2;
use vstd::arithmetic::div_mod::lemma_small_mod;
use vstd::arithmetic::div_mod::lemma_mod_bound;
use vstd::arithmetic::div_mod::lemma_fundamental_div_mod_converse;
use vstd::arithmetic::div_mod::lemma_fundamental_div_mod;
use vstd::arithmetic::div_mod::lemma_multiply_divide_lt;
use crate::order::lemma_root_powers_distinct;
use crate::limbs::limbs_val;
use crate::limbs::lemma_limbs_minimal_len;
use crate::limbs::pad_limbs;
use crate::bigint::big_modpow;
use crate::field::Fp;
use crate::field::FP_LIMBS;
use crate::field::fp_modulus;
use crate::field::fp_pow_s;
use crate::field::modulus_limbs;
use crate::blob_polynomial::BLOB_WIDTH;

/// Reversal of the low `k` bits of `i`.
pub open spec fn bit_rev(i: nat, k: nat) -> nat
    decreases k,
{
    if k == 0 {
        0
    } else {
        (i % 2) * pow2((k - 1) as nat) + bit_rev(i / 2, (k - 1) as nat)
    }
}

/// The exponent (r - 1) / 4096 that turns the generator 7 into a 4096th
/// root of unity.
pub open spec fn root_exponent() -> nat {
    ((fp_modulus() - 1) / 4096) as nat
}

/// The canonical primitive 4096th root of unity: 7 ^ ((r - 1) / 4096) mod r.
pub open spec fn root_of_unity() -> nat {
    fp_pow_s(7, root_exponent())
}

/// What the domain builder checks at run time: the root's 4096th power is
/// one and its 2048th power is not, so its multiplicative order is exactly
/// 4096.  Distinctness of all 4096 permuted powers is proved from these
/// two facts.
pub open spec fn domain_ok() -> bool {
    &&& fp_pow_s(root_of_unity(), 4096) == 1
    &&& fp_pow_s(root_of_unity(), 2048) != 1
}

/// The bit-reversal-permuted sequence of 4096th roots of unity.
pub struct Domain {
    pub elements: Vec<Fp>,
}

impl Domain {
    /// The domain as a sequence of field values.
    pub open spec fn values(&self) -> Seq<nat> {
        self.elements@.map(|i: int, e: Fp| e@)
    }

    /// Well-formedness: 4096 canonical entries, pairwise distinct, each a
    /// 4096th root of unity.
    pub open spec fn wf(&self) -> bool {
        &&& self.elements@.len() == BLOB_WIDTH
        &&& forall|i: int| 0 <= i < BLOB_WIDTH ==> (#[trigger] self.elements@[i]).wf()
        &&& forall|i: int, j: int|
            0 <= i < j < BLOB_WIDTH ==> self.elements@[i]@ != self.elements@[j]@
        &&& forall|i: int|
            0 <= i < BLOB_WIDTH ==> fp_pow_s((#[trigger] self.elements@[i])@, 4096) == 1
    }

    /// Entry `i` of the domain.
    pub fn element(&self, i: usize) -> (r: &Fp)
        requires
            self.wf(),
            i < BLOB_WIDTH,
        ensures
            r == self.elements@[i as int],
            r.wf(),
    {
        &self.elements[i]
    }

    /// Build the domain.  The builder checks that the root's 4096th power
    /// is one and its 2048th power is not — so the checks pass exactly
    /// when `domain_ok()` holds, a fixed arithmetic fact about the field
    /// constants — and the distinctness of all entries follows by the
    /// multiplicative-order argument.
    #[verifier::loop_isolation(false)]
    pub fn new() -> (r: Option<Domain>)
        ensures
            r is Some <==> domain_ok(),
            r matches Some(d) ==> d.wf() && forall|i: int|
                0 <= i < BLOB_WIDTH ==> (#[trigger] d.elements@[i])@ == fp_pow_s(
                    root_of_unity(),
                    bit_rev(i as nat, 12),
                ),
    {
        let m = modulus_limbs();
        let texp = root_exponent_limbs();
        let g = generator_limbs();
        let mut wl = big_modpow(&g, &texp, &m);
        proof {
            lemma_mod_bound(pow(7, root_exponent()), fp_modulus() as int);
            crate::field::lemma_fp_modulus_bound();
            lemma_limbs_minimal_len(wl@, 8);
        }
        pad_limbs(&mut wl, FP_LIMBS);
        let w = Fp { limbs: wl };
        proof {
            assert(w@ == root_of_unity());
        }
        let w4096 = w.pow_to_const(4096);
        let one = Fp::one();
        if !w4096.equals(&one) {
            return None;
        }
        let w2048 = w.pow_to_const(2048);
        if w2048.equals(&one) {
            return None;
        }
        let mut elems: Vec<Fp> = Vec::new();
        let mut i: usize = 0;
        while i < BLOB_WIDTH
            invariant
                elems@.len() == i,
                0 <= i <= BLOB_WIDTH,
                forall|t: int|
                    0 <= t < i ==> (#[trigger] elems@[t]).wf() && elems@[t]@ == fp_pow_s(
                        root_of_unity(),
                        bit_rev(t as nat, 12),
                    ) && fp_pow_s(elems@[t]@, 4096) == 1,
            decreases BLOB_WIDTH - i,
        {
            let b = bit_rev_exec(i as u64, 12);
            let e = w.pow_to_const(b);
            proof {
                lemma_root_power(w@, bit_rev(i as nat, 12));
            }
            elems.push(e);
            i = i + 1;
        }
        proof {
            vstd::arithmetic::power2::lemma2_to64();
            assert forall|i: int, j: int|
                0 <= i < j < BLOB_WIDTH implies elems@[i]@ != elems@[j]@ by {
                let r1 = bit_rev(i as nat, 12);
                let r2 = bit_rev(j as nat, 12);
                lemma_bit_rev_bound(i as nat, 12);
                lemma_bit_rev_bound(j as nat, 12);
                lemma_bit_rev_injective(i as nat, j as nat, 12);
                if r1 < r2 {
                    lemma_root_powers_distinct(w@, r1, r2);
                } else {
                    lemma_root_powers_distinct(w@, r2, r1);
                }
            }
        }
        Some(Domain { elements: elems })
    }
}

/// The evaluation domain consists of 4096 pairwise-distinct field elements,
/// each of which raised to the 4096th power gives one.
pub proof fn lemma_domain_distinct_roots(d: &Domain)
    requires
        d.wf(),
    ensures
        forall|i: int, j: int|
            0 <= i < BLOB_WIDTH && 0 <= j < BLOB_WIDTH && i != j ==> d.values()[i] != d.values()[j],
        forall|i: int| 0 <= i < BLOB_WIDTH ==> fp_pow_s(#[trigger] d.values()[i], 4096) == 1,
{
    assert forall|i: int, j: int|
        0 <= i < BLOB_WIDTH && 0 <= j < BLOB_WIDTH && i != j implies d.values()[i] != d.values()[j] by {
        if i < j {
            assert(d.elements@[i]@ != d.elements@[j]@);
        } else {
            assert(d.elements@[j]@ != d.elements@[i]@);
        }
    }
    assert forall|i: int| 0 <= i < BLOB_WIDTH implies fp_pow_s(#[trigger] d.values()[i], 4096) == 1 by {
        assert(d.values()[i] == d.elements@[i]@);
    }
}

/// Any power of a 4096th root of unity is again a 4096th root of unity.
proof fn lemma_root_power(w: nat, k: nat)
    requires
        fp_pow_s(w, 4096) == 1,
    ensures
        fp_pow_s(fp_pow_s(w, k), 4096) == 1,
{
    let m = fp_modulus() as int;
    let wi = w as int;
    assert(m > 1);
    lemma_pow_mod_noop(pow(wi, k), 4096, m);
    assert(pow(pow(wi, k) % m, 4096) % m == pow(pow(wi, k), 4096) % m);
    lemma_pow_multiplies(wi, k, 4096);
    assert(pow(pow(wi, k), 4096) == pow(wi, k * 4096));
    lemma_pow_multiplies(wi, 4096, k);
    assert(pow(pow(wi, 4096), k) == pow(wi, 4096 * k));
    assert(k * 4096 == 4096 * k) by (nonlinear_arith);
    lemma_pow_mod_noop(pow(wi, 4096), k, m);
    assert(pow(pow(wi, 4096) % m, k) % m == pow(pow(wi, 4096), k) % m);
    assert(pow(wi, 4096) % m == 1);
    lemma1_pow(k);
    assert(pow(1, k) == 1);
    lemma_small_mod(1, fp_modulus());
}

/// The multiplicative generator 7 as a limb vector.
fn generator_limbs() -> (r: Vec<u32>)
    ensures
        limbs_val(r@) == 7,
{
    let mut v: Vec<u32> = Vec::new();
    v.push(7);
    proof {
        assert(limbs_val(Seq::<u32>::empty()) == 0);
        assert(v@.drop_first() =~= Seq::<u32>::empty());
    }
    v
}

/// The limb form of (r - 1) / 4096.
fn root_exponent_limbs() -> (r: Vec<u32>)
    ensures
        limbs_val(r@) == root_exponent(),
{
    let mut v: Vec<u32> = Vec::new();
    v.push(0xfff00000);
    v.push(0xbfefffff);
    v.push(0x402fffe5);
    v.push(0x80553bda);
    v.push(0x80809a1d);
    v.push(0xd483339d);
    v.push(0x753299d7);
    v.push(0x00073eda);
    proof {
        reveal_with_fuel(limbs_val, 10);
        assert(v@ =~= seq![
            0xfff00000u32,
            0xbfefffffu32,
            0x402fffe5u32,
            0x80553bdau32,
            0x80809a1du32,
            0xd483339du32,
            0x753299d7u32,
            0x00073edau32,
        ]);
        assert(limbs_val(v@)
            == 0x73eda753299d7d483339d80809a1d80553bda402fffe5bfeffffffff00000nat);
        assert(0x73eda753299d7d483339d80809a1d80553bda402fffe5bfeffffffff00000nat * 4096
            == fp_modulus() - 1) by (nonlinear_arith);
        lemma_fundamental_div_mod_converse(
            (fp_modulus() - 1) as int,
            4096,
            0x73eda753299d7d483339d80809a1d80553bda402fffe5bfeffffffff00000nat as int,
            0,
        );
    }
    v
}

/// Reversal of the low 12 bits, executable form.
pub fn bit_rev_exec(i: u64, k: u64) -> (r: u64)
    requires
        k <= 12,
    ensures
        r as nat == bit_rev(i as nat, k as nat),
        r < 4096,
    decreases k,
{
    if k == 0 {
        0
    } else {
        let rest = bit_rev_exec(i / 2, k - 1);
        let w = pow2_u64(k - 1);
        let high_part: u64 = if i % 2 == 1 {
            w
        } else {
            0
        };
        proof {
            lemma_bit_rev_bound(i as nat, k as nat);
            vstd::arithmetic::power2::lemma2_to64();
            if (k as nat) < 12 {
                vstd::arithmetic::power2::lemma_pow2_strictly_increases(k as nat, 12);
            }
            assert((i as nat % 2) * pow2((k - 1) as nat) == if i as nat % 2 == 1 {
                pow2((k - 1) as nat)
            } else {
                0
            });
            assert((i / 2) as nat == i as nat / 2);
            assert((i % 2) as nat == i as nat % 2);
        }
        high_part + rest
    }
}

/// Bit reversal of `k` bits stays below 2^k.
proof fn lemma_bit_rev_bound(i: nat, k: nat)
    ensures
        bit_rev(i, k) < pow2(k),
    decreases k,
{
    vstd::arithmetic::power2::lemma_pow2_pos(k);
    if k > 0 {
        lemma_bit_rev_bound(i / 2, (k - 1) as nat);
        vstd::arithmetic::power2::lemma_pow2_unfold(k);
        assert((i % 2) * pow2((k - 1) as nat) <= pow2((k - 1) as nat)) by (nonlinear_arith)
            requires
                i % 2 <= 1,
        ;
    }
}

/// Distinct indices below 2^k have distinct k-bit reversals.
proof fn lemma_bit_rev_injective(i: nat, j: nat, k: nat)
    requires
        i < pow2(k),
        j < pow2(k),
        i != j,
    ensures
        bit_rev(i, k) != bit_rev(j, k),
    decreases k,
{
    if k == 0 {
        assert(pow2(0) == 1) by {
            vstd::arithmetic::power2::lemma2_to64();
        }
    } else {
        let half = pow2((k - 1) as nat);
        vstd::arithmetic::power2::lemma_pow2_unfold(k);
        lemma_bit_rev_bound(i / 2, (k - 1) as nat);
        lemma_bit_rev_bound(j / 2, (k - 1) as nat);
        lemma_fundamental_div_mod(i as int, 2);
        lemma_fundamental_div_mod(j as int, 2);
        if i % 2 == j % 2 {
            assert(i / 2 != j / 2);
            lemma_multiply_divide_lt(i as int, 2, half as int);
            lemma_multiply_divide_lt(j as int, 2, half as int);
            lemma_bit_rev_injective(i / 2, j / 2, (k - 1) as nat);
        } else {
            if i % 2 == 1 {
                assert((i % 2) * half == half);
                assert((j % 2) * half == 0);
            } else {
                assert((i % 2) * half == 0);
                assert((j % 2) * half == half);
            }
        }
    }
}

/// 2^k for small k, executable form.
fn pow2_u64(k: u64) -> (r: u64)
    requires
        k <= 12,
    ensures
        r as nat == pow2(k as nat),
        r <= 4096,
{
    let mut r: u64 = 1;
    let mut j: u64 = 0;
    proof {
        vstd::arithmetic::power2::lemma2_to64();
    }
    while j < k
        invariant
            0 <= j <= k,
            k <= 12,
            r as nat == pow2(j as nat),
            r <= 4096,
        decreases k - j,
    {
        proof {
            vstd::arithmetic::power2::lemma_pow2_unfold((j + 1) as nat);
            vstd::arithmetic::power2::lemma2_to64();
            if ((j + 1) as nat) < 12 {
                vstd::arithmetic::power2::lemma_pow2_strictly_increases((j + 1) as nat, 12);
            }
        }
        r = r * 2;
        j = j + 1;
    }
    r
}

} // verus!
