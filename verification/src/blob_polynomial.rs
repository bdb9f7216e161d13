//! The blob polynomial: 4096 scalar-field values read as the evaluations
//! `f(domain[i])` of a polynomial of degree below 4096, with the in-circuit
//! commitment over its limb representation and the barycentric evaluation
//! at an arbitrary challenge point.

use vstd::prelude::*;

verus! {

use vstd::arithmetic::power2::pow2;
use vstd::arithmetic::div_mod::lemma_small_mod;
use vstd::arithmetic::div_mod::lemma_mod_self_0;
use vstd::arithmetic::div_mod::lemma_mod_add_multiples_vanish;
use vstd::arithmetic::mul::lemma_mul_by_zero_is_zero;
use vstd::arithmetic::div_mod::lemma_fundamental_div_mod;
use vstd::arithmetic::div_mod::lemma_fundamental_div_mod_converse;
use vstd::arithmetic::div_mod::lemma_multiply_divide_lt;
use vstd::arithmetic::div_mod::lemma_div_denominator;
use vstd::arithmetic::div_mod::lemma_div_basics;
use vstd::arithmetic::power2::lemma_pow2_adds;
use vstd::arithmetic::power2::lemma_pow2_pos;
use crate::limbs::lemma_limbs_val_extract;
use crate::field::Fp;
use crate::field::FP_LIMBS;
use crate::field::fp_modulus;
use crate::field::fp_add_s;
use crate::field::fp_sub_s;
use crate::field::fp_mul_s;
use crate::field::fp_div_s;
use crate::field::fp_pow_s;
use crate::field::check_canonical;
use crate::domain::Domain;
use crate::hashing::absorb_digest;
use crate::hashing::absorb_words;

/// Number of evaluation points of a blob polynomial.
pub const BLOB_WIDTH: usize = 4096;

/// log2 of the blob width.
pub const BLOB_WIDTH_BITS: usize = 12;

/// Limb `j` of the canonical eight-limb encoding of a field value, widened
/// to a native word.
pub open spec fn fp_word(v: nat, j: int) -> u64 {
    (((v / pow2((32 * j) as nat)) % 0x1_0000_0000) as u64)
}

/// The ordered word sequence a commitment absorbs: the eight limbs of each
/// value in turn, least significant limb first.
pub open spec fn commit_words(vals: Seq<nat>) -> Seq<u64> {
    Seq::new(vals.len() * 8, |t: int| fp_word(vals[t / 8], t % 8))
}

/// The per-index denominator guard: `x - d`, replaced by 1 where it would
/// be zero so that division is always defined.
pub open spec fn safe_denom(x: nat, d: nat) -> nat {
    if fp_sub_s(x, d) == 0 {
        1
    } else {
        fp_sub_s(x, d)
    }
}

/// Term `i` of the barycentric sum: `(d[i] * f[i]) / safe_denom(x, d[i])`.
pub open spec fn bary_term(d: Seq<nat>, f: Seq<nat>, x: nat, i: int) -> nat {
    fp_div_s(fp_mul_s(d[i], f[i]), safe_denom(x, d[i]))
}

/// The first `n` barycentric terms, accumulated in the field.
pub open spec fn bary_sum(d: Seq<nat>, f: Seq<nat>, x: nat, n: int) -> nat
    decreases n,
{
    if n <= 0 {
        0
    } else {
        fp_add_s(bary_sum(d, f, x, n - 1), bary_term(d, f, x, n - 1))
    }
}

/// The first `n` domain-lookup contributions: `f[i]` exactly where `x`
/// meets `d[i]`, zero elsewhere.
pub open spec fn lookup_sum(d: Seq<nat>, f: Seq<nat>, x: nat, n: int) -> nat
    decreases n,
{
    if n <= 0 {
        0
    } else {
        fp_add_s(
            lookup_sum(d, f, x, n - 1),
            if fp_sub_s(x, d[n - 1]) == 0 {
                f[n - 1]
            } else {
                0
            },
        )
    }
}

/// `x` meets none of the first `n` domain points.
pub open spec fn off_domain(d: Seq<nat>, x: nat, n: int) -> bool {
    forall|i: int| 0 <= i < n ==> fp_sub_s(x, #[trigger] d[i]) != 0
}

/// The barycentric prefactor `(x^4096 - 1) / 4096`.
pub open spec fn eval_factor(x: nat) -> nat {
    fp_div_s(fp_sub_s(fp_pow_s(x, 4096), 1), 4096)
}

/// The evaluation of the polynomial with values `f` over domain `d` at `x`:
/// the direct lookup where `x` is a domain point, the barycentric formula
/// elsewhere, combined branch-free as the circuit does.
pub open spec fn eval_at_spec(d: Seq<nat>, f: Seq<nat>, x: nat) -> nat {
    fp_add_s(
        lookup_sum(d, f, x, BLOB_WIDTH as int),
        if off_domain(d, x, BLOB_WIDTH as int) {
            fp_mul_s(bary_sum(d, f, x, BLOB_WIDTH as int), eval_factor(x))
        } else {
            0
        },
    )
}

/// An evaluation-form polynomial: exactly 4096 scalar-field values,
/// `entries[i]` standing for `f(domain[i])`.
pub struct BlobPolynomial {
    pub entries: Vec<Fp>,
}

impl BlobPolynomial {
    /// The polynomial as a sequence of field values.
    pub open spec fn values(&self) -> Seq<nat> {
        self.entries@.map(|i: int, e: Fp| e@)
    }

    /// Well-formedness: exactly 4096 canonical entries.
    pub open spec fn wf(&self) -> bool {
        &&& self.entries@.len() == BLOB_WIDTH
        &&& forall|i: int| 0 <= i < BLOB_WIDTH ==> (#[trigger] self.entries@[i]).wf()
    }

    /// Take ownership of 4096 field values as a polynomial; refused when
    /// the count is wrong or an entry is not canonical.
    #[verifier::loop_isolation(false)]
    pub fn new(entries: Vec<Fp>) -> (r: Option<BlobPolynomial>)
        ensures
            r is Some <==> entries@.len() == BLOB_WIDTH && (forall|i: int|
                0 <= i < entries@.len() ==> (#[trigger] entries@[i]).wf()),
            r matches Some(b) ==> b.wf() && b.entries@ == entries@,
    {
        if entries.len() != BLOB_WIDTH {
            return None;
        }
        let mut i: usize = 0;
        while i < BLOB_WIDTH
            invariant
                0 <= i <= BLOB_WIDTH,
                forall|t: int| 0 <= t < i ==> (#[trigger] entries@[t]).wf(),
            decreases BLOB_WIDTH - i,
        {
            if !check_canonical(&entries[i]) {
                return None;
            }
            i = i + 1;
        }
        Some(BlobPolynomial { entries })
    }

    /// Read-only access to the values, index `i` standing for `domain[i]`.
    pub fn iter(&self) -> (r: &Vec<Fp>)
        ensures
            r == &self.entries,
    {
        &self.entries
    }

    /// Commit to the polynomial: flatten every entry's limb encoding into
    /// one word sequence and absorb it through the hash, producing one
    /// fixed-size digest bound to all 4096 values.
    #[verifier::loop_isolation(false)]
    pub fn commit(&self) -> (digest: Vec<u64>)
        requires
            self.wf(),
        ensures
            digest@ == absorb_digest(commit_words(self.values())),
            digest@.len() == 4,
    {
        let ghost target = commit_words(self.values());
        let mut input: Vec<u64> = Vec::new();
        let mut t: usize = 0;
        while t < BLOB_WIDTH * FP_LIMBS
            invariant
                0 <= t <= BLOB_WIDTH * FP_LIMBS,
                input@.len() == t,
                forall|s: int| 0 <= s < t ==> input@[s] == target[s],
            decreases BLOB_WIDTH * FP_LIMBS - t,
        {
            let i = t / FP_LIMBS;
            let j = t % FP_LIMBS;
            proof {
                assert(i < BLOB_WIDTH) by (nonlinear_arith)
                    requires
                        t < BLOB_WIDTH * FP_LIMBS,
                        i == t / FP_LIMBS,
                        FP_LIMBS == 8,
                        BLOB_WIDTH == 4096,
                ;
                assert(j < FP_LIMBS);
                lemma_limbs_val_extract(self.entries@[i as int].limbs@, j as int);
                assert(self.values()[i as int] == self.entries@[i as int]@);
                assert(target[t as int] == fp_word(self.values()[t as int / 8], t as int % 8));
                assert(t as int / 8 == i as int && t as int % 8 == j as int);
            }
            input.push(self.entries[i].limbs[j] as u64);
            t = t + 1;
        }
        proof {
            assert(input@ =~= target);
        }
        absorb_words(&input)
    }

    /// Evaluate the polynomial at `x` barycentrically, recovering the
    /// stored value directly where `x` is a domain point.
    #[verifier::loop_isolation(false)]
    pub fn eval_at(&self, domain: &Domain, x: &Fp) -> (r: Fp)
        requires
            self.wf(),
            domain.wf(),
            x.wf(),
        ensures
            r.wf(),
            r@ == eval_at_spec(domain.values(), self.values(), x@),
    {
        let ghost dv = domain.values();
        let ghost fv = self.values();
        let one = Fp::one();
        let zero = Fp::zero();
        let mut result = Fp::zero();
        let mut not_on_domain = true;
        let mut barycentric = Fp::zero();
        let mut i: usize = 0;
        while i < BLOB_WIDTH
            invariant
                0 <= i <= BLOB_WIDTH,
                result.wf(),
                barycentric.wf(),
                result@ == lookup_sum(dv, fv, x@, i as int),
                barycentric@ == bary_sum(dv, fv, x@, i as int),
                not_on_domain <==> off_domain(dv, x@, i as int),
            decreases BLOB_WIDTH - i,
        {
            let d_i = domain.element(i);
            let f_i = &self.entries[i];
            proof {
                assert(dv[i as int] == d_i@);
                assert(fv[i as int] == f_i@);
            }
            let nominator_i = d_i.mul(f_i);
            let denominator_i = x.sub(d_i);
            let is_zero_denominator_i = denominator_i.is_zero();
            let safe_denominator_i = Fp::select(is_zero_denominator_i, &one, &denominator_i);
            not_on_domain = not_on_domain && !is_zero_denominator_i;
            let select_blob_i = Fp::select(is_zero_denominator_i, f_i, &zero);
            result = result.add(&select_blob_i);
            proof {
                assert(safe_denominator_i@ == safe_denom(x@, dv[i as int]));
                assert(safe_denominator_i@ != 0);
            }
            let term_i = nominator_i.divide(&safe_denominator_i);
            barycentric = barycentric.add(&term_i);
            i = i + 1;
            proof {
                assert(term_i@ == bary_term(dv, fv, x@, i as int - 1));
                assert(bary_sum(dv, fv, x@, i as int) == fp_add_s(
                    bary_sum(dv, fv, x@, i as int - 1),
                    bary_term(dv, fv, x@, i as int - 1),
                ));
                assert(lookup_sum(dv, fv, x@, i as int) == fp_add_s(
                    lookup_sum(dv, fv, x@, i as int - 1),
                    if fp_sub_s(x@, dv[i as int - 1]) == 0 {
                        fv[i as int - 1]
                    } else {
                        0
                    },
                ));
            }
        }
        let cp_to_the_width = x.pow_to_const(4096);
        let cp_to_the_width_minus_one = cp_to_the_width.sub(&one);
        let width = Fp::from_word(4096);
        let factor = cp_to_the_width_minus_one.divide(&width);
        let barycentric_evaluation = barycentric.mul(&factor);
        let select_evaluation = Fp::select(not_on_domain, &barycentric_evaluation, &zero);
        proof {
            assert(factor@ == eval_factor(x@));
        }
        result.add(&select_evaluation)
    }
}

/// Two numbers below 2^(32k) with the same k low base-2^32 digits are the
/// same number.
proof fn lemma_digits_determine(a: nat, b: nat, k: nat)
    requires
        a < pow2(32 * k),
        b < pow2(32 * k),
        forall|j: nat|
            j < k ==> (a / pow2(32 * j)) % 0x1_0000_0000 == (b / #[trigger] pow2(32 * j))
                % 0x1_0000_0000,
    ensures
        a == b,
    decreases k,
{
    if k == 0 {
        assert(pow2(0) == 1) by {
            vstd::arithmetic::power2::lemma2_to64();
        }
    } else {
        let w: int = 0x1_0000_0000;
        assert(pow2(0) == 1 && pow2(32) == 0x1_0000_0000) by {
            vstd::arithmetic::power2::lemma2_to64();
        }
        lemma_div_basics(a as int);
        lemma_div_basics(b as int);
        assert(a / pow2(0) == a && b / pow2(0) == b);
        assert((a / pow2(32 * 0)) % 0x1_0000_0000 == (b / pow2(32 * 0)) % 0x1_0000_0000);
        assert(a % 0x1_0000_0000 == b % 0x1_0000_0000);
        let ah = a / 0x1_0000_0000nat;
        let bh = b / 0x1_0000_0000nat;
        lemma_pow2_adds(32, 32 * ((k - 1) as nat));
        assert(32 * k == 32 + 32 * ((k - 1) as nat));
        lemma_pow2_pos(32 * ((k - 1) as nat));
        lemma_multiply_divide_lt(a as int, w, pow2(32 * ((k - 1) as nat)) as int);
        lemma_multiply_divide_lt(b as int, w, pow2(32 * ((k - 1) as nat)) as int);
        assert forall|j: nat|
            j < ((k - 1) as nat) implies (ah / pow2(32 * j)) % 0x1_0000_0000 == (bh / #[trigger] pow2(
            32 * j,
        )) % 0x1_0000_0000 by {
            lemma_pow2_pos(32 * j);
            lemma_div_denominator(a as int, w, pow2(32 * j) as int);
            lemma_div_denominator(b as int, w, pow2(32 * j) as int);
            lemma_pow2_adds(32, 32 * j);
            assert(32 * (j + 1) == 32 + 32 * j);
            assert(a / pow2(32 * (j + 1) as nat) == ah / pow2(32 * j));
            assert(b / pow2(32 * (j + 1) as nat) == bh / pow2(32 * j));
            assert((a / pow2(32 * ((j + 1) as nat))) % 0x1_0000_0000 == (b / pow2(
                32 * ((j + 1) as nat),
            )) % 0x1_0000_0000);
        }
        lemma_digits_determine(ah, bh, (k - 1) as nat);
        lemma_fundamental_div_mod(a as int, w);
        lemma_fundamental_div_mod(b as int, w);
    }
}

/// The absorbed word sequence determines every value: commitments to
/// blobs that differ in any single coefficient absorb different words.
/// That the digests then differ rests on the hash's collision resistance.
pub proof fn lemma_commit_words_injective(v1: Seq<nat>, v2: Seq<nat>)
    requires
        v1.len() == v2.len(),
        forall|i: int| 0 <= i < v1.len() ==> #[trigger] v1[i] < fp_modulus(),
        forall|i: int| 0 <= i < v2.len() ==> #[trigger] v2[i] < fp_modulus(),
        commit_words(v1) == commit_words(v2),
    ensures
        v1 == v2,
{
    assert forall|i: int| 0 <= i < v1.len() implies v1[i] == v2[i] by {
        crate::field::lemma_fp_modulus_bound();
        assert forall|j: nat|
            j < 8 implies (v1[i] / pow2(32 * j)) % 0x1_0000_0000 == (v2[i] / #[trigger] pow2(
            32 * j,
        )) % 0x1_0000_0000 by {
            let t: int = 8 * i + j;
            assert(0 <= t < 8 * v1.len()) by (nonlinear_arith)
                requires
                    0 <= i < v1.len(),
                    0 <= j < 8,
                    t == 8 * i + j,
            ;
            assert(commit_words(v1)[t] == commit_words(v2)[t]);
            lemma_fundamental_div_mod_converse(t, 8, i, j as int);
            assert(t / 8 == i && t % 8 == j as int);
            assert(commit_words(v1)[t] == fp_word(v1[t / 8], t % 8));
            assert(commit_words(v2)[t] == fp_word(v2[t / 8], t % 8));
            assert(fp_word(v1[i], j as int) == fp_word(v2[i], j as int));
            vstd::arithmetic::div_mod::lemma_mod_bound(
                (v1[i] / pow2(32 * j)) as int,
                0x1_0000_0000,
            );
            vstd::arithmetic::div_mod::lemma_mod_bound(
                (v2[i] / pow2(32 * j)) as int,
                0x1_0000_0000,
            );
        }
        lemma_digits_determine(v1[i], v2[i], 8);
    }
    assert(v1 =~= v2);
}

/// In the field, `x - d == 0` exactly when `x == d`, for canonical values.
pub proof fn lemma_fp_sub_zero_iff(a: nat, b: nat)
    requires
        a < fp_modulus(),
        b < fp_modulus(),
    ensures
        fp_sub_s(a, b) == 0 <==> a == b,
{
    let m = fp_modulus() as int;
    let v: int = a + fp_modulus() - b;
    if a == b {
        assert(v == m);
        lemma_mod_self_0(m);
    } else if a > b {
        let t: int = a - b;
        assert(v == m + t);
        lemma_mod_add_multiples_vanish(t, m);
        lemma_small_mod((a - b) as nat, fp_modulus());
        assert(v % m == t);
    } else {
        assert(0 < v < m);
        lemma_small_mod(v as nat, fp_modulus());
    }
}

/// No matching index below `n` means the lookup accumulator stays zero.
proof fn lemma_lookup_sum_zero(d: Seq<nat>, f: Seq<nat>, x: nat, n: int)
    requires
        forall|i: int| 0 <= i < n ==> fp_sub_s(x, #[trigger] d[i]) != 0,
    ensures
        lookup_sum(d, f, x, n) == 0,
    decreases n,
{
    if n > 0 {
        lemma_lookup_sum_zero(d, f, x, n - 1);
        lemma_small_mod(0, fp_modulus());
    }
}

/// With exactly one matching index below `n`, the lookup accumulator ends
/// at that entry's value.
proof fn lemma_lookup_sum_single(d: Seq<nat>, f: Seq<nat>, x: nat, j: int, n: int)
    requires
        0 <= j < n,
        fp_sub_s(x, d[j]) == 0,
        forall|i: int| 0 <= i < n && i != j ==> fp_sub_s(x, #[trigger] d[i]) != 0,
        f[j] < fp_modulus(),
    ensures
        lookup_sum(d, f, x, n) == f[j],
    decreases n,
{
    if n - 1 == j {
        lemma_lookup_sum_zero(d, f, x, j);
        lemma_small_mod(f[j], fp_modulus());
    } else {
        lemma_lookup_sum_single(d, f, x, j, n - 1);
        lemma_small_mod(f[j], fp_modulus());
    }
}

/// Evaluating at domain point `j` returns the stored value `f[j]` exactly:
/// the domain's distinctness makes the lookup unambiguous, and the
/// barycentric branch is discarded.
pub proof fn lemma_eval_at_domain_point(d: Seq<nat>, f: Seq<nat>, j: int)
    requires
        d.len() == BLOB_WIDTH,
        f.len() == BLOB_WIDTH,
        0 <= j < BLOB_WIDTH,
        forall|i: int| 0 <= i < BLOB_WIDTH ==> #[trigger] d[i] < fp_modulus(),
        forall|i: int| 0 <= i < BLOB_WIDTH ==> #[trigger] f[i] < fp_modulus(),
        forall|i1: int, i2: int| 0 <= i1 < i2 < BLOB_WIDTH ==> d[i1] != d[i2],
    ensures
        eval_at_spec(d, f, d[j]) == f[j],
{
    let x = d[j];
    lemma_fp_sub_zero_iff(x, d[j]);
    assert(fp_sub_s(x, d[j]) == 0);
    assert forall|i: int| 0 <= i < BLOB_WIDTH && i != j implies fp_sub_s(x, #[trigger] d[i])
        != 0 by {
        lemma_fp_sub_zero_iff(x, d[i]);
        if i < j {
            assert(d[i] != d[j]);
        } else {
            assert(d[j] != d[i]);
        }
    }
    assert(!off_domain(d, x, BLOB_WIDTH as int));
    lemma_lookup_sum_single(d, f, x, j, BLOB_WIDTH as int);
    lemma_small_mod(f[j], fp_modulus());
    assert(eval_at_spec(d, f, x) == fp_add_s(f[j], 0));
}

/// For every index, evaluating the polynomial at that domain point yields
/// the stored value exactly: `eval_at(domain[j]) == f[j]`.
pub proof fn lemma_eval_at_reads_blob(d: &Domain, b: &BlobPolynomial, j: int)
    requires
        d.wf(),
        b.wf(),
        0 <= j < BLOB_WIDTH,
    ensures
        eval_at_spec(d.values(), b.values(), d.values()[j]) == b.values()[j],
{
    let dv = d.values();
    let fv = b.values();
    assert forall|i: int| 0 <= i < BLOB_WIDTH implies #[trigger] dv[i] < fp_modulus() by {
        assert(dv[i] == d.elements@[i]@);
        assert(d.elements@[i].wf());
    }
    assert forall|i: int| 0 <= i < BLOB_WIDTH implies #[trigger] fv[i] < fp_modulus() by {
        assert(fv[i] == b.entries@[i]@);
        assert(b.entries@[i].wf());
    }
    assert forall|i1: int, i2: int| 0 <= i1 < i2 < BLOB_WIDTH implies dv[i1] != dv[i2] by {
        assert(dv[i1] == d.elements@[i1]@ && dv[i2] == d.elements@[i2]@);
    }
    lemma_eval_at_domain_point(dv, fv, j);
}

/// All barycentric terms of an all-zero polynomial vanish, as do all
/// lookup contributions.
proof fn lemma_sums_zero_blob(d: Seq<nat>, f: Seq<nat>, x: nat, n: int)
    requires
        forall|i: int| 0 <= i < n ==> #[trigger] f[i] == 0,
    ensures
        bary_sum(d, f, x, n) == 0,
        lookup_sum(d, f, x, n) == 0,
    decreases n,
{
    if n > 0 {
        lemma_sums_zero_blob(d, f, x, n - 1);
        lemma_small_mod(0, fp_modulus());
        let i = n - 1;
        lemma_mul_by_zero_is_zero(d[i] as int);
        assert(fp_mul_s(d[i], f[i]) == 0);
        lemma_mul_by_zero_is_zero(crate::field::fp_inv_s(safe_denom(x, d[i])) as int);
        assert(bary_term(d, f, x, i) == 0);
    }
}

/// A polynomial whose 4096 values are all zero evaluates to zero at every
/// challenge, on or off the domain.
pub proof fn lemma_eval_zero_blob(d: Seq<nat>, f: Seq<nat>, x: nat)
    requires
        f.len() == BLOB_WIDTH,
        forall|i: int| 0 <= i < BLOB_WIDTH ==> #[trigger] f[i] == 0,
    ensures
        eval_at_spec(d, f, x) == 0,
{
    lemma_sums_zero_blob(d, f, x, BLOB_WIDTH as int);
    lemma_small_mod(0, fp_modulus());
    lemma_mul_by_zero_is_zero(eval_factor(x) as int);
    assert(fp_mul_s(0, eval_factor(x)) == 0);
    assert(eval_at_spec(d, f, x) == fp_add_s(0, 0));
}

} // verus!
