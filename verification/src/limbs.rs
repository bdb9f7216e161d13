//! Little-endian base-2^32 limb sequences and the number they denote.
//!
//! Every multi-precision value in this crate — field elements, raw
//! big-integer results, decoded hex strings — is a `Vec<u32>` of limbs,
//! least significant first.  `limbs_val` is the single interpretation
//! function all contracts are written against.

use vstd::prelude::*;

verus! {

use vstd::arithmetic::power2::pow2;
use vstd::arithmetic::power2::lemma_pow2_adds;
use vstd::arithmetic::power2::lemma_pow2_pos;
use vstd::arithmetic::div_mod::lemma_fundamental_div_mod_converse;
use vstd::arithmetic::div_mod::lemma_div_denominator;

/// The number denoted by a little-endian sequence of base-2^32 digits.
pub open spec fn limbs_val(s: Seq<u32>) -> nat
    decreases s.len(),
{
    if s.len() == 0 {
        0
    } else {
        (s[0] as nat) + 0x1_0000_0000 * limbs_val(s.drop_first())
    }
}

/// A limb sequence with no leading (most-significant) zero digit; this is
/// the normal form num's `BigUint` hands back.
pub open spec fn limbs_minimal(s: Seq<u32>) -> bool {
    s.len() == 0 || s[s.len() - 1] != 0
}

/// Appending a most-significant limb adds its weighted value.
pub proof fn lemma_limbs_val_push(s: Seq<u32>, x: u32)
    ensures
        limbs_val(s.push(x)) == limbs_val(s) + (x as nat) * pow2(32 * s.len()),
    decreases s.len(),
{
    broadcast use vstd::arithmetic::mul::lemma_mul_nonnegative;

    if s.len() == 0 {
        assert(s.push(x).len() == 1);
        assert(s.push(x)[0] == x);
        assert(s.push(x).drop_first() =~= Seq::<u32>::empty());
        assert(pow2(0) == 1) by {
            vstd::arithmetic::power2::lemma2_to64();
        }
        assert(limbs_val(Seq::<u32>::empty()) == 0);
        assert(limbs_val(s.push(x)) == x);
        assert((x as nat) * pow2(32 * s.len()) == x) by (nonlinear_arith)
            requires
                pow2(32 * s.len()) == 1,
        ;
    } else {
        let sp = s.drop_first();
        assert(s.push(x).drop_first() =~= sp.push(x));
        lemma_limbs_val_push(sp, x);
        lemma_pow2_adds(32, 32 * sp.len());
        assert(pow2(32) == 0x1_0000_0000) by {
            vstd::arithmetic::power2::lemma2_to64();
        }
        assert(32 * s.len() == 32 + 32 * sp.len());
        let b: int = 0x1_0000_0000;
        let v1 = limbs_val(sp) as int;
        let p = pow2(32 * sp.len()) as int;
        let xi = x as int;
        assert(limbs_val(s.push(x)) == s[0] + b * (v1 + xi * p));
        assert(limbs_val(s) == s[0] + b * v1);
        assert(pow2(32 * s.len()) == b * p);
        assert(limbs_val(s.push(x)) == limbs_val(s) + (x as nat) * pow2(32 * s.len())) by (nonlinear_arith)
            requires
                limbs_val(s.push(x)) == s[0] + 0x1_0000_0000 * (v1 + xi * p),
                limbs_val(s) == s[0] + 0x1_0000_0000 * v1,
                pow2(32 * s.len()) == 0x1_0000_0000 * p,
                xi == x as int,
                v1 >= 0,
                p >= 0,
        ;
    }
}

/// A sequence of n limbs denotes a number below 2^(32n).
pub proof fn lemma_limbs_val_bound(s: Seq<u32>)
    ensures
        limbs_val(s) < pow2(32 * s.len()),
    decreases s.len(),
{
    broadcast use vstd::arithmetic::mul::lemma_mul_nonnegative;

    if s.len() == 0 {
        assert(pow2(0) == 1) by {
            vstd::arithmetic::power2::lemma2_to64();
        }
    } else {
        let sp = s.drop_first();
        lemma_limbs_val_bound(sp);
        lemma_pow2_adds(32, 32 * sp.len());
        assert(pow2(32) == 0x1_0000_0000) by {
            vstd::arithmetic::power2::lemma2_to64();
        }
        assert(32 * s.len() == 32 + 32 * sp.len());
        let b: int = 0x1_0000_0000;
        let v1 = limbs_val(sp) as int;
        let p = pow2(32 * sp.len()) as int;
        assert(limbs_val(s) == s[0] + b * v1);
        assert(pow2(32 * s.len()) == b * p);
        assert(s[0] < 0x1_0000_0000 && v1 < p && p > 0 ==> s[0] + 0x1_0000_0000 * v1 < 0x1_0000_0000 * p) by (nonlinear_arith);
        lemma_pow2_pos(32 * sp.len());
    }
}

/// Limb j of a sequence is digit j of the number it denotes.
pub proof fn lemma_limbs_val_extract(s: Seq<u32>, j: int)
    requires
        0 <= j < s.len(),
    ensures
        s[j] == (limbs_val(s) / pow2((32 * j) as nat)) % 0x1_0000_0000,
    decreases j,
{
    let b: int = 0x1_0000_0000;
    let v = limbs_val(s) as int;
    let rest = limbs_val(s.drop_first()) as int;
    assert(v == s[0] + b * rest);
    if j == 0 {
        assert(pow2(0) == 1) by {
            vstd::arithmetic::power2::lemma2_to64();
        }
        assert(v / 1 == v) by {
            vstd::arithmetic::div_mod::lemma_div_basics(v);
        }
        lemma_fundamental_div_mod_converse(v, b, rest, s[0] as int);
    } else {
        // v / B == rest, then recurse on the tail.
        lemma_fundamental_div_mod_converse(v, b, rest, s[0] as int);
        assert(v / b == rest);
        lemma_limbs_val_extract(s.drop_first(), j - 1);
        assert(pow2(32) == 0x1_0000_0000) by {
            vstd::arithmetic::power2::lemma2_to64();
        }
        lemma_pow2_adds(32, (32 * (j - 1)) as nat);
        assert((32 * j) as nat == 32 + (32 * (j - 1)) as nat);
        lemma_pow2_pos((32 * (j - 1)) as nat);
        assert(v / (b * pow2((32 * (j - 1)) as nat) as int) == (v / b) / pow2((32 * (j - 1)) as nat) as int) by {
            lemma_div_denominator(v, b, pow2((32 * (j - 1)) as nat) as int);
        }
        assert(s.drop_first()[j - 1] == s[j]);
    }
}

/// Two limb sequences of equal length denoting the same number are equal.
pub proof fn lemma_limbs_val_injective(s1: Seq<u32>, s2: Seq<u32>)
    requires
        s1.len() == s2.len(),
        limbs_val(s1) == limbs_val(s2),
    ensures
        s1 == s2,
{
    assert forall|j: int| 0 <= j < s1.len() implies s1[j] == s2[j] by {
        lemma_limbs_val_extract(s1, j);
        lemma_limbs_val_extract(s2, j);
    }
    assert(s1 =~= s2);
}

/// A minimal representation of a number below 2^(32k) has at most k limbs.
pub proof fn lemma_limbs_minimal_len(s: Seq<u32>, k: nat)
    requires
        limbs_minimal(s),
        limbs_val(s) < pow2(32 * k),
    ensures
        s.len() <= k,
{
    if s.len() > k {
        lemma_limbs_val_lower_bound(s);
        // val >= pow2(32(len-1)) >= pow2(32k), contradiction.
        if 32 * ((s.len() - 1) as nat) != 32 * k {
            vstd::arithmetic::power2::lemma_pow2_strictly_increases(32 * k, 32 * ((s.len() - 1) as nat));
        }
    }
}

/// A non-empty minimal sequence denotes at least the weight of its top limb.
pub proof fn lemma_limbs_val_lower_bound(s: Seq<u32>)
    requires
        s.len() > 0,
        s[s.len() - 1] != 0,
    ensures
        limbs_val(s) >= pow2(32 * ((s.len() - 1) as nat)),
    decreases s.len(),
{
    if s.len() == 1 {
        assert(pow2(0) == 1) by {
            vstd::arithmetic::power2::lemma2_to64();
        }
    } else {
        let tail = s.drop_first();
        assert(tail[tail.len() - 1] == s[s.len() - 1]);
        lemma_limbs_val_lower_bound(tail);
        assert(pow2(32) == 0x1_0000_0000) by {
            vstd::arithmetic::power2::lemma2_to64();
        }
        lemma_pow2_adds(32, 32 * ((tail.len() - 1) as nat));
        assert(32 * ((s.len() - 1) as nat) == 32 + 32 * ((tail.len() - 1) as nat));
        let b: int = 0x1_0000_0000;
        let v1 = limbs_val(tail) as int;
        let p = pow2(32 * ((tail.len() - 1) as nat)) as int;
        assert(limbs_val(s) == s[0] + b * v1);
        assert(pow2(32 * ((s.len() - 1) as nat)) == b * p);
        assert(v1 >= p && s[0] >= 0 ==> s[0] + 0x1_0000_0000 * v1 >= 0x1_0000_0000 * p) by (nonlinear_arith)
            requires
                v1 >= p,
        ;
    }
}

/// A sequence of zero limbs denotes zero, and conversely.
pub proof fn lemma_limbs_val_zero(s: Seq<u32>)
    ensures
        limbs_val(s) == 0 <==> (forall|i: int| 0 <= i < s.len() ==> s[i] == 0),
    decreases s.len(),
{
    if s.len() > 0 {
        lemma_limbs_val_zero(s.drop_first());
        if limbs_val(s) == 0 {
            assert(forall|i: int| 0 <= i < s.drop_first().len() ==> s.drop_first()[i] == 0);
            assert forall|i: int| 0 <= i < s.len() implies s[i] == 0 by {
                if i > 0 {
                    assert(s.drop_first()[i - 1] == s[i]);
                }
            }
        }
        if forall|i: int| 0 <= i < s.len() ==> s[i] == 0 {
            assert forall|i: int| 0 <= i < s.drop_first().len() implies s.drop_first()[i] == 0 by {
                assert(s.drop_first()[i] == s[i + 1]);
            }
        }
    }
}

/// Extend a limb vector with zero limbs up to a target length; the value
/// is unchanged.
pub fn pad_limbs(v: &mut Vec<u32>, width: usize)
    requires
        old(v)@.len() <= width,
    ensures
        final(v)@.len() == width,
        limbs_val(final(v)@) == limbs_val(old(v)@),
{
    while v.len() < width
        invariant
            v@.len() <= width,
            limbs_val(v@) == limbs_val(old(v)@),
        decreases width - v@.len(),
    {
        proof {
            lemma_limbs_val_push(v@, 0u32);
        }
        v.push(0u32);
    }
}

/// Limb-for-limb equality of two vectors.
pub fn limbs_eq(a: &Vec<u32>, b: &Vec<u32>) -> (r: bool)
    ensures
        r <==> a@ == b@,
{
    if a.len() != b.len() {
        proof {
            assert(a@.len() != b@.len());
        }
        return false;
    }
    let mut i: usize = 0;
    while i < a.len()
        invariant
            0 <= i <= a@.len(),
            a@.len() == b@.len(),
            forall|j: int| 0 <= j < i ==> a@[j] == b@[j],
        decreases a@.len() - i,
    {
        if a[i] != b[i] {
            return false;
        }
        i = i + 1;
    }
    proof {
        assert(a@ =~= b@);
    }
    true
}

/// Fresh copy of a limb vector.
pub fn copy_limbs(v: &Vec<u32>) -> (r: Vec<u32>)
    ensures
        r@ == v@,
{
    let mut r: Vec<u32> = Vec::new();
    let mut i: usize = 0;
    while i < v.len()
        invariant
            0 <= i <= v@.len(),
            r@ =~= v@.subrange(0, i as int),
        decreases v@.len() - i,
    {
        r.push(v[i]);
        i = i + 1;
    }
    proof {
        assert(r@ =~= v@);
    }
    r
}

} // verus!
