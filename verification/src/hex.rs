//! Decoding of the hexadecimal input formats: the 262144-character blob,
//! the 96-character external commitment, and 64-character scalars.
//!
//! Strings are big-endian hexadecimal; `hex_val` is the number a digit
//! sequence denotes.  A wrong length is a `LengthMismatch`; a non-digit
//! character, or a scalar at or above the field order, is a `DecodeError`.

use vstd::prelude::*;

verus! {

use vstd::arithmetic::power2::pow2;
use vstd::arithmetic::power2::lemma_pow2_adds;
use crate::limbs::limbs_val;
use crate::limbs::lemma_limbs_val_push;
use crate::field::Fp;
use crate::field::fp_modulus;
use crate::field::check_canonical;
use crate::blob_polynomial::BlobPolynomial;
use crate::blob_polynomial::BLOB_WIDTH;

/// Why an input could not be loaded.
#[derive(Clone, Copy, PartialEq, Eq, Structural, Debug)]
pub enum LoadError {
    /// The input was not there to read (reported by the caller that does
    /// the reading; decoding itself never returns it).
    MissingInput,
    /// The input does not have the exact required length.
    LengthMismatch,
    /// A character is not a hexadecimal digit, or a scalar is not below
    /// the field order.
    DecodeError,
}

/// Is `c` an ASCII hexadecimal digit?
pub open spec fn is_hex_digit(c: u8) -> bool {
    (0x30 <= c <= 0x39) || (0x61 <= c <= 0x66) || (0x41 <= c <= 0x46)
}

/// The value of one hexadecimal digit.
pub open spec fn hex_digit_val(c: u8) -> nat {
    if 0x30 <= c <= 0x39 {
        (c - 0x30) as nat
    } else if 0x61 <= c <= 0x66 {
        (c - 0x61 + 10) as nat
    } else if 0x41 <= c <= 0x46 {
        (c - 0x41 + 10) as nat
    } else {
        0
    }
}

/// Every character is a hexadecimal digit.
pub open spec fn all_hex(s: Seq<u8>) -> bool {
    forall|i: int| 0 <= i < s.len() ==> is_hex_digit(#[trigger] s[i])
}

/// The number a big-endian hexadecimal digit sequence denotes.
pub open spec fn hex_val(s: Seq<u8>) -> nat
    decreases s.len(),
{
    if s.len() == 0 {
        0
    } else {
        16 * hex_val(s.drop_last()) + hex_digit_val(s.last())
    }
}

/// A sequence of n digits denotes a number below 16^n.
pub proof fn lemma_hex_val_bound(s: Seq<u8>)
    ensures
        hex_val(s) < pow2(4 * s.len()),
    decreases s.len(),
{
    broadcast use vstd::arithmetic::mul::lemma_mul_nonnegative;

    if s.len() == 0 {
        assert(pow2(0) == 1) by {
            vstd::arithmetic::power2::lemma2_to64();
        }
    } else {
        let sp = s.drop_last();
        lemma_hex_val_bound(sp);
        lemma_pow2_adds(4, 4 * sp.len());
        assert(pow2(4) == 16) by {
            vstd::arithmetic::power2::lemma2_to64();
        }
        assert(4 * s.len() == 4 + 4 * sp.len());
        let p = pow2(4 * sp.len()) as int;
        let v = hex_val(sp) as int;
        assert(hex_digit_val(s.last()) < 16);
        assert(v < p ==> 16 * v + 15 < 16 * p) by (nonlinear_arith);
        assert(pow2(4 * s.len()) == 16 * p);
    }
}

/// Splitting a digit string splits its value by place value.
pub proof fn lemma_hex_val_concat(a: Seq<u8>, b: Seq<u8>)
    ensures
        hex_val(a + b) == hex_val(a) * pow2(4 * b.len()) + hex_val(b),
    decreases b.len(),
{
    broadcast use vstd::arithmetic::mul::lemma_mul_nonnegative;

    if b.len() == 0 {
        assert(a + b =~= a);
        assert(pow2(0) == 1) by {
            vstd::arithmetic::power2::lemma2_to64();
        }
        assert(hex_val(a) * 1 == hex_val(a));
    } else {
        let bp = b.drop_last();
        assert((a + b).drop_last() =~= a + bp);
        assert((a + b).last() == b.last());
        lemma_hex_val_concat(a, bp);
        lemma_pow2_adds(4, 4 * bp.len());
        assert(pow2(4) == 16) by {
            vstd::arithmetic::power2::lemma2_to64();
        }
        assert(4 * b.len() == 4 + 4 * bp.len());
        let ha = hex_val(a) as int;
        let hb = hex_val(bp) as int;
        let p = pow2(4 * bp.len()) as int;
        let d = hex_digit_val(b.last()) as int;
        assert(hex_val(a + b) == 16 * (ha * p + hb) + d);
        assert(16 * (ha * p + hb) + d == ha * (16 * p) + (16 * hb + d)) by (nonlinear_arith);
        assert(pow2(4 * b.len()) == 16 * p);
        assert(hex_val(b) == 16 * hb + d);
    }
}

/// The value of one hexadecimal digit character, if it is one.
fn hex_digit(c: u8) -> (r: Option<u8>)
    ensures
        r is Some <==> is_hex_digit(c),
        r matches Some(v) ==> v as nat == hex_digit_val(c) && v < 16,
{
    if 0x30 <= c && c <= 0x39 {
        Some(c - 0x30)
    } else if 0x61 <= c && c <= 0x66 {
        Some(c - 0x61 + 10)
    } else if 0x41 <= c && c <= 0x46 {
        Some(c - 0x41 + 10)
    } else {
        None
    }
}

/// Decode the eight digits at `start` as one limb.
#[verifier::loop_isolation(false)]
fn parse_limb(s: &Vec<u8>, start: usize) -> (r: Option<u32>)
    requires
        start + 8 <= s@.len(),
    ensures
        r is Some <==> all_hex(s@.subrange(start as int, start as int + 8)),
        r matches Some(v) ==> v as nat == hex_val(s@.subrange(start as int, start as int + 8)),
{
    let ghost whole = s@.subrange(start as int, start as int + 8);
    let n = s.len();
    let mut acc: u32 = 0;
    let mut j: usize = 0;
    proof {
        vstd::arithmetic::power2::lemma2_to64();
        assert(s@.subrange(start as int, start as int + 0) =~= Seq::<u8>::empty());
    }
    while j < 8
        invariant
            0 <= j <= 8,
            (acc as nat) == hex_val(s@.subrange(start as int, start as int + j as int)),
            (acc as nat) < pow2(4 * (j as nat)),
            forall|t: int| start <= t < start + j ==> is_hex_digit(#[trigger] s@[t]),
        decreases 8 - j,
    {
        let ghost prefix = s@.subrange(start as int, start as int + j);
        match hex_digit(s[start + j]) {
            Some(d) => {
                proof {
                    let longer = s@.subrange(start as int, start as int + j + 1);
                    assert(longer.drop_last() =~= prefix);
                    assert(longer.last() == s@[start as int + j]);
                    lemma_hex_val_bound(longer);
                    lemma_pow2_adds(4 * (j as nat), 4);
                    vstd::arithmetic::power2::lemma2_to64();
                    assert(pow2(4 * ((j + 1) as nat)) == pow2(4 * (j as nat)) * 16);
                    assert(acc as nat * 16 + 15 < pow2(4 * j as nat) * 16) by (nonlinear_arith)
                        requires
                            (acc as nat) < pow2(4 * (j as nat)),
                    ;
                    assert(pow2(4 * 8) == 0x1_0000_0000) by {
                        lemma_pow2_adds(16, 16);
                        vstd::arithmetic::power2::lemma2_to64();
                    }
                    if 4 * ((j + 1) as nat) < 32 {
                        vstd::arithmetic::power2::lemma_pow2_strictly_increases(
                            4 * ((j + 1) as nat),
                            32,
                        );
                    }
                }
                acc = acc * 16 + (d as u32);
            },
            None => {
                proof {
                    assert(whole[j as int] == s@[start as int + j as int]);
                }
                return None;
            },
        }
        j = j + 1;
    }
    proof {
        assert forall|g: int| 0 <= g < 8 implies is_hex_digit(whole[g]) by {
            assert(whole[g] == s@[start as int + g]);
        }
    }
    Some(acc)
}

/// Decode a big-endian hexadecimal string of 8·n digits into n little-endian
/// limbs denoting the same number.
#[verifier::loop_isolation(false)]
pub fn parse_hex_limbs(s: &Vec<u8>, n_limbs: usize) -> (r: Option<Vec<u32>>)
    requires
        s@.len() == n_limbs * 8,
        n_limbs <= 0x1000000,
    ensures
        r is Some <==> all_hex(s@),
        r matches Some(v) ==> v@.len() == n_limbs && limbs_val(v@) == hex_val(s@),
{
    let len = s.len();
    let mut v: Vec<u32> = Vec::new();
    let mut k: usize = 0;
    while k < n_limbs
        invariant
            0 <= k <= n_limbs,
            v@.len() == k,
            s@.len() == n_limbs * 8,
            limbs_val(v@) == hex_val(s@.subrange(s@.len() - 8 * k, s@.len() as int)),
            forall|t: int| s@.len() - 8 * k <= t < s@.len() ==> is_hex_digit(#[trigger] s@[t]),
        decreases n_limbs - k,
    {
        proof {
            assert((k + 1) * 8 <= n_limbs * 8) by (nonlinear_arith)
                requires
                    k + 1 <= n_limbs,
            ;
        }
        let start = len - 8 * (k + 1);
        let ghost suffix = s@.subrange(s@.len() - 8 * k, s@.len() as int);
        let ghost group = s@.subrange(start as int, start as int + 8);
        match parse_limb(s, start) {
            Some(limb) => {
                proof {
                    lemma_limbs_val_push(v@, limb);
                    lemma_hex_val_concat(group, suffix);
                    assert(s@.subrange(s@.len() - 8 * (k + 1), s@.len() as int) =~= group
                        + suffix);
                    assert(4 * suffix.len() == 32 * (k as nat));
                    assert forall|t: int| start <= t < start + 8 implies is_hex_digit(
                        #[trigger] s@[t],
                    ) by {
                        assert(group[t - start] == s@[t]);
                        assert(is_hex_digit(group[t - start]));
                    }
                }
                v.push(limb);
            },
            None => {
                proof {
                    assert(!all_hex(s@)) by {
                        let bad = choose|i: int|
                            0 <= i < group.len() && !is_hex_digit(#[trigger] group[i]);
                        assert(group[bad] == s@[start + bad]);
                    }
                }
                return None;
            },
        }
        k = k + 1;
    }
    proof {
        assert(s@.subrange(0, s@.len() as int) =~= s@);
    }
    Some(v)
}

/// Decode a 64-character hexadecimal string as one scalar-field element.
pub fn parse_bls12_381_scalar(s: &Vec<u8>) -> (r: Result<Fp, LoadError>)
    ensures
        r matches Ok(f) ==> f.wf() && f@ == hex_val(s@),
        r matches Ok(f) <==> s@.len() == 64 && all_hex(s@) && hex_val(s@) < fp_modulus(),
        s@.len() != 64 ==> r == Result::<Fp, LoadError>::Err(LoadError::LengthMismatch),
        s@.len() == 64 && !(all_hex(s@) && hex_val(s@) < fp_modulus()) ==> r == Result::<
            Fp,
            LoadError,
        >::Err(LoadError::DecodeError),
{
    if s.len() != 64 {
        return Err(LoadError::LengthMismatch);
    }
    match parse_hex_limbs(s, 8) {
        Some(limbs) => {
            let f = Fp { limbs };
            if check_canonical(&f) {
                Ok(f)
            } else {
                Err(LoadError::DecodeError)
            }
        },
        None => Err(LoadError::DecodeError),
    }
}

/// Decode the 96-character hexadecimal external commitment into its
/// twelve-limb public-input form.
pub fn parse_kzg_commitment(s: &Vec<u8>) -> (r: Result<Vec<u32>, LoadError>)
    ensures
        r matches Ok(v) ==> v@.len() == 12 && limbs_val(v@) == hex_val(s@),
        r matches Ok(v) <==> s@.len() == 96 && all_hex(s@),
        s@.len() != 96 ==> r == Result::<Vec<u32>, LoadError>::Err(LoadError::LengthMismatch),
        s@.len() == 96 && !all_hex(s@) ==> r == Result::<Vec<u32>, LoadError>::Err(
            LoadError::DecodeError,
        ),
{
    if s.len() != 96 {
        return Err(LoadError::LengthMismatch);
    }
    match parse_hex_limbs(s, 12) {
        Some(v) => Ok(v),
        None => Err(LoadError::DecodeError),
    }
}

/// Chunk `i` of a blob string: characters 64·i up to 64·(i+1).
pub open spec fn blob_chunk(s: Seq<u8>, i: int) -> Seq<u8> {
    s.subrange(64 * i, 64 * (i + 1))
}

/// Chunk `i` decodes to a canonical scalar.
pub open spec fn blob_chunk_ok(s: Seq<u8>, i: int) -> bool {
    all_hex(blob_chunk(s, i)) && hex_val(blob_chunk(s, i)) < fp_modulus()
}

/// Decode a 262144-character hexadecimal blob as 4096 consecutive 32-byte
/// big-endian scalars, one polynomial value each.
#[verifier::loop_isolation(false)]
pub fn parse_blob(s: &Vec<u8>) -> (r: Result<BlobPolynomial, LoadError>)
    ensures
        r matches Ok(b) ==> b.wf() && forall|i: int|
            0 <= i < BLOB_WIDTH ==> #[trigger] b.values()[i] == hex_val(blob_chunk(s@, i)),
        r matches Ok(b) <==> s@.len() == BLOB_WIDTH * 64 && (forall|i: int|
            0 <= i < BLOB_WIDTH ==> #[trigger] blob_chunk_ok(s@, i)),
        s@.len() != BLOB_WIDTH * 64 ==> r == Result::<BlobPolynomial, LoadError>::Err(
            LoadError::LengthMismatch,
        ),
        s@.len() == BLOB_WIDTH * 64 && !(forall|i: int|
            0 <= i < BLOB_WIDTH ==> #[trigger] blob_chunk_ok(s@, i)) ==> r == Result::<
            BlobPolynomial,
            LoadError,
        >::Err(LoadError::DecodeError),
{
    if s.len() != BLOB_WIDTH * 64 {
        return Err(LoadError::LengthMismatch);
    }
    let mut entries: Vec<Fp> = Vec::new();
    let mut i: usize = 0;
    while i < BLOB_WIDTH
        invariant
            0 <= i <= BLOB_WIDTH,
            entries@.len() == i,
            s@.len() == BLOB_WIDTH * 64,
            forall|t: int| 0 <= t < i ==> #[trigger] blob_chunk_ok(s@, t),
            forall|t: int|
                0 <= t < i ==> (#[trigger] entries@[t]).wf() && entries@[t]@ == hex_val(
                    blob_chunk(s@, t),
                ),
        decreases BLOB_WIDTH - i,
    {
        proof {
            assert(64 * (i + 1) <= 64 * BLOB_WIDTH) by (nonlinear_arith)
                requires
                    i + 1 <= BLOB_WIDTH,
            ;
        }
        let mut chunk: Vec<u8> = Vec::new();
        let mut c: usize = 0;
        while c < 64
            invariant
                0 <= c <= 64,
                i < BLOB_WIDTH,
                s@.len() == BLOB_WIDTH * 64,
                64 * i + 64 <= s@.len(),
                chunk@ =~= s@.subrange(64 * i as int, 64 * i as int + c as int),
            decreases 64 - c,
        {
            chunk.push(s[64 * i + c]);
            c = c + 1;
        }
        proof {
            assert(chunk@ =~= blob_chunk(s@, i as int));
        }
        match parse_bls12_381_scalar(&chunk) {
            Ok(f) => {
                entries.push(f);
            },
            Err(_) => {
                proof {
                    assert(!blob_chunk_ok(s@, i as int));
                }
                return Err(LoadError::DecodeError);
            },
        }
        i = i + 1;
    }
    Ok(BlobPolynomial { entries })
}

} // verus!
