//! IEEE 754 binary64 scalars, carried as bit patterns.
//!
//! Verified code never touches a float directly: a scalar is a `u64` holding
//! the bits of a binary64 value.  The arithmetic itself is done by
//! `rustc_apfloat`, whose binary64 operations are IEEE 754 correctly-rounded
//! pure functions of the bit patterns; each operation's result is named by an
//! uninterpreted function (`f64_add` and friends), since a correctly-rounded
//! sum cannot be restated in a few lines.  The facts that IEEE 754 fixes by
//! the bit pattern alone — which patterns are NaN or zero, how non-NaN values
//! are ordered, that addition and multiplication commute apart from NaN
//! payloads — are written out and verified here, or recorded beside the
//! names.

use vstd::prelude::*;

use rustc_apfloat::Float;
use rustc_apfloat::ieee::Double;

verus! {

/// Bit pattern of positive zero.
pub const POS_ZERO: u64 = 0;

/// Bit pattern of negative zero: the sign bit alone.
pub const NEG_ZERO: u64 = 0x8000_0000_0000_0000;

/// The two zero patterns; IEEE 754 compares a value equal to `0.0` exactly
/// when its bits are one of them.
pub open spec fn sc_is_zero(a: u64) -> bool {
    a == POS_ZERO || a == NEG_ZERO
}

/// A binary64 value is NaN when its exponent field is all ones and its
/// mantissa field is not zero.
pub open spec fn sc_is_nan(a: u64) -> bool {
    (a >> 52) & 0x7ff == 0x7ff && a & 0xf_ffff_ffff_ffff != 0
}

/// Key under which the usual unsigned order of `u64` gives the IEEE order of
/// non-NaN values: a pattern with the sign bit set is flipped entirely, one
/// without gets the sign bit set.
pub open spec fn sc_key(a: u64) -> u64 {
    if a & NEG_ZERO != 0 {
        !a
    } else {
        a | NEG_ZERO
    }
}

/// IEEE 754 equality on bit patterns: NaN equals nothing, the two zeros equal
/// each other, and every other value equals exactly its own pattern.
pub open spec fn sc_eq(a: u64, b: u64) -> bool {
    &&& !sc_is_nan(a)
    &&& !sc_is_nan(b)
    &&& (a == b || (sc_is_zero(a) && sc_is_zero(b)))
}

/// IEEE 754 `<=` on bit patterns: false whenever either side is NaN, true of
/// any two zeros, elsewhere the sign-magnitude order.
pub open spec fn sc_le(a: u64, b: u64) -> bool {
    if sc_is_nan(a) || sc_is_nan(b) {
        false
    } else if sc_is_zero(a) && sc_is_zero(b) {
        true
    } else {
        sc_key(a) <= sc_key(b)
    }
}

/// Decides [`sc_is_zero`].
pub fn is_zero(a: u64) -> (r: bool)
    ensures
        r == sc_is_zero(a),
{
    a == POS_ZERO || a == NEG_ZERO
}

/// Decides [`sc_is_nan`].
pub fn is_nan(a: u64) -> (r: bool)
    ensures
        r == sc_is_nan(a),
{
    (a >> 52) & 0x7ff == 0x7ff && a & 0xf_ffff_ffff_ffff != 0
}

/// Decides [`sc_eq`].
pub fn scalar_eq(a: u64, b: u64) -> (r: bool)
    ensures
        r == sc_eq(a, b),
{
    !is_nan(a) && !is_nan(b) && (a == b || (is_zero(a) && is_zero(b)))
}

/// Decides [`sc_le`].
pub fn scalar_le(a: u64, b: u64) -> (r: bool)
    ensures
        r == sc_le(a, b),
{
    if is_nan(a) || is_nan(b) {
        false
    } else if is_zero(a) && is_zero(b) {
        true
    } else {
        let ka: u64 = if a & NEG_ZERO != 0 { !a } else { a | NEG_ZERO };
        let kb: u64 = if b & NEG_ZERO != 0 { !b } else { b | NEG_ZERO };
        ka <= kb
    }
}

/// The bits of the IEEE negation of the value with bits `a`.
pub uninterp spec fn f64_neg(a: u64) -> u64;

/// The bits of the IEEE round-to-nearest sum of the values with bits `a`, `b`.
pub uninterp spec fn f64_add(a: u64, b: u64) -> u64;

/// The bits of the IEEE round-to-nearest product of the values with bits `a`, `b`.
pub uninterp spec fn f64_mul(a: u64, b: u64) -> u64;

/// The bits of the IEEE round-to-nearest quotient of the values with bits `a`, `b`.
pub uninterp spec fn f64_div(a: u64, b: u64) -> u64;

/// The bits of the binary64 remainder of `a` by `b`, with the sign of `a`
/// (the exactly-determined `fmod` remainder).
pub uninterp spec fn f64_rem(a: u64, b: u64) -> u64;

/// The bits of the binary64 value nearest to the integer `k`.
pub uninterp spec fn f64_of_int(k: u64) -> u64;

/// The base-10 numeral, if any, read from `s`, as the bits of the binary64
/// value nearest to it.
pub uninterp spec fn f64_parse(s: Seq<char>) -> Option<u64>;

/// The decimal rendering of the value with bits `a`: digits enough to read
/// the same value back.
pub uninterp spec fn f64_text(a: u64) -> Seq<char>;

/// Relies on `rustc_apfloat`'s `Neg` for `ieee::Double`: IEEE negation, a
/// function of the bit pattern alone.
#[verifier::external_body]
pub(crate) fn scalar_neg(a: u64) -> (r: u64)
    ensures
        r == f64_neg(a),
{
    (-Double::from_bits(a as u128)).to_bits() as u64
}

/// Relies on `rustc_apfloat`'s `Add` for `ieee::Double`: IEEE addition,
/// correctly rounded, hence a function of the bit patterns alone and, apart
/// from the payload carried out of a NaN operand, commutative.
#[verifier::external_body]
pub(crate) fn scalar_add(a: u64, b: u64) -> (r: u64)
    ensures
        r == f64_add(a, b),
        !sc_is_nan(a) && !sc_is_nan(b) ==> r == f64_add(b, a),
{
    (Double::from_bits(a as u128) + Double::from_bits(b as u128)).value.to_bits() as u64
}

/// Relies on `rustc_apfloat`'s `Mul` for `ieee::Double`: IEEE multiplication,
/// correctly rounded, hence a function of the bit patterns alone and, apart
/// from the payload carried out of a NaN operand, commutative.
#[verifier::external_body]
pub(crate) fn scalar_mul(a: u64, b: u64) -> (r: u64)
    ensures
        r == f64_mul(a, b),
        !sc_is_nan(a) && !sc_is_nan(b) ==> r == f64_mul(b, a),
{
    (Double::from_bits(a as u128) * Double::from_bits(b as u128)).value.to_bits() as u64
}

/// Relies on `rustc_apfloat`'s `Div` for `ieee::Double`: IEEE division,
/// correctly rounded, a function of the bit patterns alone.  It never traps;
/// a zero divisor gives an infinity or NaN, and the caller that wants to
/// refuse one does so itself.
#[verifier::external_body]
pub(crate) fn scalar_div(a: u64, b: u64) -> (r: u64)
    ensures
        r == f64_div(a, b),
{
    (Double::from_bits(a as u128) / Double::from_bits(b as u128)).value.to_bits() as u64
}

/// Relies on `rustc_apfloat`'s `Rem` for `ieee::Double` (its `c_fmod`): the
/// exactly-determined remainder with the sign of the dividend, a function of
/// the bit patterns alone.
#[verifier::external_body]
pub(crate) fn scalar_rem(a: u64, b: u64) -> (r: u64)
    ensures
        r == f64_rem(a, b),
{
    (Double::from_bits(a as u128) % Double::from_bits(b as u128)).value.to_bits() as u64
}

/// Relies on `rustc_apfloat`'s `Float::from_u128` for `ieee::Double`:
/// round-to-nearest conversion, a function of the integer alone.
#[verifier::external_body]
pub(crate) fn scalar_of_int(k: u64) -> (r: u64)
    ensures
        r == f64_of_int(k),
{
    Double::from_u128(k as u128).value.to_bits() as u64
}

/// Relies on `rustc_apfloat`'s `FromStr` for `ieee::Double`: reads a base-10
/// numeral, correctly rounded, a function of the text alone.
#[verifier::external_body]
pub(crate) fn scalar_parse(s: &str) -> (r: Option<u64>)
    ensures
        r == f64_parse(s@),
{
    match s.parse::<Double>() {
        Ok(d) => Some(d.to_bits() as u64),
        Err(_) => None,
    }
}

/// Bit pattern of 1.0.
pub const ONE: u64 = 0x3ff0_0000_0000_0000;

/// Bit pattern of -1.0.
pub const MINUS_ONE: u64 = 0xbff0_0000_0000_0000;

/// Bit pattern of 2.0.
pub const TWO: u64 = 0x4000_0000_0000_0000;

/// Bit pattern of 0.5.
pub const HALF: u64 = 0x3fe0_0000_0000_0000;

/// Bit pattern of positive infinity.
pub const POS_INF: u64 = 0x7ff0_0000_0000_0000;

/// Bit pattern of the quiet NaN returned where IEEE 754 asks for one.
pub const QNAN: u64 = 0x7ff8_0000_0000_0000;

/// One Newton step toward the square root of `v` from the running
/// approximation `s`, iterated `k` times.
pub open spec fn spec_sqrt_iter(v: u64, s: u64, k: nat) -> u64
    decreases k,
{
    if k == 0 {
        s
    } else {
        spec_sqrt_iter(v, f64_mul(HALF, f64_add(s, f64_div(v, s))), (k - 1) as nat)
    }
}

/// A square root of the positive finite value with bits `v`: 64 Newton steps
/// from a seed that halves the exponent.
pub open spec fn spec_sqrt(v: u64) -> u64 {
    spec_sqrt_iter(v, ((v >> 1) + 0x1ff8_0000_0000_0000) as u64, 64)
}

fn sqrt_iter(v: u64, s: u64, k: u64) -> (r: u64)
    ensures
        r == spec_sqrt_iter(v, s, k as nat),
    decreases k,
{
    if k == 0 {
        s
    } else {
        sqrt_iter(v, scalar_mul(HALF, scalar_add(s, scalar_div(v, s))), k - 1)
    }
}

/// Computes [`spec_sqrt`].
fn sqrt_pos(v: u64) -> (r: u64)
    requires
        0 < v < POS_INF,
    ensures
        r == spec_sqrt(v),
{
    proof {
        assert(v >> 1 < 0x4000_0000_0000_0000u64) by (bit_vector)
            requires
                v < 0x7ff0_0000_0000_0000u64,
        ;
    }
    sqrt_iter(v, (v >> 1) + 0x1ff8_0000_0000_0000, 64)
}

/// The square-and-multiply walk for a natural exponent: `result` accumulates
/// the product of the squarings of `base` picked out by the binary digits of
/// `m`, lowest first.
pub open spec fn spec_powi(result: u64, base: u64, m: u64) -> u64
    decreases m,
{
    if m == 0 {
        result
    } else {
        spec_powi(
            if m % 2 == 1 {
                f64_mul(result, base)
            } else {
                result
            },
            f64_mul(base, base),
            m / 2,
        )
    }
}

/// Computes [`spec_powi`].
fn powi(result: u64, base: u64, m: u64) -> (r: u64)
    ensures
        r == spec_powi(result, base, m),
    decreases m,
{
    if m == 0 {
        result
    } else {
        let acc = if m % 2 == 1 {
            scalar_mul(result, base)
        } else {
            result
        };
        powi(acc, scalar_mul(base, base), m / 2)
    }
}

/// The square-root ladder for a fractional exponent: after `k` roots the
/// running root `cur` is the base to the power 2^(-k), and it is multiplied
/// into `acc` wherever the remaining fraction `f` carries that digit.  The
/// walk stops when the fraction is spent or the root leaves the positive
/// finite range.
pub open spec fn spec_pow_frac(acc: u64, cur: u64, f: u64, k: nat) -> u64
    decreases k,
{
    if k == 0 || sc_is_zero(f) || cur == 0 || cur >= POS_INF {
        acc
    } else {
        let root = spec_sqrt(cur);
        if root == 0 || root >= POS_INF {
            acc
        } else {
            let f2 = f64_mul(f, TWO);
            if f2 >= ONE {
                spec_pow_frac(f64_mul(acc, root), root, f64_add(f2, MINUS_ONE), (k - 1) as nat)
            } else {
                spec_pow_frac(acc, root, f2, (k - 1) as nat)
            }
        }
    }
}

/// Computes [`spec_pow_frac`].
fn pow_frac(acc: u64, cur: u64, f: u64, k: u64) -> (r: u64)
    ensures
        r == spec_pow_frac(acc, cur, f, k as nat),
    decreases k,
{
    if k == 0 || is_zero(f) || cur == 0 || cur >= POS_INF {
        acc
    } else {
        let root = sqrt_pos(cur);
        if root == 0 || root >= POS_INF {
            acc
        } else {
            let f2 = scalar_mul(f, TWO);
            if f2 >= ONE {
                pow_frac(scalar_mul(acc, root), root, scalar_add(f2, MINUS_ONE), k - 1)
            } else {
                pow_frac(acc, root, f2, k - 1)
            }
        }
    }
}

/// Scalar exponentiation over bit patterns.  `rustc_apfloat` offers no power
/// operation, so one is built here from the primitive operations: the special
/// cases as IEEE 754 `pow` fixes them, the exact square-and-multiply walk for
/// the integral part of the exponent, and a square-root ladder over the
/// fraction's binary digits otherwise.  Like a platform `pow`, the rounding
/// of the inexact cases is this library's own convention.
pub open spec fn spec_pow(a: u64, b: u64) -> u64 {
    if sc_is_zero(b) || a == ONE {
        ONE
    } else if sc_is_nan(a) || sc_is_nan(b) {
        QNAN
    } else {
        let y_neg = b & NEG_ZERO != 0;
        let babs = (b & 0x7fff_ffff_ffff_ffff) as u64;
        let xabs = (a & 0x7fff_ffff_ffff_ffff) as u64;
        if babs == POS_INF || (babs >> 52) > 1086 {
            if xabs == ONE {
                ONE
            } else if (xabs > ONE) == !y_neg {
                POS_INF
            } else {
                POS_ZERO
            }
        } else {
            let be = babs >> 52;
            let mant = ((babs & 0xf_ffff_ffff_ffff) | 0x10_0000_0000_0000) as u64;
            let n: u64 = if be < 1023 {
                0
            } else if be >= 1075 {
                (mant << ((be - 1075) as u64)) as u64
            } else {
                (mant >> ((1075 - be) as u64)) as u64
            };
            let frac: u64 = if be < 1023 {
                babs
            } else if be >= 1075 {
                POS_ZERO
            } else {
                f64_add(babs, f64_neg(f64_of_int(n)))
            };
            if a & NEG_ZERO != 0 && !sc_is_zero(frac) {
                QNAN
            } else {
                let p_int = spec_powi(ONE, a, n);
                let p = if !sc_is_zero(frac) {
                    f64_mul(
                        p_int,
                        if xabs == 0 {
                            POS_ZERO
                        } else if xabs >= POS_INF {
                            POS_INF
                        } else {
                            spec_pow_frac(ONE, xabs, frac, 64)
                        },
                    )
                } else {
                    p_int
                };
                if y_neg {
                    f64_div(ONE, p)
                } else {
                    p
                }
            }
        }
    }
}

/// Computes [`spec_pow`].
pub fn pow_bits(a: u64, b: u64) -> (r: u64)
    ensures
        r == spec_pow(a, b),
{
    if is_zero(b) || a == ONE {
        return ONE;
    }
    if is_nan(a) || is_nan(b) {
        return QNAN;
    }
    let y_neg = b & NEG_ZERO != 0;
    let babs = b & 0x7fff_ffff_ffff_ffff;
    let xabs = a & 0x7fff_ffff_ffff_ffff;
    if babs == POS_INF || (babs >> 52) > 1086 {
        if xabs == ONE {
            return ONE;
        }
        if (xabs > ONE) == !y_neg {
            return POS_INF;
        }
        return POS_ZERO;
    }
    let be: u64 = babs >> 52;
    let mant: u64 = (babs & 0xf_ffff_ffff_ffff) | 0x10_0000_0000_0000;
    let n: u64 = if be < 1023 {
        0
    } else if be >= 1075 {
        mant << (be - 1075)
    } else {
        mant >> (1075 - be)
    };
    let frac: u64 = if be < 1023 {
        babs
    } else if be >= 1075 {
        POS_ZERO
    } else {
        scalar_add(babs, scalar_neg(scalar_of_int(n)))
    };
    // A negative base with a non-integral exponent has no real power.
    if a & NEG_ZERO != 0 && !is_zero(frac) {
        return QNAN;
    }
    let p_int: u64 = powi(ONE, a, n);
    let p: u64 = if !is_zero(frac) {
        let pf: u64 = if xabs == 0 {
            POS_ZERO
        } else if xabs >= POS_INF {
            POS_INF
        } else {
            pow_frac(ONE, xabs, frac, 64)
        };
        scalar_mul(p_int, pf)
    } else {
        p_int
    };
    if y_neg {
        scalar_div(ONE, p)
    } else {
        p
    }
}

/// Relies on `rustc_apfloat`'s `Display` for `ieee::Double`: a decimal text
/// that reads back to the same value, a function of the bit pattern alone.
#[verifier::external_body]
pub(crate) fn scalar_text(a: u64) -> (r: String)
    ensures
        r@ == f64_text(a),
{
    format!("{}", Double::from_bits(a as u128))
}

} // verus!
