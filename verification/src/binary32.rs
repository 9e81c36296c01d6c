//! Bit patterns of IEEE 754 single precision numbers.
//!
//! The firmware measures and commands real numbers in single precision. Here a
//! number is its 32-bit pattern: one sign bit, eight exponent bits, twenty-three
//! fraction bits. [`scaled`] gives the number itself, as an integer count of the
//! smallest positive step (two to the power of minus 149), so order and sign are
//! stated on numbers and decided on patterns.
use vstd::arithmetic::power2::{
    lemma_pow2_pos, lemma_pow2_strictly_increases, lemma_pow2_unfold, pow2,
};
use vstd::prelude::*;

verus! {

/// Weight of the sign bit.
pub const SIGN: u32 = 0x8000_0000;

/// Pattern of positive infinity; every larger magnitude is a NaN.
pub const INFINITY: u32 = 0x7F80_0000;

/// Weight of the lowest exponent bit.
pub const EXPONENT_STEP: u32 = 0x0080_0000;

/// The pattern without its sign bit.
pub open spec fn magnitude(bits: u32) -> int {
    bits as int % SIGN as int
}

/// The pattern is not a number.
pub open spec fn nan(bits: u32) -> bool {
    magnitude(bits) > INFINITY
}

/// The pattern is a number, and not an infinity.
pub open spec fn finite(bits: u32) -> bool {
    magnitude(bits) < INFINITY
}

/// Absolute value of the number whose sign-free pattern is `m`, counted in
/// smallest positive steps. An infinity counts more than every finite number.
pub open spec fn scaled_magnitude(m: int) -> int {
    let exponent = m / EXPONENT_STEP as int;
    let fraction = m % EXPONENT_STEP as int;
    if exponent <= 0 {
        fraction
    } else {
        (EXPONENT_STEP + fraction) * pow2((exponent - 1) as nat)
    }
}

/// The number that a pattern stands for, counted in smallest positive steps.
/// Both zeros count zero. Meaningless for a NaN.
pub open spec fn scaled(bits: u32) -> int {
    if bits < SIGN {
        scaled_magnitude(magnitude(bits))
    } else {
        -scaled_magnitude(magnitude(bits))
    }
}

/// The number one, counted in smallest positive steps.
pub open spec fn one() -> int {
    pow2(149) as int
}

/// `a < b` on numbers; no NaN is below or above anything.
pub open spec fn below(a: u32, b: u32) -> bool {
    !nan(a) && !nan(b) && scaled(a) < scaled(b)
}

/// `a <= b` on numbers; false for a NaN.
pub open spec fn at_most(a: u32, b: u32) -> bool {
    !nan(a) && !nan(b) && scaled(a) <= scaled(b)
}

/// The same number, whichever zero it is, or a NaN both times.
pub open spec fn same(a: u32, b: u32) -> bool {
    if nan(a) || nan(b) {
        nan(a) && nan(b)
    } else {
        scaled(a) == scaled(b)
    }
}

/// The pattern with its sign bit flipped.
pub open spec fn negated(bits: u32) -> u32 {
    if bits < SIGN {
        (bits + SIGN) as u32
    } else {
        (bits - SIGN) as u32
    }
}

/// The pattern with its sign bit cleared.
pub open spec fn absolute(bits: u32) -> u32 {
    magnitude(bits) as u32
}

/// `x` limited to the interval from `lo` to `hi`; a NaN stays as it is.
pub open spec fn clamped(x: u32, lo: u32, hi: u32) -> u32 {
    if below(x, lo) {
        lo
    } else if below(hi, x) {
        hi
    } else {
        x
    }
}

/// Scaled magnitudes are never negative.
proof fn lemma_scaled_magnitude_nonnegative(m: int)
    requires
        0 <= m,
    ensures
        0 <= scaled_magnitude(m),
        scaled_magnitude(m) == 0 <==> m == 0,
{
    let exponent = m / EXPONENT_STEP as int;
    let fraction = m % EXPONENT_STEP as int;
    if exponent > 0 {
        lemma_pow2_pos((exponent - 1) as nat);
        let p = pow2((exponent - 1) as nat) as int;
        assert((EXPONENT_STEP + fraction) * p > 0) by (nonlinear_arith)
            requires
                EXPONENT_STEP + fraction > 0,
                p > 0,
        ;
    }
}

/// Order of sign-free patterns is order of absolute values.
pub proof fn lemma_magnitude_order(a: int, b: int)
    requires
        0 <= a < b,
    ensures
        scaled_magnitude(a) < scaled_magnitude(b),
{
    let step = EXPONENT_STEP as int;
    let (ea, fa) = (a / step, a % step);
    let (eb, fb) = (b / step, b % step);
    assert(ea <= eb);
    if ea == eb {
        assert(fa < fb);
        if ea > 0 {
            lemma_pow2_pos((ea - 1) as nat);
            let p = pow2((ea - 1) as nat) as int;
            assert((step + fa) * p < (step + fb) * p) by (nonlinear_arith)
                requires
                    fa < fb,
                    p > 0,
            ;
        }
    } else {
        let q = pow2((eb - 1) as nat) as int;
        lemma_pow2_pos((eb - 1) as nat);
        assert((step + fb) * q >= step * q) by (nonlinear_arith)
            requires
                fb >= 0,
                q > 0,
        ;
        if ea == 0 {
            assert(step * q >= step) by (nonlinear_arith)
                requires
                    step == 0x0080_0000,
                    q >= 1,
            ;
        } else {
            let p = pow2((ea - 1) as nat) as int;
            lemma_pow2_pos((ea - 1) as nat);
            lemma_pow2_unfold(ea as nat);
            if ea < eb - 1 {
                lemma_pow2_strictly_increases(ea as nat, (eb - 1) as nat);
            }
            assert(q >= 2 * p);
            assert((step + fa) * p < step * q) by (nonlinear_arith)
                requires
                    step == 0x0080_0000,
                    0 <= fa < step,
                    p > 0,
                    q >= 2 * p,
            ;
        }
    }
}

/// What lies between finite numbers is finite.
pub proof fn lemma_between_finite(lo: u32, x: u32, hi: u32)
    requires
        finite(lo),
        finite(hi),
        at_most(lo, x),
        at_most(x, hi),
    ensures
        finite(x),
{
    lemma_magnitude_order(magnitude(lo), INFINITY as int);
    lemma_magnitude_order(magnitude(hi), INFINITY as int);
    lemma_scaled_magnitude_nonnegative(magnitude(lo));
    lemma_scaled_magnitude_nonnegative(magnitude(hi));
}

/// The same number is finite or not, in whichever pattern.
pub proof fn lemma_same_finite(a: u32, b: u32)
    requires
        same(a, b),
    ensures
        finite(a) == finite(b),
{
    if finite(a) {
        lemma_between_finite(a, b, a);
    }
    if finite(b) {
        lemma_between_finite(b, a, b);
    }
}

/// A number above zero has its sign bit clear.
pub proof fn lemma_positive(x: u32)
    requires
        below(0, x),
    ensures
        x < SIGN,
{
    lemma_scaled_magnitude_nonnegative(magnitude(x));
}

/// The absolute value is the number without its sign.
pub proof fn lemma_absolute(x: u32)
    ensures
        scaled(absolute(x)) == scaled(x) || scaled(absolute(x)) == -scaled(x),
        scaled(absolute(x)) >= 0,
        nan(absolute(x)) == nan(x),
{
    lemma_scaled_magnitude_nonnegative(magnitude(x));
}

/// Two patterns of the same number with clear sign bits are one pattern.
pub proof fn lemma_same_pattern(a: u32, b: u32)
    requires
        same(a, b),
        !nan(a),
        a < SIGN,
        b < SIGN,
    ensures
        a == b,
{
    if a < b {
        lemma_magnitude_order(a as int, b as int);
    }
    if b < a {
        lemma_magnitude_order(b as int, a as int);
    }
}

/// Whether the pattern is not a number.
pub fn is_nan(bits: u32) -> (r: bool)
    ensures
        r == nan(bits),
{
    bits % SIGN > INFINITY
}

/// Whether the pattern is a number other than an infinity.
pub fn is_finite(bits: u32) -> (r: bool)
    ensures
        r == finite(bits),
{
    bits % SIGN < INFINITY
}

/// Absolute value.
pub fn abs(bits: u32) -> (r: u32)
    ensures
        r == absolute(bits),
        nan(r) == nan(bits),
        finite(r) == finite(bits),
        scaled(r) == scaled_magnitude(magnitude(bits)),
{
    bits % SIGN
}

/// Change of sign.
pub fn negate(bits: u32) -> (r: u32)
    ensures
        r == negated(bits),
        nan(r) == nan(bits),
        finite(r) == finite(bits),
        scaled(r) == -scaled(bits),
{
    if bits < SIGN {
        bits + SIGN
    } else {
        bits - SIGN
    }
}

/// `a < b` as IEEE 754 defines it.
pub fn less_than(a: u32, b: u32) -> (r: bool)
    ensures
        r == below(a, b),
{
    if is_nan(a) || is_nan(b) {
        return false;
    }
    let ma: u32 = a % SIGN;
    let mb: u32 = b % SIGN;
    proof {
        lemma_scaled_magnitude_nonnegative(ma as int);
        lemma_scaled_magnitude_nonnegative(mb as int);
        if ma < mb {
            lemma_magnitude_order(ma as int, mb as int);
        }
        if mb < ma {
            lemma_magnitude_order(mb as int, ma as int);
        }
    }
    if a < SIGN {
        b < SIGN && ma < mb
    } else if b < SIGN {
        ma > 0 || mb > 0
    } else {
        mb < ma
    }
}

/// Limits `x` to the interval from `lo` to `hi`; a NaN stays as it is.
pub fn clamp(x: u32, lo: u32, hi: u32) -> (r: u32)
    ensures
        r == clamped(x, lo, hi),
{
    if less_than(x, lo) {
        lo
    } else if less_than(hi, x) {
        hi
    } else {
        x
    }
}

/// Flipping the sign twice gives the pattern back, and negates the number.
pub proof fn negation_undoes_itself(bits: u32)
    ensures
        negated(negated(bits)) == bits,
        scaled(negated(bits)) == -scaled(bits),
        nan(negated(bits)) == nan(bits),
{
}

/// A clamped number lies in its interval; a number that lies there already is left
/// alone, and one beyond an end becomes that end.
pub proof fn clamped_lies_between(x: u32, lo: u32, hi: u32)
    requires
        !nan(x),
        !nan(lo),
        !nan(hi),
        !below(hi, lo),
    ensures
        !below(clamped(x, lo, hi), lo),
        !below(hi, clamped(x, lo, hi)),
        !below(x, lo) && !below(hi, x) ==> clamped(x, lo, hi) == x,
        scaled(x) < scaled(lo) ==> clamped(x, lo, hi) == lo,
        scaled(hi) < scaled(x) ==> clamped(x, lo, hi) == hi,
        scaled(lo) <= scaled(x) <= scaled(hi) ==> clamped(x, lo, hi) == x,
{
}

} // verus!
