//! The arc sine, and the sine of it.
//!
//! Powers are counted as in [`crate::ankle::circle`].
use crate::ankle::accuracy::lemma_unit;
use crate::ankle::circle::{
    even_part, fraction, lemma_cosine, lemma_first_terms, lemma_limits, lemma_near_part,
    lemma_odd_powers, lemma_rounding, lemma_sine, lemma_sine_coefficients, lemma_terms, odd_part,
    term,
};
use crate::ankle::{arc_sine, cosine, sine, ASIN_5, ASIN_7, ASIN_9, SIN_3};
use crate::arithmetic::{
    accurate, lemma_one_is_large, lemma_size_of_product, lemma_sum_error, product, size, sum,
    Operation, INTEGERS, MINUS_ONE, ONE,
};
use crate::binary32::{clamped, finite, nan, negated, negation_undoes_itself, one, scaled};
use vstd::arithmetic::power::{lemma_pow1, lemma_pow_adds, lemma_pow_positive, pow};
use vstd::arithmetic::power2::{lemma2_to64, lemma_pow2_adds, pow2};
use vstd::prelude::*;

verus! {

/// The coefficients of the arc sine.
proof fn lemma_arc_sine_coefficients()
    ensures
        fraction(ASIN_5, 3, 40),
        fraction(ASIN_7, 5, 112),
        fraction(ASIN_9, 35, 1152),
{
    lemma2_to64();
    lemma_pow2_adds(122, 27);
    lemma_pow2_adds(121, 28);
    lemma_pow2_adds(120, 29);
    assert(scaled(ASIN_5) == 0x99_999A * pow2(122));
    assert(scaled(ASIN_7) == 0xB6_DB6E * pow2(121));
    assert(scaled(ASIN_9) == 0xF8_E38E * pow2(120));
}

/// A rounded sum of five numbers.
spec fn total<F: Fn(Operation) -> u32>(fpu: F, a: u32, b: u32, c: u32, d: u32, e: u32) -> u32 {
    sum(fpu, sum(fpu, sum(fpu, sum(fpu, a, b), c), d), e)
}

/// Four errors add up.
proof fn lemma_adding_up(v: int, w: int, x: int, y: int, z: int, n: int, o: int, p: int, s: int, q: int)
    requires
        INTEGERS * size(n - (v + w)) <= 2 * one(),
        INTEGERS * size(o - (n + x)) <= 2 * one(),
        INTEGERS * size(p - (o + y)) <= 2 * one(),
        INTEGERS * size(s - (p + z)) <= 2 * one(),
    ensures
        INTEGERS * size(s - (v + w + x + y + z)) <= 8 * one(),
        s * q - (v * q + w * q + x * q + y * q + z * q) == (s - (v + w + x + y + z)) * q,
{
    assert(s * q - (v * q + w * q + x * q + y * q + z * q) == (s - (v + w + x + y + z)) * q)
        by (nonlinear_arith);
}

/// A sum of five numbers, counted against the tenth power of one.
proof fn lemma_total<F: Fn(Operation) -> u32>(fpu: F, a: u32, b: u32, c: u32, d: u32, e: u32)
    requires
        accurate(fpu),
        finite(a) && finite(b) && finite(c) && finite(d) && finite(e),
        size(scaled(a)) <= one(),
        2 * size(scaled(b)) <= one(),
        5 * size(scaled(c)) <= one(),
        10 * size(scaled(d)) <= one(),
        10 * size(scaled(e)) <= one(),
    ensures
        ({
            let s = total(fpu, a, b, c, d, e);
            let q = pow(one(), 9);
            &&& finite(s)
            &&& INTEGERS * size(
                scaled(s) * q - (scaled(a) * q + scaled(b) * q + scaled(c) * q + scaled(d) * q + scaled(e)
                    * q),
            ) <= 8 * pow(one(), 10)
        }),
{
    let (k, q) = (one(), pow(one(), 9));
    lemma_one_is_large();
    let (v, w, x, y, z) = (scaled(a), scaled(b), scaled(c), scaled(d), scaled(e));
    let first = sum(fpu, a, b);
    lemma_sum_error(fpu, a, b);
    let n = scaled(first);
    assert(INTEGERS * size(n - (v + w)) <= 2 * k && 100 * size(n) <= 151 * k);
    let second = sum(fpu, first, c);
    lemma_sum_error(fpu, first, c);
    let o = scaled(second);
    assert(INTEGERS * size(o - (n + x)) <= 2 * k && 100 * size(o) <= 172 * k);
    let third = sum(fpu, second, d);
    lemma_sum_error(fpu, second, d);
    let p = scaled(third);
    assert(INTEGERS * size(p - (o + y)) <= 2 * k && 100 * size(p) <= 183 * k);
    lemma_sum_error(fpu, third, e);
    let s = scaled(sum(fpu, third, e));
    assert(INTEGERS * size(s - (p + z)) <= 2 * k);
    lemma_adding_up(v, w, x, y, z, n, o, p, s, q);
    lemma_rounding(s - (v + w + x + y + z), 8);
}

/// `40320` times the arc sine's terms.
pub open spec fn arc_part(x: int, k: int) -> int {
    40320 * term(x, k, 1, 10) + 6720 * term(x, k, 3, 10) + 3024 * term(x, k, 5, 10) + 1800 * term(
        x,
        k,
        7,
        10,
    ) + 1225 * term(x, k, 9, 10)
}

/// The arc sine is its polynomial within 60 parts in 2^24.
proof fn lemma_arc_sine<F: Fn(Operation) -> u32>(fpu: F, x: u32)
    requires
        accurate(fpu),
        finite(x),
        size(scaled(x)) <= one(),
    ensures
        finite(arc_sine(fpu, x)),
        INTEGERS * size(
            40320 * (scaled(arc_sine(fpu, x)) * pow(one(), 9)) - arc_part(scaled(x), one()),
        ) <= 60 * (40320 * pow(one(), 10)),
{
    let y = scaled(x);
    lemma_unit();
    lemma_minus_one();
    assert(clamped(x, MINUS_ONE, ONE) == x);
    lemma_one_is_large();
    lemma_odd_powers(fpu, x);
    lemma_limits(y);
    lemma_first_terms(y, one());
    lemma_sine_coefficients();
    lemma_arc_sine_coefficients();
    let x2 = product(fpu, x, x);
    let x3 = product(fpu, x2, x);
    let x5 = product(fpu, x3, x2);
    let x7 = product(fpu, x5, x2);
    let x9 = product(fpu, x7, x2);
    lemma_near_part(fpu, y, x3, 3, 33, 1, SIN_3, 1, 6, 42);
    lemma_near_part(fpu, y, x5, 5, 113, 1, ASIN_5, 3, 40, 364);
    lemma_near_part(fpu, y, x7, 7, 301, 1, ASIN_7, 5, 112, 1546);
    lemma_near_part(fpu, y, x9, 9, 705, 1, ASIN_9, 35, 1152, 24956);
    let (p3, p5) = (product(fpu, x3, SIN_3), product(fpu, x5, ASIN_5));
    let (p7, p9) = (product(fpu, x7, ASIN_7), product(fpu, x9, ASIN_9));
    assert(6 * size(scaled(p3)) <= 3 * one());
    assert(40 * size(scaled(p5)) <= 7 * one());
    assert(112 * size(scaled(p7)) <= 11 * one());
    assert(1152 * size(scaled(p9)) <= 71 * one());
    assert(2 * size(scaled(p3)) <= one() && 5 * size(scaled(p5)) <= one());
    assert(10 * size(scaled(p7)) <= one() && 10 * size(scaled(p9)) <= one());
    lemma_total(fpu, x, p3, p5, p7, p9);
    lemma_pow_positive(one(), 10);
    assert(arc_sine(fpu, x) == total(fpu, x, p3, p5, p7, p9));
    lemma_gathering(
        scaled(arc_sine(fpu, x)) * pow(one(), 9),
        scaled(p3) * pow(one(), 9),
        scaled(p5) * pow(one(), 9),
        scaled(p7) * pow(one(), 9),
        scaled(p9) * pow(one(), 9),
        term(y, one(), 1, 10),
        term(y, one(), 3, 10),
        term(y, one(), 5, 10),
        term(y, one(), 7, 10),
        term(y, one(), 9, 10),
        pow(one(), 10),
    );
}

/// The errors of the four coefficients and of their sum.
proof fn lemma_gathering(
    s: int,
    p3: int,
    p5: int,
    p7: int,
    p9: int,
    e1: int,
    e3: int,
    e5: int,
    e7: int,
    e9: int,
    t: int,
)
    requires
        0 < t,
        INTEGERS * size(6 * p3 - e3) <= 42 * t,
        INTEGERS * size(40 * p5 - 3 * e5) <= 364 * t,
        INTEGERS * size(112 * p7 - 5 * e7) <= 1546 * t,
        INTEGERS * size(1152 * p9 - 35 * e9) <= 24956 * t,
        INTEGERS * size(s - (e1 + p3 + p5 + p7 + p9)) <= 8 * t,
    ensures
        INTEGERS * size(40320 * s - (40320 * e1 + 6720 * e3 + 3024 * e5 + 1800 * e7 + 1225 * e9)) <= 60 * (
        40320 * t),
{
}

/// Minus one.
proof fn lemma_minus_one()
    ensures
        scaled(MINUS_ONE) == -one(),
        finite(MINUS_ONE) && finite(ONE),
{
    lemma2_to64();
    lemma_pow2_adds(23, 126);
}

/// The arc sine is the polynomial `x + x^3/6 + 3x^5/40 + 5x^7/112 + 35x^9/1152` within 60
/// parts in 2^24, where `x` is the number, or one or minus one if it lies beyond.
pub proof fn arc_sine_is_its_series<F: Fn(Operation) -> u32>(fpu: F, s: u32)
    requires
        accurate(fpu),
        !nan(s),
    ensures
        ({
            let x = if scaled(s) > one() {
                one()
            } else if scaled(s) < -one() {
                -one()
            } else {
                scaled(s)
            };
            &&& finite(arc_sine(fpu, s))
            &&& INTEGERS * size(
                40320 * (scaled(arc_sine(fpu, s)) * pow(one(), 9)) - arc_part(x, one()),
            ) <= 60 * (40320 * pow(one(), 10))
        }),
{
    let x = clamped(s, MINUS_ONE, ONE);
    lemma_unit();
    lemma_minus_one();
    lemma_one_is_large();
    if x == s {
        crate::binary32::lemma_between_finite(MINUS_ONE, s, ONE);
    }
    assert(clamped(x, MINUS_ONE, ONE) == x);
    assert(arc_sine(fpu, s) == arc_sine(fpu, x));
    lemma_arc_sine(fpu, x);
}

/// An arc sine is at most 1.32 radians, either way.
pub proof fn arc_sines_are_small<F: Fn(Operation) -> u32>(fpu: F, s: u32)
    requires
        accurate(fpu),
        !nan(s),
    ensures
        finite(arc_sine(fpu, s)),
        100 * size(scaled(arc_sine(fpu, s))) <= 132 * one(),
{
    let x = clamped(s, MINUS_ONE, ONE);
    let (k, q, y) = (one(), pow(one(), 9), scaled(x));
    lemma_unit();
    lemma_minus_one();
    lemma_one_is_large();
    assert(finite(x) && size(y) <= k) by {
        if x == s {
            crate::binary32::lemma_between_finite(MINUS_ONE, s, ONE);
        }
    }
    assert(clamped(x, MINUS_ONE, ONE) == x);
    assert(arc_sine(fpu, s) == arc_sine(fpu, x));
    lemma_arc_sine(fpu, x);
    lemma_limits(y);
    lemma_first_terms(y, k);
    lemma_pow_positive(k, 9);
    lemma_pow_adds(k, 1, 9);
    lemma_pow1(k);
    let z = scaled(arc_sine(fpu, x));
    assert(size(y * q) <= k * q) by {
        lemma_size_of_product(y, q, k, q);
    }
    assert(100 * size(z * q) <= 132 * (k * q));
    assert(size(z * q) == size(z) * q) by (nonlinear_arith)
        requires
            0 < q,
    ;
    assert(100 * size(z) <= 132 * k) by (nonlinear_arith)
        requires
            100 * (size(z) * q) <= 132 * (k * q),
            0 < q,
    ;
}

/// What two errors make of a product, in millionths.
proof fn lemma_cross(t: int, p: int, d: int, r: int, e: int, bp: int, bd: int, br: int, be: int, n: int)
    requires
        bp * be + bd * br + bd * be <= n,
        1000000 * size(p) <= bp * t,
        1000000 * size(d) <= bd * t,
        1000000 * size(r) <= br * t,
        1000000 * size(e) <= be * t,
    ensures
        1000000 * (1000000 * size((p + d) * (r + e) - p * r)) <= n * (t * t),
{
    assert((p + d) * (r + e) - p * r == p * e + d * r + d * e) by (nonlinear_arith);
    lemma_millionths(t, p, e, bp, be);
    lemma_millionths(t, d, r, bd, br);
    lemma_millionths(t, d, e, bd, be);
    let m = bp * be + bd * br + bd * be;
    assert(m * (t * t) == (bp * be) * (t * t) + (bd * br) * (t * t) + (bd * be) * (t * t)) by (nonlinear_arith)
        requires
            m == bp * be + bd * br + bd * be,
    ;
    assert(m * (t * t) <= n * (t * t)) by (nonlinear_arith)
        requires
            m <= n,
    ;
}

/// A product of two numbers that are bounded in millionths.
proof fn lemma_millionths(t: int, a: int, b: int, m: int, n: int)
    requires
        1000000 * size(a) <= m * t,
        1000000 * size(b) <= n * t,
    ensures
        1000000 * (1000000 * size(a * b)) <= (m * n) * (t * t),
{
    lemma_size_of_product(1000000 * a, 1000000 * b, m * t, n * t);
    assert((1000000 * a) * (1000000 * b) == 1000000 * (1000000 * (a * b))) by (nonlinear_arith);
    assert((m * t) * (n * t) == (m * n) * (t * t)) by (nonlinear_arith);
}

/// From an error per square to one per unit.
proof fn lemma_per(z: int, t: int, n: int)
    requires
        0 < t,
        1000000 * size(z * t) <= n * (t * t),
    ensures
        1000000 * size(z) <= n * t,
{
    assert(size(z * t) == size(z) * t) by (nonlinear_arith)
        requires
            0 < t,
    ;
    assert(1000000 * size(z) <= n * t) by (nonlinear_arith)
        requires
            1000000 * (size(z) * t) <= n * (t * t),
            0 < t,
    ;
}

/// The square of an arc sine.
proof fn lemma_second_power(
    t: int,
    x: int,
    y: int,
    e1: int,
    e2: int,
    e3: int,
    e4: int,
    e5: int,
    e6: int,
    e7: int,
    f8: int,
    f10: int,
    f12: int,
    f14: int,
)
    requires
        0 < t,
        2 * size(e1) <= t,
        4 * size(e2) <= t,
        8 * size(e3) <= t,
        16 * size(e4) <= t,
        32 * size(e5) <= t,
        64 * size(e6) <= t,
        128 * size(e7) <= t,
        256 * size(f8) <= t * t,
        1024 * size(f10) <= t * t,
        4096 * size(f12) <= t * t,
        16384 * size(f14) <= t * t,
        e1 * e1 == t * e2,
        e1 * e3 == t * e4,
        e1 * e5 == t * e6,
        e1 * e7 == f8,
        e3 * e3 == t * e6,
        e3 * e5 == f8,
        e3 * e7 == f10,
        e5 * e5 == f10,
        e5 * e7 == f12,
        e7 * e7 == f14,
        x * x == t * y,
        1000000 * size(1680 * x - (1680 * e1 + 280 * e3 + 126 * e5 + 75 * e7)) <= 112000 * t,
    ensures
        1000000 * size(45 * y - (45 * e2 + 15 * e4 + 8 * e6)) <= 25000 * t,
{
    let p = 1680 * e1 + 280 * e3 + 126 * e5 + 75 * e7;
    let r = 1680 * e1 + 280 * e3 + 126 * e5 + 75 * e7;
    let (d, e) = (1680 * x - p, 1680 * x - r);
    lemma_cross(t, p, d, r, e, 879523438, 112000, 879523438, 112000, 197025794112000);
    assert(p * r == 1680 * (e1 * r) + 280 * (e3 * r) + 126 * (e5 * r) + 75 * (e7 * r)) by (nonlinear_arith)
        requires
            p == 1680 * e1 + 280 * e3 + 126 * e5 + 75 * e7,
    ;
    assert(e1 * r == 1680 * (e1 * e1) + 280 * (e1 * e3) + 126 * (e1 * e5) + 75 * (e1 * e7)) by (nonlinear_arith)
        requires
            r == 1680 * e1 + 280 * e3 + 126 * e5 + 75 * e7,
    ;
    assert(e3 * r == 1680 * (e3 * e1) + 280 * (e3 * e3) + 126 * (e3 * e5) + 75 * (e3 * e7)) by (nonlinear_arith)
        requires
            r == 1680 * e1 + 280 * e3 + 126 * e5 + 75 * e7,
    ;
    assert(e5 * r == 1680 * (e5 * e1) + 280 * (e5 * e3) + 126 * (e5 * e5) + 75 * (e5 * e7)) by (nonlinear_arith)
        requires
            r == 1680 * e1 + 280 * e3 + 126 * e5 + 75 * e7,
    ;
    assert(e7 * r == 1680 * (e7 * e1) + 280 * (e7 * e3) + 126 * (e7 * e5) + 75 * (e7 * e7)) by (nonlinear_arith)
        requires
            r == 1680 * e1 + 280 * e3 + 126 * e5 + 75 * e7,
    ;
    assert(e3 * e1 == e1 * e3) by (nonlinear_arith);
    assert(e5 * e1 == e1 * e5) by (nonlinear_arith);
    assert(e5 * e3 == e3 * e5) by (nonlinear_arith);
    assert(e7 * e1 == e1 * e7) by (nonlinear_arith);
    assert(e7 * e3 == e3 * e7) by (nonlinear_arith);
    assert(e7 * e5 == e5 * e7) by (nonlinear_arith);
    assert((1680 * x) * (1680 * x) == 2822400 * (x * x)) by (nonlinear_arith);
    let z = 45 * y - (45 * e2 + 15 * e4 + 8 * e6);
    assert(z * t == 45 * (t * y) - (45 * (t * e2) + 15 * (t * e4) + 8 * (t * e6))) by (nonlinear_arith)
        requires
            z == 45 * y - (45 * e2 + 15 * e4 + 8 * e6),
    ;
    assert(62720 * (z * t) == (p + d) * (r + e) - p * r + (322560 * f8 + 57876 * f10 + 18900 * f12 + 5625 * f14));
    assert(1000000 * size(z * t) <= 25000 * (t * t));
    lemma_per(z, t, 25000);
}

/// The third power of an arc sine, from its powers 2 and 1.
proof fn lemma_third_power(
    t: int,
    x: int,
    v: int,
    y: int,
    e1: int,
    e2: int,
    e3: int,
    e4: int,
    e5: int,
    e6: int,
    e7: int,
    f9: int,
    f11: int,
    f13: int,
)
    requires
        0 < t,
        2 * size(e1) <= t,
        4 * size(e2) <= t,
        8 * size(e3) <= t,
        16 * size(e4) <= t,
        32 * size(e5) <= t,
        64 * size(e6) <= t,
        128 * size(e7) <= t,
        512 * size(f9) <= t * t,
        2048 * size(f11) <= t * t,
        8192 * size(f13) <= t * t,
        e2 * e1 == t * e3,
        e2 * e3 == t * e5,
        e2 * e5 == t * e7,
        e2 * e7 == f9,
        e4 * e1 == t * e5,
        e4 * e3 == t * e7,
        e4 * e5 == f9,
        e4 * e7 == f11,
        e6 * e1 == t * e7,
        e6 * e3 == f9,
        e6 * e5 == f11,
        e6 * e7 == f13,
        x * v == t * y,
        1000000 * size(45 * x - (45 * e2 + 15 * e4 + 8 * e6)) <= 25000 * t,
        1000000 * size(1680 * v - (1680 * e1 + 280 * e3 + 126 * e5 + 75 * e7)) <= 112000 * t,
    ensures
        1000000 * size(120 * y - (120 * e3 + 60 * e5 + 37 * e7)) <= 66667 * t,
{
    let p = 45 * e2 + 15 * e4 + 8 * e6;
    let r = 1680 * e1 + 280 * e3 + 126 * e5 + 75 * e7;
    let (d, e) = (45 * x - p, 1680 * v - r);
    lemma_cross(t, p, d, r, e, 12312500, 25000, 879523438, 112000, 23369885950000);
    assert(p * r == 45 * (e2 * r) + 15 * (e4 * r) + 8 * (e6 * r)) by (nonlinear_arith)
        requires
            p == 45 * e2 + 15 * e4 + 8 * e6,
    ;
    assert(e2 * r == 1680 * (e2 * e1) + 280 * (e2 * e3) + 126 * (e2 * e5) + 75 * (e2 * e7)) by (nonlinear_arith)
        requires
            r == 1680 * e1 + 280 * e3 + 126 * e5 + 75 * e7,
    ;
    assert(e4 * r == 1680 * (e4 * e1) + 280 * (e4 * e3) + 126 * (e4 * e5) + 75 * (e4 * e7)) by (nonlinear_arith)
        requires
            r == 1680 * e1 + 280 * e3 + 126 * e5 + 75 * e7,
    ;
    assert(e6 * r == 1680 * (e6 * e1) + 280 * (e6 * e3) + 126 * (e6 * e5) + 75 * (e6 * e7)) by (nonlinear_arith)
        requires
            r == 1680 * e1 + 280 * e3 + 126 * e5 + 75 * e7,
    ;
    assert((45 * x) * (1680 * v) == 75600 * (x * v)) by (nonlinear_arith);
    let z = 120 * y - (120 * e3 + 60 * e5 + 37 * e7);
    assert(z * t == 120 * (t * y) - (120 * (t * e3) + 60 * (t * e5) + 37 * (t * e7))) by (nonlinear_arith)
        requires
            z == 120 * y - (120 * e3 + 60 * e5 + 37 * e7),
    ;
    assert(630 * (z * t) == (p + d) * (r + e) - p * r + (7505 * f9 + 2133 * f11 + 600 * f13));
    assert(1000000 * size(z * t) <= 66667 * (t * t));
    lemma_per(z, t, 66667);
}

/// The fifth power of an arc sine, from its powers 3 and 2.
proof fn lemma_fifth_power(
    t: int,
    x: int,
    v: int,
    y: int,
    e2: int,
    e3: int,
    e4: int,
    e5: int,
    e6: int,
    e7: int,
    f9: int,
    f11: int,
    f13: int,
)
    requires
        0 < t,
        4 * size(e2) <= t,
        8 * size(e3) <= t,
        16 * size(e4) <= t,
        32 * size(e5) <= t,
        64 * size(e6) <= t,
        128 * size(e7) <= t,
        512 * size(f9) <= t * t,
        2048 * size(f11) <= t * t,
        8192 * size(f13) <= t * t,
        e3 * e2 == t * e5,
        e3 * e4 == t * e7,
        e3 * e6 == f9,
        e5 * e2 == t * e7,
        e5 * e4 == f9,
        e5 * e6 == f11,
        e7 * e2 == f9,
        e7 * e4 == f11,
        e7 * e6 == f13,
        x * v == t * y,
        1000000 * size(120 * x - (120 * e3 + 60 * e5 + 37 * e7)) <= 66667 * t,
        1000000 * size(45 * v - (45 * e2 + 15 * e4 + 8 * e6)) <= 25000 * t,
    ensures
        1000000 * size(6 * y - (6 * e5 + 5 * e7)) <= 10000 * t,
{
    let p = 120 * e3 + 60 * e5 + 37 * e7;
    let r = 45 * e2 + 15 * e4 + 8 * e6;
    let (d, e) = (120 * x - p, 45 * v - r);
    lemma_cross(t, p, d, r, e, 17164063, 66667, 12312500, 25000, 1251605687500);
    assert(p * r == 120 * (e3 * r) + 60 * (e5 * r) + 37 * (e7 * r)) by (nonlinear_arith)
        requires
            p == 120 * e3 + 60 * e5 + 37 * e7,
    ;
    assert(e3 * r == 45 * (e3 * e2) + 15 * (e3 * e4) + 8 * (e3 * e6)) by (nonlinear_arith)
        requires
            r == 45 * e2 + 15 * e4 + 8 * e6,
    ;
    assert(e5 * r == 45 * (e5 * e2) + 15 * (e5 * e4) + 8 * (e5 * e6)) by (nonlinear_arith)
        requires
            r == 45 * e2 + 15 * e4 + 8 * e6,
    ;
    assert(e7 * r == 45 * (e7 * e2) + 15 * (e7 * e4) + 8 * (e7 * e6)) by (nonlinear_arith)
        requires
            r == 45 * e2 + 15 * e4 + 8 * e6,
    ;
    assert((120 * x) * (45 * v) == 5400 * (x * v)) by (nonlinear_arith);
    let z = 6 * y - (6 * e5 + 5 * e7);
    assert(z * t == 6 * (t * y) - (6 * (t * e5) + 5 * (t * e7))) by (nonlinear_arith)
        requires
            z == 6 * y - (6 * e5 + 5 * e7),
    ;
    assert(900 * (z * t) == (p + d) * (r + e) - p * r + (3525 * f9 + 1035 * f11 + 296 * f13));
    assert(1000000 * size(z * t) <= 10000 * (t * t));
    lemma_per(z, t, 10000);
}

/// The seventh power of an arc sine, from its powers 5 and 2.
proof fn lemma_seventh_power(
    t: int,
    x: int,
    v: int,
    y: int,
    e2: int,
    e4: int,
    e5: int,
    e6: int,
    e7: int,
    f9: int,
    f11: int,
    f13: int,
)
    requires
        0 < t,
        4 * size(e2) <= t,
        16 * size(e4) <= t,
        32 * size(e5) <= t,
        64 * size(e6) <= t,
        128 * size(e7) <= t,
        512 * size(f9) <= t * t,
        2048 * size(f11) <= t * t,
        8192 * size(f13) <= t * t,
        e5 * e2 == t * e7,
        e5 * e4 == f9,
        e5 * e6 == f11,
        e7 * e2 == f9,
        e7 * e4 == f11,
        e7 * e6 == f13,
        x * v == t * y,
        1000000 * size(6 * x - (6 * e5 + 5 * e7)) <= 10000 * t,
        1000000 * size(45 * v - (45 * e2 + 15 * e4 + 8 * e6)) <= 25000 * t,
    ensures
        1000000 * size(y - (e7)) <= 3334 * t,
{
    let p = 6 * e5 + 5 * e7;
    let r = 45 * e2 + 15 * e4 + 8 * e6;
    let (d, e) = (6 * x - p, 45 * v - r);
    lemma_cross(t, p, d, r, e, 226563, 10000, 12312500, 25000, 129039075000);
    assert(p * r == 6 * (e5 * r) + 5 * (e7 * r)) by (nonlinear_arith)
        requires
            p == 6 * e5 + 5 * e7,
    ;
    assert(e5 * r == 45 * (e5 * e2) + 15 * (e5 * e4) + 8 * (e5 * e6)) by (nonlinear_arith)
        requires
            r == 45 * e2 + 15 * e4 + 8 * e6,
    ;
    assert(e7 * r == 45 * (e7 * e2) + 15 * (e7 * e4) + 8 * (e7 * e6)) by (nonlinear_arith)
        requires
            r == 45 * e2 + 15 * e4 + 8 * e6,
    ;
    assert((6 * x) * (45 * v) == 270 * (x * v)) by (nonlinear_arith);
    let z = y - (e7);
    assert(z * t == (t * y) - ((t * e7))) by (nonlinear_arith)
        requires
            z == y - (e7),
    ;
    assert(270 * (z * t) == (p + d) * (r + e) - p * r + (315 * f9 + 123 * f11 + 40 * f13));
    assert(1000000 * size(z * t) <= 3334 * (t * t));
    lemma_per(z, t, 3334);
}


/// One more power of a number up to a half makes at most half as much.
proof fn lemma_halving(x: int, k: int, i: nat, d: nat)
    requires
        0 < k,
        2 * size(x) <= k,
        i < d,
    ensures
        2 * size(term(x, k, i + 1, d)) <= size(term(x, k, i, d)),
{
    let (m, n) = (term(x, k, i, d), term(x, k, i + 1, d));
    lemma_terms(x, k, 1, 1, i, d);
    lemma_terms(x, k, 0, 1, i + 1, d);
    lemma_first_terms(x, k);
    assert(size(x * m) == size(x) * size(m) && size(k * n) == k * size(n)) by (nonlinear_arith)
        requires
            0 < k,
    ;
    assert(2 * size(n) <= size(m)) by (nonlinear_arith)
        requires
            2 * size(x) <= k,
            size(x) * size(m) == k * size(n),
            0 <= size(m),
            0 < k,
    ;
}

/// Powers of a number up to a half.
proof fn lemma_small_powers(y: int, k: int)
    requires
        0 < k,
        2 * size(y) <= k,
    ensures
        2 * size(term(y, k, 1, 10)) <= pow(k, 10),
        4 * size(term(y, k, 2, 10)) <= pow(k, 10),
        8 * size(term(y, k, 3, 10)) <= pow(k, 10),
        16 * size(term(y, k, 4, 10)) <= pow(k, 10),
        32 * size(term(y, k, 5, 10)) <= pow(k, 10),
        64 * size(term(y, k, 6, 10)) <= pow(k, 10),
        128 * size(term(y, k, 7, 10)) <= pow(k, 10),
        512 * size(term(y, k, 9, 10)) <= pow(k, 10),
        256 * size(term(y, k, 8, 20)) <= pow(k, 10) * pow(k, 10),
        512 * size(term(y, k, 9, 20)) <= pow(k, 10) * pow(k, 10),
        1024 * size(term(y, k, 10, 20)) <= pow(k, 10) * pow(k, 10),
        2048 * size(term(y, k, 11, 20)) <= pow(k, 10) * pow(k, 10),
        4096 * size(term(y, k, 12, 20)) <= pow(k, 10) * pow(k, 10),
        8192 * size(term(y, k, 13, 20)) <= pow(k, 10) * pow(k, 10),
        16384 * size(term(y, k, 14, 20)) <= pow(k, 10) * pow(k, 10),
{
    lemma_pow_positive(k, 10);
    lemma_pow_positive(k, 20);
    lemma_pow_adds(k, 10, 10);
    lemma_first_terms(y, k);
    lemma_halving(y, k, 0, 10);
    lemma_halving(y, k, 1, 10);
    lemma_halving(y, k, 2, 10);
    lemma_halving(y, k, 3, 10);
    lemma_halving(y, k, 4, 10);
    lemma_halving(y, k, 5, 10);
    lemma_halving(y, k, 6, 10);
    lemma_halving(y, k, 7, 10);
    lemma_halving(y, k, 8, 10);
    lemma_halving(y, k, 0, 20);
    lemma_halving(y, k, 1, 20);
    lemma_halving(y, k, 2, 20);
    lemma_halving(y, k, 3, 20);
    lemma_halving(y, k, 4, 20);
    lemma_halving(y, k, 5, 20);
    lemma_halving(y, k, 6, 20);
    lemma_halving(y, k, 7, 20);
    lemma_halving(y, k, 8, 20);
    lemma_halving(y, k, 9, 20);
    lemma_halving(y, k, 10, 20);
    lemma_halving(y, k, 11, 20);
    lemma_halving(y, k, 12, 20);
    lemma_halving(y, k, 13, 20);
}

/// Products of powers of a number.
proof fn lemma_power_table(y: int, k: int)
    ensures
        term(y, k, 1, 10) * term(y, k, 1, 10) == term(y, k, 2, 20),
        term(y, k, 1, 10) * term(y, k, 3, 10) == term(y, k, 4, 20),
        term(y, k, 1, 10) * term(y, k, 5, 10) == term(y, k, 6, 20),
        term(y, k, 1, 10) * term(y, k, 7, 10) == term(y, k, 8, 20),
        term(y, k, 3, 10) * term(y, k, 3, 10) == term(y, k, 6, 20),
        term(y, k, 3, 10) * term(y, k, 5, 10) == term(y, k, 8, 20),
        term(y, k, 3, 10) * term(y, k, 7, 10) == term(y, k, 10, 20),
        term(y, k, 5, 10) * term(y, k, 5, 10) == term(y, k, 10, 20),
        term(y, k, 5, 10) * term(y, k, 7, 10) == term(y, k, 12, 20),
        term(y, k, 7, 10) * term(y, k, 7, 10) == term(y, k, 14, 20),
        term(y, k, 2, 10) * term(y, k, 1, 10) == term(y, k, 3, 20),
        term(y, k, 2, 10) * term(y, k, 3, 10) == term(y, k, 5, 20),
        term(y, k, 2, 10) * term(y, k, 5, 10) == term(y, k, 7, 20),
        term(y, k, 2, 10) * term(y, k, 7, 10) == term(y, k, 9, 20),
        term(y, k, 4, 10) * term(y, k, 1, 10) == term(y, k, 5, 20),
        term(y, k, 4, 10) * term(y, k, 3, 10) == term(y, k, 7, 20),
        term(y, k, 4, 10) * term(y, k, 5, 10) == term(y, k, 9, 20),
        term(y, k, 4, 10) * term(y, k, 7, 10) == term(y, k, 11, 20),
        term(y, k, 6, 10) * term(y, k, 1, 10) == term(y, k, 7, 20),
        term(y, k, 6, 10) * term(y, k, 3, 10) == term(y, k, 9, 20),
        term(y, k, 6, 10) * term(y, k, 5, 10) == term(y, k, 11, 20),
        term(y, k, 6, 10) * term(y, k, 7, 10) == term(y, k, 13, 20),
        term(y, k, 3, 10) * term(y, k, 2, 10) == term(y, k, 5, 20),
        term(y, k, 3, 10) * term(y, k, 4, 10) == term(y, k, 7, 20),
        term(y, k, 3, 10) * term(y, k, 6, 10) == term(y, k, 9, 20),
        term(y, k, 5, 10) * term(y, k, 2, 10) == term(y, k, 7, 20),
        term(y, k, 5, 10) * term(y, k, 4, 10) == term(y, k, 9, 20),
        term(y, k, 5, 10) * term(y, k, 6, 10) == term(y, k, 11, 20),
        term(y, k, 7, 10) * term(y, k, 2, 10) == term(y, k, 9, 20),
        term(y, k, 7, 10) * term(y, k, 4, 10) == term(y, k, 11, 20),
        term(y, k, 7, 10) * term(y, k, 6, 10) == term(y, k, 13, 20),
        term(y, k, 2, 20) == pow(k, 10) * term(y, k, 2, 10),
        term(y, k, 3, 20) == pow(k, 10) * term(y, k, 3, 10),
        term(y, k, 4, 20) == pow(k, 10) * term(y, k, 4, 10),
        term(y, k, 5, 20) == pow(k, 10) * term(y, k, 5, 10),
        term(y, k, 6, 20) == pow(k, 10) * term(y, k, 6, 10),
        term(y, k, 7, 20) == pow(k, 10) * term(y, k, 7, 10),
{
    lemma_first_terms(y, k);
    lemma_terms(y, k, 1, 10, 1, 10);
    lemma_terms(y, k, 1, 10, 3, 10);
    lemma_terms(y, k, 1, 10, 5, 10);
    lemma_terms(y, k, 1, 10, 7, 10);
    lemma_terms(y, k, 3, 10, 3, 10);
    lemma_terms(y, k, 3, 10, 5, 10);
    lemma_terms(y, k, 3, 10, 7, 10);
    lemma_terms(y, k, 5, 10, 5, 10);
    lemma_terms(y, k, 5, 10, 7, 10);
    lemma_terms(y, k, 7, 10, 7, 10);
    lemma_terms(y, k, 2, 10, 1, 10);
    lemma_terms(y, k, 2, 10, 3, 10);
    lemma_terms(y, k, 2, 10, 5, 10);
    lemma_terms(y, k, 2, 10, 7, 10);
    lemma_terms(y, k, 4, 10, 1, 10);
    lemma_terms(y, k, 4, 10, 3, 10);
    lemma_terms(y, k, 4, 10, 5, 10);
    lemma_terms(y, k, 4, 10, 7, 10);
    lemma_terms(y, k, 6, 10, 1, 10);
    lemma_terms(y, k, 6, 10, 3, 10);
    lemma_terms(y, k, 6, 10, 5, 10);
    lemma_terms(y, k, 6, 10, 7, 10);
    lemma_terms(y, k, 3, 10, 2, 10);
    lemma_terms(y, k, 3, 10, 4, 10);
    lemma_terms(y, k, 3, 10, 6, 10);
    lemma_terms(y, k, 5, 10, 2, 10);
    lemma_terms(y, k, 5, 10, 4, 10);
    lemma_terms(y, k, 5, 10, 6, 10);
    lemma_terms(y, k, 7, 10, 2, 10);
    lemma_terms(y, k, 7, 10, 4, 10);
    lemma_terms(y, k, 7, 10, 6, 10);
    lemma_terms(y, k, 0, 10, 2, 10);
    lemma_terms(y, k, 0, 10, 3, 10);
    lemma_terms(y, k, 0, 10, 4, 10);
    lemma_terms(y, k, 0, 10, 5, 10);
    lemma_terms(y, k, 0, 10, 6, 10);
    lemma_terms(y, k, 0, 10, 7, 10);
}

/// Powers of an arc sine are products of lower ones.
proof fn lemma_arc_powers(z: int, k: int)
    ensures
        term(z, k, 1, 10) * term(z, k, 1, 10) == pow(k, 10) * term(z, k, 2, 10),
        term(z, k, 2, 10) * term(z, k, 1, 10) == pow(k, 10) * term(z, k, 3, 10),
        term(z, k, 3, 10) * term(z, k, 2, 10) == pow(k, 10) * term(z, k, 5, 10),
        term(z, k, 5, 10) * term(z, k, 2, 10) == pow(k, 10) * term(z, k, 7, 10),
        term(z, k, 7, 10) * term(z, k, 2, 10) == pow(k, 10) * term(z, k, 9, 10),
{
    lemma_first_terms(z, k);
    lemma_terms(z, k, 1, 10, 1, 10);
    lemma_terms(z, k, 0, 10, 2, 10);
    lemma_terms(z, k, 2, 10, 1, 10);
    lemma_terms(z, k, 0, 10, 3, 10);
    lemma_terms(z, k, 3, 10, 2, 10);
    lemma_terms(z, k, 0, 10, 5, 10);
    lemma_terms(z, k, 5, 10, 2, 10);
    lemma_terms(z, k, 0, 10, 7, 10);
    lemma_terms(z, k, 7, 10, 2, 10);
    lemma_terms(z, k, 0, 10, 9, 10);
}

/// The sine's polynomial of an arc sine: what is left of it.
proof fn lemma_remainder(
    t: int,
    x1: int,
    x3: int,
    x5: int,
    x7: int,
    x9: int,
    e1: int,
    e3: int,
    e5: int,
    e7: int,
)
    requires
        1000000 * size(1680 * x1 - (1680 * e1 + 280 * e3 + 126 * e5 + 75 * e7)) <= 112000 * t,
        1000000 * size(120 * x3 - (120 * e3 + 60 * e5 + 37 * e7)) <= 66667 * t,
        1000000 * size(6 * x5 - (6 * e5 + 5 * e7)) <= 10000 * t,
        1000000 * size(x7 - e7) <= 3334 * t,
        100 * size(x9) <= t,
    ensures
        size(362880 * x1 - 60480 * x3 + 3024 * x5 - 72 * x7 + x9 - 362880 * e1) <= 64 * t,
{
}

/// The ninth power of an arc sine.
proof fn lemma_ninth_power(t: int, x2: int, x7: int, x9: int, e2: int, e4: int, e6: int, e7: int)
    requires
        0 < t,
        4 * size(e2) <= t,
        16 * size(e4) <= t,
        64 * size(e6) <= t,
        128 * size(e7) <= t,
        1000000 * size(45 * x2 - (45 * e2 + 15 * e4 + 8 * e6)) <= 25000 * t,
        1000000 * size(x7 - e7) <= 3334 * t,
        x7 * x2 == t * x9,
    ensures
        100 * size(x9) <= t,
{
    assert(100 * size(x7) <= 2 * t && 2 * size(x2) <= t);
    lemma_size_of_product(100 * x7, 2 * x2, 2 * t, t);
    assert((100 * x7) * (2 * x2) == 200 * (x7 * x2) && (2 * t) * t == 2 * (t * t)) by (nonlinear_arith);
    assert(size(t * x9) == t * size(x9)) by (nonlinear_arith)
        requires
            0 < t,
    ;
    assert(100 * size(x9) <= t) by (nonlinear_arith)
        requires
            200 * (t * size(x9)) <= 2 * (t * t),
            0 < t,
    ;
}

/// The polynomial of the sine, at what the polynomial of the arc sine comes to.
proof fn lemma_composition(y: int, z: int, k: int)
    requires
        0 < k,
        2 * size(y) <= k,
        INTEGERS * size(40320 * term(z, k, 1, 10) - arc_part(y, k)) <= 60 * (40320 * pow(k, 10)),
    ensures
        size(odd_part(z, k) - 362880 * term(y, k, 1, 10)) <= 64 * pow(k, 10),
{
    let t = pow(k, 10);
    lemma_pow_positive(k, 10);
    lemma_small_powers(y, k);
    lemma_power_table(y, k);
    lemma_arc_powers(z, k);
    lemma_second_power(
        t,
        term(z, k, 1, 10),
        term(z, k, 2, 10),
        term(y, k, 1, 10),
        term(y, k, 2, 10),
        term(y, k, 3, 10),
        term(y, k, 4, 10),
        term(y, k, 5, 10),
        term(y, k, 6, 10),
        term(y, k, 7, 10),
        term(y, k, 8, 20),
        term(y, k, 10, 20),
        term(y, k, 12, 20),
        term(y, k, 14, 20),
    );
    lemma_third_power(
        t,
        term(z, k, 2, 10),
        term(z, k, 1, 10),
        term(z, k, 3, 10),
        term(y, k, 1, 10),
        term(y, k, 2, 10),
        term(y, k, 3, 10),
        term(y, k, 4, 10),
        term(y, k, 5, 10),
        term(y, k, 6, 10),
        term(y, k, 7, 10),
        term(y, k, 9, 20),
        term(y, k, 11, 20),
        term(y, k, 13, 20),
    );
    lemma_fifth_power(
        t,
        term(z, k, 3, 10),
        term(z, k, 2, 10),
        term(z, k, 5, 10),
        term(y, k, 2, 10),
        term(y, k, 3, 10),
        term(y, k, 4, 10),
        term(y, k, 5, 10),
        term(y, k, 6, 10),
        term(y, k, 7, 10),
        term(y, k, 9, 20),
        term(y, k, 11, 20),
        term(y, k, 13, 20),
    );
    lemma_seventh_power(
        t,
        term(z, k, 5, 10),
        term(z, k, 2, 10),
        term(z, k, 7, 10),
        term(y, k, 2, 10),
        term(y, k, 4, 10),
        term(y, k, 5, 10),
        term(y, k, 6, 10),
        term(y, k, 7, 10),
        term(y, k, 9, 20),
        term(y, k, 11, 20),
        term(y, k, 13, 20),
    );
    lemma_ninth_power(t, term(z, k, 2, 10), term(z, k, 7, 10), term(z, k, 9, 10), term(y, k, 2, 10), term(y, k, 4, 10), term(y, k, 6, 10), term(y, k, 7, 10));
    lemma_remainder(t, term(z, k, 1, 10), term(z, k, 3, 10), term(z, k, 5, 10), term(z, k, 7, 10), term(z, k, 9, 10), term(y, k, 1, 10), term(y, k, 3, 10), term(y, k, 5, 10), term(y, k, 7, 10));
}

/// From an error of products with the ninth power of one to the error itself.
proof fn lemma_undone(r: int, y: int)
    requires
        5500 * size(r * pow(one(), 9) - y * pow(one(), 9)) <= pow(one(), 10),
    ensures
        5500 * size(r - y) <= one(),
{
    let (k, q, d) = (one(), pow(one(), 9), r - y);
    lemma_one_is_large();
    lemma_pow_positive(k, 9);
    lemma_pow_adds(k, 1, 9);
    lemma_pow1(k);
    assert(d * q == r * q - y * q) by (nonlinear_arith)
        requires
            d == r - y,
    ;
    assert(size(d * q) == size(d) * q) by (nonlinear_arith)
        requires
            0 < q,
    ;
    assert(5500 * size(d) <= k) by (nonlinear_arith)
        requires
            5500 * (size(d) * q) <= k * q,
            0 < q,
    ;
}

/// A product that is known is cancelled.
proof fn lemma_cancel(t: int, a: int, b: int)
    requires
        0 < t,
        t * a == t * b,
    ensures
        a == b,
{
    assert(a == b) by (nonlinear_arith)
        requires
            0 < t,
            t * a == t * b,
    ;
}

/// The sine's polynomial of the opposite angle.
proof fn lemma_opposite(z: int, k: int)
    requires
        0 < k,
    ensures
        odd_part(-z, k) == -odd_part(z, k),
{
    let (t, q) = (pow(k, 10), pow(k, 9));
    lemma_pow_positive(k, 10);
    lemma_first_terms(z, k);
    lemma_first_terms(-z, k);
    lemma_arc_powers(z, k);
    lemma_arc_powers(-z, k);
    assert((-z) * q == -(z * q)) by (nonlinear_arith);
    let (a1, a2, a3) = (term(z, k, 1, 10), term(z, k, 2, 10), term(z, k, 3, 10));
    let (a5, a7, a9) = (term(z, k, 5, 10), term(z, k, 7, 10), term(z, k, 9, 10));
    let (b1, b2, b3) = (term(-z, k, 1, 10), term(-z, k, 2, 10), term(-z, k, 3, 10));
    let (b5, b7, b9) = (term(-z, k, 5, 10), term(-z, k, 7, 10), term(-z, k, 9, 10));
    assert((-a1) * (-a1) == a1 * a1) by (nonlinear_arith);
    lemma_cancel(t, a2, b2);
    assert(a2 * (-a1) == -(a2 * a1) && t * (-a3) == -(t * a3)) by (nonlinear_arith);
    lemma_cancel(t, -a3, b3);
    assert((-a3) * a2 == -(a3 * a2) && t * (-a5) == -(t * a5)) by (nonlinear_arith);
    lemma_cancel(t, -a5, b5);
    assert((-a5) * a2 == -(a5 * a2) && t * (-a7) == -(t * a7)) by (nonlinear_arith);
    lemma_cancel(t, -a7, b7);
    assert((-a7) * a2 == -(a7 * a2) && t * (-a9) == -(t * a9)) by (nonlinear_arith);
    lemma_cancel(t, -a9, b9);
}

/// The sine undoes the arc sine, within 1/5500, for sines up to a half, and turns with
/// the sign of the angle.
pub proof fn sine_undoes_arc_sine<F: Fn(Operation) -> u32>(fpu: F, s: u32)
    requires
        accurate(fpu),
        finite(s),
        2 * size(scaled(s)) <= one(),
    ensures
        ({
            let theta = arc_sine(fpu, s);
            let (r, t) = (sine(fpu, theta), sine(fpu, negated(theta)));
            &&& finite(r) && 5500 * size(scaled(r) - scaled(s)) <= one()
            &&& finite(t) && 5500 * size(scaled(t) + scaled(s)) <= one()
        }),
{
    let (k, q, t, y) = (one(), pow(one(), 9), pow(one(), 10), scaled(s));
    let theta = arc_sine(fpu, s);
    let z = scaled(theta);
    lemma_one_is_large();
    lemma_arc_sine(fpu, s);
    arc_sines_are_small(fpu, s);
    negation_undoes_itself(theta);
    lemma_sine(fpu, theta);
    lemma_sine(fpu, negated(theta));
    lemma_first_terms(y, k);
    lemma_first_terms(z, k);
    lemma_composition(y, z, k);
    lemma_opposite(z, k);
    let (r, o) = (scaled(sine(fpu, theta)), scaled(sine(fpu, negated(theta))));
    assert((-y) * q == -(y * q)) by (nonlinear_arith);
    assert(5500 * size(r * q - y * q) <= t);
    assert(5500 * size(o * q - (-y) * q) <= t);
    lemma_undone(r, y);
    lemma_undone(o, -y);
}

/// One more power of an angle up to 0.6 makes at most 0.6 times as much.
proof fn lemma_decline(x: int, k: int, i: nat)
    requires
        0 < k,
        5 * size(x) <= 3 * k,
        i < 10,
    ensures
        5 * size(term(x, k, i + 1, 10)) <= 3 * size(term(x, k, i, 10)),
{
    let (m, n) = (term(x, k, i, 10), term(x, k, i + 1, 10));
    lemma_terms(x, k, 1, 1, i, 10);
    lemma_terms(x, k, 0, 1, i + 1, 10);
    lemma_first_terms(x, k);
    assert(size(x * m) == size(x) * size(m) && size(k * n) == k * size(n)) by (nonlinear_arith)
        requires
            0 < k,
    ;
    assert(5 * size(n) <= 3 * size(m)) by (nonlinear_arith)
        requires
            5 * size(x) <= 3 * k,
            size(x) * size(m) == k * size(n),
            0 <= size(m),
            0 < k,
    ;
}

/// The cosine of an angle up to 0.6 is at least a half.
proof fn lemma_cosine_of_small<F: Fn(Operation) -> u32>(fpu: F, x: u32)
    requires
        accurate(fpu),
        finite(x),
        5 * size(scaled(x)) <= 3 * one(),
    ensures
        finite(cosine(fpu, x)),
        one() <= 2 * scaled(cosine(fpu, x)),
{
    let (k, q, t, y) = (one(), pow(one(), 9), pow(one(), 10), scaled(x));
    lemma_one_is_large();
    lemma_cosine(fpu, x);
    lemma_first_terms(y, k);
    lemma_pow_positive(k, 9);
    lemma_pow_positive(k, 10);
    lemma_pow_adds(k, 1, 9);
    lemma_pow1(k);
    lemma_decline(y, k, 0);
    lemma_decline(y, k, 1);
    lemma_decline(y, k, 2);
    lemma_decline(y, k, 3);
    lemma_decline(y, k, 4);
    lemma_decline(y, k, 5);
    lemma_decline(y, k, 6);
    lemma_decline(y, k, 7);
    let c = scaled(cosine(fpu, x));
    assert(even_part(y, k) >= 200000 * t);
    assert(k * q <= 2 * (c * q));
    assert(k <= 2 * c) by (nonlinear_arith)
        requires
            k * q <= 2 * (c * q),
            0 < q,
    ;
}

/// The cosine of an arc sine of up to a half is at least a half.
pub proof fn cosines_of_arc_sines_are_positive<F: Fn(Operation) -> u32>(fpu: F, s: u32)
    requires
        accurate(fpu),
        finite(s),
        2 * size(scaled(s)) <= one(),
    ensures
        ({
            let theta = arc_sine(fpu, s);
            let (c, d) = (cosine(fpu, theta), cosine(fpu, negated(theta)));
            &&& finite(c) && one() <= 2 * scaled(c)
            &&& finite(d) && one() <= 2 * scaled(d)
        }),
{
    let (k, q, y) = (one(), pow(one(), 9), scaled(s));
    let theta = arc_sine(fpu, s);
    let z = scaled(theta);
    lemma_one_is_large();
    lemma_arc_sine(fpu, s);
    negation_undoes_itself(theta);
    lemma_small_powers(y, k);
    lemma_pow_positive(k, 9);
    lemma_pow_positive(k, 10);
    lemma_pow_adds(k, 1, 9);
    lemma_pow1(k);
    assert(5 * size(z * q) <= 3 * (k * q));
    assert(size(z * q) == size(z) * q) by (nonlinear_arith)
        requires
            0 < q,
    ;
    assert(5 * size(z) <= 3 * k) by (nonlinear_arith)
        requires
            5 * (size(z) * q) <= 3 * (k * q),
            0 < q,
    ;
    lemma_cosine_of_small(fpu, theta);
    lemma_cosine_of_small(fpu, negated(theta));
}

} // verus!
