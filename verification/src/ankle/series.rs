//! Sine and cosine as polynomials of an angle, wound back to half a turn.
//!
//! Powers are counted as in [`crate::ankle::circle`].
use crate::ankle::accuracy::lemma_unit;
use crate::ankle::circle::{
    alternating, even_part, lemma_cosine_coefficients, lemma_first_terms, lemma_next_near, lemma_rounding,
    lemma_share, lemma_sine_coefficients, lemma_terms, limited, near, odd_part, term,
};
use crate::ankle::{
    cosine, sine, wound_back, wrapped, COS_4, COS_6, COS_8, FULL_TURN, HALF_TURN, HALF_TURN_NEG, MAX_TURNS,
    SIN_3, SIN_5, SIN_7, SIN_9,
};
use crate::arithmetic::{
    accurate, alike, difference, keeps_order, lemma_difference_error, lemma_one_is_large, lemma_sum_error,
    product, respects_signs, size, sum, Operation, HALF, INTEGERS, ONE,
};
use crate::binary32::{at_most, below, finite, nan, negated, negation_undoes_itself, one, same, scaled};
use vstd::arithmetic::power::{lemma_pow1, lemma_pow_adds, lemma_pow_positive, pow};
use vstd::arithmetic::power2::{lemma2_to64, lemma_pow2_adds, pow2};
use vstd::prelude::*;

verus! {

/// One more power of an angle up to 3.15 makes at most 3.15 times as much.
proof fn lemma_growth(x: int, i: nat)
    requires
        20 * size(x) <= 63 * one(),
        i < 10,
    ensures
        20 * size(term(x, one(), i + 1, 10)) <= 63 * size(term(x, one(), i, 10)),
{
    let k = one();
    let (m, n) = (term(x, k, i, 10), term(x, k, i + 1, 10));
    lemma_one_is_large();
    lemma_terms(x, k, 1, 1, i, 10);
    lemma_terms(x, k, 0, 1, i + 1, 10);
    lemma_first_terms(x, k);
    assert(size(x * m) == size(x) * size(m) && size(k * n) == k * size(n)) by (nonlinear_arith)
        requires
            0 < k,
    ;
    assert(20 * size(n) <= 63 * size(m)) by (nonlinear_arith)
        requires
            20 * size(x) <= 63 * k,
            size(x) * size(m) == k * size(n),
            0 <= size(m),
            0 < k,
    ;
}

/// Powers of an angle up to 3.15.
proof fn lemma_powers(x: int)
    requires
        20 * size(x) <= 63 * one(),
    ensures
        term(x, one(), 0, 10) == pow(one(), 10),
        limited(x, 1, 4) && limited(x, 2, 10) && limited(x, 3, 32) && limited(x, 4, 99),
        limited(x, 5, 311) && limited(x, 6, 978) && limited(x, 7, 3079) && limited(x, 8, 9695),
        limited(x, 9, 30536),
{
    lemma_one_is_large();
    lemma_first_terms(x, one());
    lemma_pow_positive(one(), 10);
    lemma_growth(x, 0);
    lemma_growth(x, 1);
    lemma_growth(x, 2);
    lemma_growth(x, 3);
    lemma_growth(x, 4);
    lemma_growth(x, 5);
    lemma_growth(x, 6);
    lemma_growth(x, 7);
    lemma_growth(x, 8);
}

/// A sum that alternates, counted against the tenth power of one.
proof fn lemma_alternating<F: Fn(Operation) -> u32>(fpu: F, a: u32, b: u32, c: u32, d: u32, e: u32)
    requires
        accurate(fpu),
        finite(a) && finite(b) && finite(c) && finite(d) && finite(e),
        size(scaled(a)) <= 4 * one(),
        size(scaled(b)) <= 6 * one(),
        size(scaled(c)) <= 5 * one(),
        size(scaled(d)) <= 2 * one(),
        size(scaled(e)) <= one(),
    ensures
        ({
            let s = alternating(fpu, a, b, c, d, e);
            let q = pow(one(), 9);
            &&& finite(s)
            &&& INTEGERS * size(
                scaled(s) * q - (scaled(a) * q - scaled(b) * q + scaled(c) * q - scaled(d) * q + scaled(e)
                    * q),
            ) <= 72 * pow(one(), 10)
        }),
{
    let (k, q) = (one(), pow(one(), 9));
    lemma_one_is_large();
    let (v, w, x, y, z) = (scaled(a), scaled(b), scaled(c), scaled(d), scaled(e));
    let first = difference(fpu, a, b);
    lemma_difference_error(fpu, a, b);
    let n = scaled(first);
    assert(INTEGERS * size(n - (v - w)) <= 16 * k && size(n) <= 11 * k);
    let second = sum(fpu, first, c);
    lemma_sum_error(fpu, first, c);
    let o = scaled(second);
    assert(INTEGERS * size(o - (n + x)) <= 16 * k && 10 * size(o) <= 161 * k);
    let third = difference(fpu, second, d);
    lemma_difference_error(fpu, second, d);
    let p = scaled(third);
    assert(INTEGERS * size(p - (o - y)) <= 20 * k && 10 * size(p) <= 182 * k);
    lemma_sum_error(fpu, third, e);
    let s = scaled(sum(fpu, third, e));
    assert(INTEGERS * size(s - (p + z)) <= 20 * k);
    let f = s - (v - w + x - y + z);
    lemma_adding_up(v, w, x, y, z, n, o, p, s, q);
    lemma_rounding(f, 72);
}

/// Four errors add up.
proof fn lemma_adding_up(v: int, w: int, x: int, y: int, z: int, n: int, o: int, p: int, s: int, q: int)
    requires
        INTEGERS * size(n - (v - w)) <= 16 * one(),
        INTEGERS * size(o - (n + x)) <= 16 * one(),
        INTEGERS * size(p - (o - y)) <= 20 * one(),
        INTEGERS * size(s - (p + z)) <= 20 * one(),
    ensures
        INTEGERS * size(s - (v - w + x - y + z)) <= 72 * one(),
        s * q - (v * q - w * q + x * q - y * q + z * q) == (s - (v - w + x - y + z)) * q,
{
    assert(s * q - (v * q - w * q + x * q - y * q + z * q) == (s - (v - w + x - y + z)) * q)
        by (nonlinear_arith);
}

/// The sine is the polynomial `x - x^3/6 + x^5/120 - x^7/5040 + x^9/362880` of the angle,
/// wound back, within 170 parts in 2^24.
pub proof fn sine_is_its_series<F: Fn(Operation) -> u32>(fpu: F, angle: u32)
    requires
        accurate(fpu),
        finite(wrapped(fpu, angle)),
        20 * size(scaled(wrapped(fpu, angle))) <= 63 * one(),
    ensures
        finite(sine(fpu, angle)),
        INTEGERS * size(
            362880 * (scaled(sine(fpu, angle)) * pow(one(), 9)) - odd_part(
                scaled(wrapped(fpu, angle)),
                one(),
            ),
        ) <= 170 * (362880 * pow(one(), 10)),
{
    let x = wrapped(fpu, angle);
    let y = scaled(x);
    lemma_one_is_large();
    lemma_powers(y);
    lemma_first_terms(y, one());
    lemma_sine_coefficients();
    let x2 = product(fpu, x, x);
    let x3 = product(fpu, x2, x);
    let x5 = product(fpu, x3, x2);
    let x7 = product(fpu, x5, x2);
    let x9 = product(fpu, x7, x2);
    assert(near(x, y, 1, 0));
    lemma_next_near(fpu, y, x, 1, 0, 4, x, 1, 0, 4, 27);
    lemma_next_near(fpu, y, x2, 2, 27, 10, x, 1, 0, 4, 165);
    lemma_next_near(fpu, y, x3, 3, 165, 32, x2, 2, 27, 10, 2879);
    lemma_next_near(fpu, y, x5, 5, 2879, 311, x2, 2, 27, 10, 40621);
    lemma_next_near(fpu, y, x7, 7, 40621, 3079, x2, 2, 27, 10, 523225);
    lemma_share(fpu, y, x3, 3, 165, 32, SIN_3, 6, 298);
    lemma_share(fpu, y, x5, 5, 2879, 311, SIN_5, 120, 4128);
    lemma_share(fpu, y, x7, 7, 40621, 3079, SIN_7, 5040, 52942);
    lemma_share(fpu, y, x9, 9, 523225, 30536, SIN_9, 362880, 645374);
    let (p3, p5) = (product(fpu, x3, SIN_3), product(fpu, x5, SIN_5));
    let (p7, p9) = (product(fpu, x7, SIN_7), product(fpu, x9, SIN_9));
    lemma_alternating(fpu, x, p3, p5, p7, p9);
    assert(sine(fpu, angle) == alternating(fpu, x, p3, p5, p7, p9));
    let q = pow(one(), 9);
    lemma_gather_sine(
        pow(one(), 10),
        scaled(sine(fpu, angle)) * q,
        y * q,
        scaled(p3) * q,
        scaled(p5) * q,
        scaled(p7) * q,
        scaled(p9) * q,
        term(y, one(), 1, 10),
        term(y, one(), 3, 10),
        term(y, one(), 5, 10),
        term(y, one(), 7, 10),
        term(y, one(), 9, 10),
    );
}

/// The errors of the sine's terms and of their sum.
proof fn lemma_gather_sine(
    t: int,
    s: int,
    p1: int,
    p3: int,
    p5: int,
    p7: int,
    p9: int,
    e1: int,
    e3: int,
    e5: int,
    e7: int,
    e9: int,
)
    requires
        p1 == e1,
        INTEGERS * size(6 * p3 - e3) <= 298 * t,
        INTEGERS * size(120 * p5 - e5) <= 4128 * t,
        INTEGERS * size(5040 * p7 - e7) <= 52942 * t,
        INTEGERS * size(362880 * p9 - e9) <= 645374 * t,
        INTEGERS * size(s - (p1 - p3 + p5 - p7 + p9)) <= 72 * t,
    ensures
        INTEGERS * size(362880 * s - (362880 * e1 - 60480 * e3 + 3024 * e5 - 72 * e7 + e9)) <= 170 * (
        362880 * t),
{
}

/// The cosine is the polynomial `1 - x^2/2 + x^4/24 - x^6/720 + x^8/40320` of the angle,
/// wound back, within 180 parts in 2^24.
pub proof fn cosine_is_its_series<F: Fn(Operation) -> u32>(fpu: F, angle: u32)
    requires
        accurate(fpu),
        finite(wrapped(fpu, angle)),
        20 * size(scaled(wrapped(fpu, angle))) <= 63 * one(),
    ensures
        finite(cosine(fpu, angle)),
        INTEGERS * size(
            362880 * (scaled(cosine(fpu, angle)) * pow(one(), 9)) - even_part(
                scaled(wrapped(fpu, angle)),
                one(),
            ),
        ) <= 180 * (362880 * pow(one(), 10)),
{
    let x = wrapped(fpu, angle);
    let y = scaled(x);
    lemma_one_is_large();
    lemma_unit();
    lemma_powers(y);
    lemma_first_terms(y, one());
    lemma_pow_adds(one(), 1, 9);
    lemma_pow1(one());
    lemma_cosine_coefficients();
    let x2 = product(fpu, x, x);
    let x4 = product(fpu, x2, x2);
    let x6 = product(fpu, x4, x2);
    let x8 = product(fpu, x6, x2);
    assert(near(x, y, 1, 0));
    lemma_next_near(fpu, y, x, 1, 0, 4, x, 1, 0, 4, 27);
    lemma_next_near(fpu, y, x2, 2, 27, 10, x2, 2, 27, 10, 663);
    lemma_next_near(fpu, y, x4, 4, 663, 99, x2, 2, 27, 10, 10405);
    lemma_next_near(fpu, y, x6, 6, 10405, 978, x2, 2, 27, 10, 141227);
    lemma_share(fpu, y, x2, 2, 27, 10, HALF, 2, 72);
    lemma_share(fpu, y, x4, 4, 663, 99, COS_4, 24, 1064);
    lemma_share(fpu, y, x6, 6, 10405, 978, COS_6, 720, 14322);
    lemma_share(fpu, y, x8, 8, 141227, 9695, COS_8, 40320, 180012);
    let (p2, p4) = (product(fpu, x2, HALF), product(fpu, x4, COS_4));
    let (p6, p8) = (product(fpu, x6, COS_6), product(fpu, x8, COS_8));
    lemma_alternating(fpu, ONE, p2, p4, p6, p8);
    assert(cosine(fpu, angle) == alternating(fpu, ONE, p2, p4, p6, p8));
    let q = pow(one(), 9);
    lemma_gather_cosine(
        pow(one(), 10),
        scaled(cosine(fpu, angle)) * q,
        one() * q,
        scaled(p2) * q,
        scaled(p4) * q,
        scaled(p6) * q,
        scaled(p8) * q,
        term(y, one(), 0, 10),
        term(y, one(), 2, 10),
        term(y, one(), 4, 10),
        term(y, one(), 6, 10),
        term(y, one(), 8, 10),
    );
}

/// The errors of the cosine's terms and of their sum.
proof fn lemma_gather_cosine(
    t: int,
    s: int,
    p0: int,
    p2: int,
    p4: int,
    p6: int,
    p8: int,
    e0: int,
    e2: int,
    e4: int,
    e6: int,
    e8: int,
)
    requires
        p0 == e0,
        INTEGERS * size(2 * p2 - e2) <= 72 * t,
        INTEGERS * size(24 * p4 - e4) <= 1064 * t,
        INTEGERS * size(720 * p6 - e6) <= 14322 * t,
        INTEGERS * size(40320 * p8 - e8) <= 180012 * t,
        INTEGERS * size(s - (p0 - p2 + p4 - p6 + p8)) <= 72 * t,
    ensures
        INTEGERS * size(362880 * s - (362880 * e0 - 181440 * e2 + 15120 * e4 - 504 * e6 + 9 * e8)) <= 180 * (
        362880 * t),
{
}

/// Half a turn and a full one.
proof fn lemma_turns()
    ensures
        finite(HALF_TURN) && finite(HALF_TURN_NEG) && finite(FULL_TURN),
        scaled(HALF_TURN_NEG) == -scaled(HALF_TURN),
        scaled(FULL_TURN) == 2 * scaled(HALF_TURN),
        628318 * one() <= 100000 * scaled(FULL_TURN) <= 628319 * one(),
{
    lemma2_to64();
    lemma_pow2_adds(127, 22);
    lemma_pow2_adds(127, 1);
    assert(scaled(HALF_TURN) == 0xC9_0FDB * pow2(127));
    assert(scaled(HALF_TURN_NEG) == -0xC9_0FDB * pow2(127));
    assert(scaled(FULL_TURN) == 0xC9_0FDB * pow2(128));
}

/// A full turn less than half a turn is half a turn the other way.
proof fn lemma_other_way<F: Fn(Operation) -> u32>(fpu: F)
    requires
        accurate(fpu),
        respects_signs(fpu),
    ensures
        !nan(difference(fpu, HALF_TURN, FULL_TURN)),
        scaled(difference(fpu, HALF_TURN, FULL_TURN)) == -scaled(HALF_TURN),
        !nan(sum(fpu, HALF_TURN_NEG, FULL_TURN)),
        scaled(sum(fpu, HALF_TURN_NEG, FULL_TURN)) == scaled(HALF_TURN),
{
    let d = difference(fpu, HALF_TURN, FULL_TURN);
    lemma_turns();
    lemma_one_is_large();
    lemma_difference_error(fpu, HALF_TURN, FULL_TURN);
    assert(scaled(d) == scaled(HALF_TURN_NEG)) by {
        reveal(accurate);
    }
    assert(same(negated(d), sum(fpu, HALF_TURN_NEG, FULL_TURN))) by {
        reveal(respects_signs);
        assert(alike(true, HALF_TURN, HALF_TURN_NEG));
        assert(alike(true, d, sum(fpu, HALF_TURN_NEG, FULL_TURN)));
    }
    negation_undoes_itself(d);
    lemma_sum_error(fpu, HALF_TURN_NEG, FULL_TURN);
}

/// An angle above half a turn, less a full one.
proof fn lemma_back<F: Fn(Operation) -> u32>(fpu: F, x: u32, turns: int)
    requires
        accurate(fpu),
        keeps_order(fpu),
        respects_signs(fpu),
        finite(x),
        below(HALF_TURN, x),
        1 <= turns <= 32,
        100 * scaled(x) <= 100 * scaled(HALF_TURN) + turns * (628 * one()),
    ensures
        ({
            let y = difference(fpu, x, FULL_TURN);
            &&& finite(y)
            &&& 100 * size(scaled(y)) <= 100 * scaled(HALF_TURN) + (turns - 1) * (628 * one())
            &&& INTEGERS * size(scaled(y) - (scaled(x) - scaled(FULL_TURN))) <= 205 * one()
        }),
{
    let y = difference(fpu, x, FULL_TURN);
    let (k, u) = (one(), 628 * one());
    lemma_turns();
    lemma_one_is_large();
    lemma_other_way(fpu);
    assert((turns - 1) * u == turns * u - u && 0 <= (turns - 1) * u && turns * u <= 32 * u)
        by (nonlinear_arith)
        requires
            1 <= turns <= 32,
            0 < u,
    ;
    lemma_difference_error(fpu, x, FULL_TURN);
    assert(at_most(difference(fpu, HALF_TURN, FULL_TURN), y)) by {
        reveal(keeps_order);
        assert(at_most(HALF_TURN, x));
    }
}

/// An angle below half a turn the other way, and a full one.
proof fn lemma_forth<F: Fn(Operation) -> u32>(fpu: F, x: u32, turns: int)
    requires
        accurate(fpu),
        keeps_order(fpu),
        respects_signs(fpu),
        finite(x),
        below(x, HALF_TURN_NEG),
        1 <= turns <= 32,
        -100 * scaled(x) <= 100 * scaled(HALF_TURN) + turns * (628 * one()),
    ensures
        ({
            let y = sum(fpu, x, FULL_TURN);
            &&& finite(y)
            &&& 100 * size(scaled(y)) <= 100 * scaled(HALF_TURN) + (turns - 1) * (628 * one())
            &&& INTEGERS * size(scaled(y) - (scaled(x) + scaled(FULL_TURN))) <= 205 * one()
        }),
{
    let y = sum(fpu, x, FULL_TURN);
    let (k, u) = (one(), 628 * one());
    lemma_turns();
    lemma_one_is_large();
    lemma_other_way(fpu);
    assert((turns - 1) * u == turns * u - u && 0 <= (turns - 1) * u && turns * u <= 32 * u)
        by (nonlinear_arith)
        requires
            1 <= turns <= 32,
            0 < u,
    ;
    lemma_sum_error(fpu, x, FULL_TURN);
    assert(at_most(y, sum(fpu, HALF_TURN_NEG, FULL_TURN))) by {
        reveal(keeps_order);
        assert(at_most(x, HALF_TURN_NEG));
    }
}

/// An angle loses one full turn after the other.
proof fn lemma_wound<F: Fn(Operation) -> u32>(fpu: F, x: u32, turns: nat) -> (n: int)
    requires
        accurate(fpu),
        keeps_order(fpu),
        respects_signs(fpu),
        finite(x),
        turns <= 32,
        100 * size(scaled(x)) <= 100 * scaled(HALF_TURN) + turns * (628 * one()),
    ensures
        ({
            let y = wound_back(fpu, x, turns);
            &&& finite(y)
            &&& size(scaled(y)) <= scaled(HALF_TURN)
            &&& size(n) <= turns
            &&& INTEGERS * size(scaled(y) - (scaled(x) - n * scaled(FULL_TURN))) <= turns * (205 * one())
        }),
    decreases turns,
{
    let (k, full, u) = (one(), scaled(FULL_TURN), 205 * one());
    lemma_turns();
    lemma_one_is_large();
    assert(0 <= turns * u) by (nonlinear_arith)
        requires
            0 <= u,
            0 <= turns,
    ;
    if turns == 0 {
        assert(0 * (628 * one()) == 0 && 0 * full == 0);
        0
    } else if below(HALF_TURN, x) {
        lemma_back(fpu, x, turns as int);
        let n = lemma_wound(fpu, difference(fpu, x, FULL_TURN), (turns - 1) as nat);
        assert((n + 1) * full == n * full + full && (turns - 1) * u + u == turns * u) by (nonlinear_arith);
        n + 1
    } else if below(x, HALF_TURN_NEG) {
        lemma_forth(fpu, x, turns as int);
        let n = lemma_wound(fpu, sum(fpu, x, FULL_TURN), (turns - 1) as nat);
        assert((n - 1) * full == n * full - full && (turns - 1) * u + u == turns * u) by (nonlinear_arith);
        n - 1
    } else {
        assert(0 * full == 0);
        0
    }
}

/// An angle up to 204 radians loses up to 32 full turns of 6.28318 radians, and comes to
/// lie within half a turn either way, up to rounding. What is not a number stays as it
/// is.
pub proof fn angles_lose_full_turns<F: Fn(Operation) -> u32>(fpu: F, x: u32) -> (n: int)
    requires
        accurate(fpu),
        keeps_order(fpu),
        respects_signs(fpu),
        finite(x) ==> size(scaled(x)) <= 204 * one(),
    ensures
        ({
            let (w, turn) = (wrapped(fpu, x), scaled(FULL_TURN));
            &&& 628318 * one() <= 100000 * turn <= 628319 * one()
            &&& finite(x) ==> {
                &&& finite(w)
                &&& 2 * size(scaled(w)) <= turn
                &&& size(n) <= 32
                &&& INTEGERS * size(scaled(w) - (scaled(x) - n * turn)) <= 6560 * one()
            }
            &&& !finite(x) ==> w == x
        }),
{
    lemma_turns();
    lemma_one_is_large();
    if finite(x) {
        let n = lemma_wound(fpu, x, 32);
        assert(MAX_TURNS as nat == 32);
        n
    } else {
        0
    }
}

} // verus!
