//! Length of the rods of the ankle linkage.
//!
//! Numbers are counted in smallest steps, and products of numbers in powers of those:
//! `k` is [`one`], `p2` its square, and so on.
use crate::ankle::accuracy::{lemma_unit, nearby};
use crate::ankle::arc::{
    arc_sines_are_small, cosines_of_arc_sines_are_positive, sine_undoes_arc_sine,
};
use crate::ankle::circle::sine_and_cosine_lie_on_the_unit_circle;
use crate::ankle::lengths::{lemma_bar, lemma_lengths};
use crate::ankle::root::square_roots_are_accurate;
use crate::ankle::{
    apart, arc_sine, are_links, cosine, link_pose, motor_angle, sine, square_root, squared_distance,
    turned_bar, LinkParamsAtom01, Side,
};
use crate::arithmetic::{
    accurate, difference, difference_of_products, lemma_difference_error, lemma_one_is_large,
    lemma_product_error, lemma_size_of_product, lemma_sum_error, product, quotient, reach, size,
    sum, Operation, INTEGERS, TWO,
};
use crate::binary32::{below, finite, lemma_absolute, negated, negation_undoes_itself, one, scaled};
use vstd::arithmetic::power2::{lemma2_to64, lemma_pow2_adds, pow2};
use vstd::prelude::*;

verus! {

/// A product of numbers that are bounded by multiples.
pub proof fn lemma_bounded(a: int, b: int, m: int, n: int, p: int, q: int)
    requires
        size(a) <= m * p,
        size(b) <= n * q,
    ensures
        size(a * b) <= (m * n) * (p * q),
{
    lemma_size_of_product(a, b, m * p, n * q);
    assert((m * p) * (n * q) == (m * n) * (p * q)) by (nonlinear_arith);
}

/// A product of a number and an error.
pub proof fn lemma_error_times(e: int, b: int, m: int, n: int, p: int, q: int)
    requires
        INTEGERS * size(e) <= m * p,
        size(b) <= n * q,
    ensures
        INTEGERS * size(e * b) <= (m * n) * (p * q),
{
    lemma_bounded(INTEGERS * e, b, m, n, p, q);
    assert((INTEGERS * e) * b == INTEGERS * (e * b)) by (nonlinear_arith);
}

/// The rounded product of numbers up to `m` and `n`.
pub proof fn lemma_times<F: Fn(Operation) -> u32>(fpu: F, a: u32, b: u32, m: int, n: int, c: int)
    requires
        accurate(fpu),
        finite(a) && finite(b),
        size(scaled(a)) <= m * one(),
        size(scaled(b)) <= n * one(),
        m * n == c,
        0 <= c <= 0x1_0000_0000,
    ensures
        ({
            let p = product(fpu, a, b);
            let k = one();
            &&& finite(p)
            &&& c < INTEGERS ==> size(scaled(p)) <= (c + 1) * k
            &&& size(scaled(a) * scaled(b)) <= c * (k * k)
            &&& INTEGERS * size(scaled(p) * k - scaled(a) * scaled(b)) <= (c + 1) * (k * k)
        }),
{
    let k = one();
    let p2 = k * k;
    lemma_one_is_large();
    lemma_bounded(scaled(a), scaled(b), m, n, k, k);
    assert(c * p2 <= reach() * k) by (nonlinear_arith)
        requires
            reach() == 0x1_0000_0000_0000_0000 * k,
            p2 == k * k,
            c <= 0x1_0000_0000,
            0 < k,
    ;
    lemma_product_error(fpu, a, b);
    assert(INTEGERS * k <= p2 && (c + 1) * p2 == c * p2 + p2) by (nonlinear_arith)
        requires
            p2 == k * k,
            k >= 0x1_0000_0000_0000_0000,
    ;
    let p = scaled(product(fpu, a, b));
    assert(0 <= c * p2) by (nonlinear_arith)
        requires
            0 <= c,
            p2 == k * k,
    ;
    if c < INTEGERS {
        assert(c * p2 + p2 <= INTEGERS * p2) by (nonlinear_arith)
            requires
                c + 1 <= INTEGERS,
                0 <= p2,
        ;
        assert(size(p * k) <= (c + 1) * p2);
        assert(size(p) <= (c + 1) * k) by (nonlinear_arith)
            requires
                size(p * k) <= (c + 1) * p2,
                p2 == k * k,
                0 < k,
        ;
    }
}

/// The discriminant of the motor's equation, for distances `a` and `b` and an excess
/// `e` as they are computed.
pub open spec fn discriminant<F: Fn(Operation) -> u32>(fpu: F, a: u32, b: u32, e: u32) -> u32 {
    let a_sq = product(fpu, a, a);
    let b_sq = product(fpu, b, b);
    let e_sq = product(fpu, e, e);
    difference_of_products(fpu, b_sq, e_sq, sum(fpu, a_sq, b_sq), difference(fpu, e_sq, a_sq))
}

/// The product of two squares and its rounding. `x` and `y` are the squares as computed.
proof fn lemma_product_of_squares(k: int, p: int, x: int, y: int, u: int, v: int, m: int, n: int, c: int, d: int)
    requires
        INTEGERS <= k,
        INTEGERS * size(x * k - u) <= m * (k * k),
        INTEGERS * size(y * k - v) <= m * (k * k),
        size(u) <= n * (k * k),
        size(v) <= n * (k * k),
        INTEGERS * size(p * k - x * y) <= c * (k * k),
        0 <= m <= INTEGERS,
        2 * (n * m) + m + c <= d,
    ensures
        INTEGERS * size(p * (k * (k * k)) - u * v) <= d * ((k * k) * (k * k)),
{
    let p2 = k * k;
    let p4 = p2 * p2;
    let (f, g, h) = (x * k - u, y * k - v, p * k - x * y);
    assert(0 < p2) by (nonlinear_arith)
        requires
            p2 == k * k,
            0 < k,
    ;
    assert(0 < p4) by (nonlinear_arith)
        requires
            p4 == p2 * p2,
            0 < p2,
    ;
    assert(p * (k * p2) == h * p2 + (x * k) * (y * k)) by {
        assert(p * (k * p2) == (p * k) * p2) by (nonlinear_arith);
        assert((p * k) * p2 == h * p2 + (x * y) * p2) by (nonlinear_arith)
            requires
                h == p * k - x * y,
        ;
        assert((x * y) * p2 == (x * k) * (y * k)) by (nonlinear_arith)
            requires
                p2 == k * k,
        ;
    }
    assert((x * k) * (y * k) == u * v + f * v + g * u + f * g) by (nonlinear_arith)
        requires
            x * k == u + f,
            y * k == v + g,
    ;
    lemma_error_times(f, v, m, n, p2, p2);
    lemma_error_times(g, u, m, n, p2, p2);
    assert(size(f) <= p2 && size(g) <= p2) by {
        assert(m * p2 <= INTEGERS * p2) by (nonlinear_arith)
            requires
                m <= INTEGERS,
                0 < p2,
        ;
    }
    lemma_error_times(f, g, m, 1, p2, p2);
    lemma_error_times(h, p2, c, 1, p2, p2);
    assert((m * n) * p4 + (m * n) * p4 + (m * 1) * p4 + (c * 1) * p4 <= d * p4) by (nonlinear_arith)
        requires
            2 * (n * m) + m + c <= d,
            0 < p4,
    ;
}

/// `a^2 (a^2 + b^2 - e^2)`, the discriminant in exact arithmetic.
spec fn exact_discriminant(a: int, b: int, e: int) -> int {
    (a * a) * (a * a + b * b - e * e)
}

/// The squares of the distances and of the excess, as computed.
proof fn lemma_squares<F: Fn(Operation) -> u32>(fpu: F, a: u32, b: u32, e: u32)
    requires
        accurate(fpu),
        finite(a) && finite(b) && finite(e),
        size(scaled(a)) <= 30 * one(),
        size(scaled(b)) <= 210 * one(),
        size(scaled(e)) <= 210 * one(),
    ensures
        ({
            let (k, p2) = (one(), one() * one());
            let (u, v, w) = (product(fpu, a, a), product(fpu, b, b), product(fpu, e, e));
            let (x, y, z) = (scaled(a) * scaled(a), scaled(b) * scaled(b), scaled(e) * scaled(e));
            let (n, m) = (sum(fpu, u, v), difference(fpu, w, u));
            &&& 0 <= x <= 900 * p2 && 0 <= y <= 44100 * p2 && 0 <= z <= 44100 * p2
            &&& finite(v) && size(scaled(v)) <= 44101 * k && INTEGERS * size(scaled(v) * k - y) <= 44101
                * p2
            &&& finite(w) && size(scaled(w)) <= 44101 * k && INTEGERS * size(scaled(w) * k - z) <= 44101
                * p2
            &&& finite(n) && size(scaled(n)) <= 45003 * k && INTEGERS * size(scaled(n) * k - (x + y))
                <= 90004 * p2
            &&& finite(m) && size(scaled(m)) <= 45003 * k && INTEGERS * size(scaled(m) * k - (z - x))
                <= 90004 * p2
        }),
{
    let k = one();
    lemma_one_is_large();
    lemma_times(fpu, a, a, 30, 30, 900);
    lemma_times(fpu, b, b, 210, 210, 44100);
    lemma_times(fpu, e, e, 210, 210, 44100);
    let (u, v, w) = (product(fpu, a, a), product(fpu, b, b), product(fpu, e, e));
    lemma_square_sign(scaled(a));
    lemma_square_sign(scaled(b));
    lemma_square_sign(scaled(e));
    lemma_sum_error(fpu, u, v);
    lemma_difference_error(fpu, w, u);
    lemma_of_two(scaled(sum(fpu, u, v)), scaled(u), scaled(v), k);
    assert(scaled(difference(fpu, w, u)) - (scaled(w) - scaled(u)) == scaled(difference(fpu, w, u)) - (
    scaled(w) + (-scaled(u))));
    lemma_of_two(scaled(difference(fpu, w, u)), scaled(w), -scaled(u), k);
    assert((-scaled(u)) * k == -(scaled(u) * k)) by (nonlinear_arith);
}

/// A square is not negative.
proof fn lemma_square_sign(a: int)
    ensures
        0 <= a * a,
{
    assert(0 <= a * a) by (nonlinear_arith);
}

/// A rounded sum of squares, counted in squares of steps.
proof fn lemma_of_two(n: int, u: int, v: int, k: int)
    requires
        0 < k,
        INTEGERS * size(n - (u + v)) <= 45002 * k,
    ensures
        INTEGERS * size(n * k - (u * k + v * k)) <= 45002 * (k * k),
{
    lemma_error_times(n - (u + v), k, 45002, 1, k, k);
    assert((n - (u + v)) * k == n * k - (u * k + v * k)) by (nonlinear_arith);
}

/// The discriminant as computed.
#[verifier::spinoff_prover]
#[verifier::rlimit(60)]
proof fn lemma_discriminant<F: Fn(Operation) -> u32>(fpu: F, a: u32, b: u32, e: u32)
    requires
        accurate(fpu),
        finite(a) && finite(b) && finite(e),
        10 * one() <= size(scaled(a)) <= 30 * one(),
        size(scaled(b)) <= 210 * one(),
        size(scaled(e)) <= size(scaled(b)),
    ensures
        ({
            let (k, p2) = (one(), one() * one());
            let d = discriminant(fpu, a, b, e);
            let x = exact_discriminant(scaled(a), scaled(b), scaled(e));
            &&& finite(d)
            &&& 9000 * k <= scaled(d) <= 40700000 * k
            &&& INTEGERS * size(scaled(d) * (k * p2) - x) <= 16100000000 * (p2 * p2)
            &&& (scaled(a) * scaled(a)) * (scaled(a) * scaled(a)) <= x
        }),
{
    let (k, p2) = (one(), one() * one());
    let p4 = p2 * p2;
    lemma_one_is_large();
    lemma_squares(fpu, a, b, e);
    let (u, v, w) = (product(fpu, a, a), product(fpu, b, b), product(fpu, e, e));
    let (n, m) = (sum(fpu, u, v), difference(fpu, w, u));
    let (x, y, z) = (scaled(a) * scaled(a), scaled(b) * scaled(b), scaled(e) * scaled(e));
    lemma_times(fpu, v, w, 44101, 44101, 1944898201);
    lemma_times(fpu, n, m, 45003, 45003, 2025270009);
    let (f, g) = (product(fpu, v, w), product(fpu, n, m));
    lemma_product_of_squares(
        k,
        scaled(f),
        scaled(v),
        scaled(w),
        y,
        z,
        44101,
        44100,
        1944898202,
        5834650503,
    );
    lemma_product_of_squares(
        k,
        scaled(g),
        scaled(n),
        scaled(m),
        x + y,
        z - x,
        90004,
        45000,
        2025270010,
        10125720014,
    );
    let delta = x * (x + y - z);
    assert(y * z - (x + y) * (z - x) == delta) by (nonlinear_arith)
        requires
            delta == x * (x + y - z),
    ;
    assert(z <= y) by (nonlinear_arith)
        requires
            z == scaled(e) * scaled(e),
            y == scaled(b) * scaled(b),
            size(scaled(e)) <= size(scaled(b)),
    ;
    assert(100 * p2 <= x) by (nonlinear_arith)
        requires
            x == scaled(a) * scaled(a),
            10 * k <= size(scaled(a)),
            p2 == k * k,
            0 < k,
    ;
    assert(0 < p2) by (nonlinear_arith)
        requires
            p2 == k * k,
            0 < k,
    ;
    assert(x * x <= delta && 10000 * p4 <= x * x) by (nonlinear_arith)
        requires
            delta == x * (x + y - z),
            z <= y,
            100 * p2 <= x,
            0 < p2,
            p4 == p2 * p2,
    ;
    assert(delta <= 40500000 * p4) by {
        lemma_bounded(x, x + y - z, 900, 45000, p2, p2);
    }
    let h = scaled(f) - scaled(g);
    let c = k * p2;
    assert(h * c == scaled(f) * c - scaled(g) * c) by (nonlinear_arith)
        requires
            h == scaled(f) - scaled(g),
    ;
    assert(INTEGERS * size(h * c - delta) <= 15960370517 * p4);
    assert(0 < c && p4 == c * k) by (nonlinear_arith)
        requires
            c == k * p2,
            p4 == p2 * p2,
            p2 == k * k,
            0 < k,
            0 < p2,
    ;
    assert(0 < p4) by (nonlinear_arith)
        requires
            p4 == p2 * p2,
            0 < p2,
    ;
    assert(9040 * p4 <= h * c <= 40600000 * p4);
    assert(9040 * k <= h <= 40600000 * k) by (nonlinear_arith)
        requires
            9040 * p4 <= h * c <= 40600000 * p4,
            p4 == c * k,
            0 < c,
    ;
    lemma_difference_error(fpu, f, g);
    let d = scaled(discriminant(fpu, a, b, e));
    assert(discriminant(fpu, a, b, e) == difference(fpu, f, g));
    let r = d - h;
    lemma_error_times(r, c, 40600000, 1, k, c);
    assert(r * c == d * c - h * c) by (nonlinear_arith)
        requires
            r == d - h,
    ;
    assert(k * c == c * k) by (nonlinear_arith);
}

/// The root of the discriminant.
pub open spec fn discriminant_root<F: Fn(Operation) -> u32>(fpu: F, a: u32, b: u32, e: u32) -> u32 {
    let d = discriminant(fpu, a, b, e);
    square_root(
        fpu,
        if below(d, 0) {
            0
        } else {
            d
        },
    )
}

/// The root of the discriminant as computed.
proof fn lemma_discriminant_root<F: Fn(Operation) -> u32>(fpu: F, a: u32, b: u32, e: u32)
    requires
        accurate(fpu),
        finite(a) && finite(b) && finite(e),
        10 * one() <= size(scaled(a)) <= 30 * one(),
        size(scaled(b)) <= 210 * one(),
        size(scaled(e)) <= size(scaled(b)),
    ensures
        ({
            let (k, p2) = (one(), one() * one());
            let r = scaled(discriminant_root(fpu, a, b, e));
            let x = exact_discriminant(scaled(a), scaled(b), scaled(e));
            &&& finite(discriminant_root(fpu, a, b, e))
            &&& 0 < r <= 6400 * k
            &&& INTEGERS * size((r * r) * p2 - x) <= 16500000000 * (p2 * p2)
            &&& 9 * (scaled(a) * scaled(a)) <= 10 * (r * k)
        }),
{
    let (k, p2) = (one(), one() * one());
    let p4 = p2 * p2;
    lemma_one_is_large();
    lemma_discriminant(fpu, a, b, e);
    let d = discriminant(fpu, a, b, e);
    lemma_absolute(d);
    assert(scaled(0) == 0) by {
        lemma_unit();
    }
    square_roots_are_accurate(fpu, d);
    let r = scaled(discriminant_root(fpu, a, b, e));
    let (y, z, x) = (scaled(d), scaled(d) * k, scaled(a) * scaled(a));
    let delta = exact_discriminant(scaled(a), scaled(b), scaled(e));
    assert(0 <= z <= 40700000 * p2) by (nonlinear_arith)
        requires
            z == y * k,
            0 <= y <= 40700000 * k,
            p2 == k * k,
            0 < k,
    ;
    assert(0 < p2) by (nonlinear_arith)
        requires
            p2 == k * k,
            0 < k,
    ;
    assert(0 < p4) by (nonlinear_arith)
        requires
            p4 == p2 * p2,
            0 < p2,
    ;
    let f = r * r - z;
    lemma_error_times(f, p2, 366300000, 1, p2, p2);
    assert(f * p2 == (r * r) * p2 - y * (k * p2)) by (nonlinear_arith)
        requires
            f == r * r - z,
            z == y * k,
    ;
    assert(r <= 6400 * k) by (nonlinear_arith)
        requires
            r * r <= 40800000 * p2,
            p2 == k * k,
            0 < r,
            0 < k,
    ;
    assert(10000 * p4 <= x * x) by (nonlinear_arith)
        requires
            x == scaled(a) * scaled(a),
            10 * k <= size(scaled(a)),
            p2 == k * k,
            p4 == p2 * p2,
            0 < k,
    ;
    assert(100 * ((r * r) * p2) >= 90 * (x * x));
    assert((r * k) * (r * k) == (r * r) * p2) by (nonlinear_arith)
        requires
            p2 == k * k,
    ;
    let w = r * k;
    assert(0 < w) by (nonlinear_arith)
        requires
            w == r * k,
            0 < r,
            0 < k,
    ;
    assert(9 * x <= 10 * w) by (nonlinear_arith)
        requires
            100 * (w * w) >= 90 * (x * x),
            0 < w,
    ;
}

/// The sine of the motor's angle.
pub open spec fn motor_sine<F: Fn(Operation) -> u32>(fpu: F, a: u32, b: u32, e: u32) -> u32 {
    quotient(
        fpu,
        sum(fpu, product(fpu, b, e), discriminant_root(fpu, a, b, e)),
        sum(fpu, product(fpu, a, a), product(fpu, b, b)),
    )
}

/// The sine of the motor's angle, as the larger root of its equation.
#[verifier::spinoff_prover]
#[verifier::rlimit(60)]
proof fn lemma_motor_sine<F: Fn(Operation) -> u32>(fpu: F, a: u32, b: u32, e: u32)
    requires
        accurate(fpu),
        finite(a) && finite(b) && finite(e),
        10 * one() <= size(scaled(a)) <= 30 * one(),
        80 * one() <= scaled(b) <= 210 * one(),
        size(scaled(e)) <= scaled(b),
        2 * size(scaled(motor_sine(fpu, a, b, e))) <= one(),
    ensures
        ({
            let (k, p2) = (one(), one() * one());
            let s = scaled(motor_sine(fpu, a, b, e));
            let (x, y) = (scaled(a) * scaled(a), scaled(b) * scaled(b));
            let r = scaled(discriminant_root(fpu, a, b, e));
            &&& finite(motor_sine(fpu, a, b, e))
            &&& INTEGERS * size(s * (x + y) - (scaled(b) * scaled(e)) * k - r * p2) <= 190200 * (k * p2)
        }),
{
    let (k, p2) = (one(), one() * one());
    let p3 = k * p2;
    lemma_one_is_large();
    lemma_squares(fpu, a, b, e);
    lemma_discriminant_root(fpu, a, b, e);
    lemma_times(fpu, b, e, 210, 210, 44100);
    let root = discriminant_root(fpu, a, b, e);
    let q = product(fpu, b, e);
    let u = sum(fpu, q, root);
    lemma_sum_error(fpu, q, root);
    let n = sum(fpu, product(fpu, a, a), product(fpu, b, b));
    let (x, y) = (scaled(a) * scaled(a), scaled(b) * scaled(b));
    let (v, w, s) = (scaled(u), scaled(n), scaled(motor_sine(fpu, a, b, e)));
    assert(0 < p2) by (nonlinear_arith)
        requires
            p2 == k * k,
            0 < k,
    ;
    assert(6400 * p2 <= y) by (nonlinear_arith)
        requires
            y == scaled(b) * scaled(b),
            80 * k <= scaled(b),
            p2 == k * k,
            0 < k,
    ;
    assert(6300 * k <= w) by (nonlinear_arith)
        requires
            6300 * p2 <= w * k,
            p2 == k * k,
            0 < k,
    ;
    assert(size(v) <= 50502 * k);
    assert(size(v * k) <= 50502 * p2 && 50502 * p2 <= reach() * w && INTEGERS * w <= p2) by {
        lemma_bounded(v, k, 50502, 1, k, k);
        assert(50502 * p2 <= reach() * w) by (nonlinear_arith)
            requires
                reach() == 0x1_0000_0000_0000_0000 * k,
                p2 == k * k,
                k <= w,
                0 < k,
        ;
        assert(INTEGERS * w <= p2) by (nonlinear_arith)
            requires
                p2 == k * k,
                w <= 45003 * k,
                k >= 0x1_0000_0000_0000_0000,
        ;
    }
    assert(finite(quotient(fpu, u, n)) && INTEGERS * size(s * w - v * k) <= 50503 * p2) by {
        reveal(accurate);
    }
    let (f, g, h, i) = (
        s * w - v * k,
        v - (scaled(q) + scaled(root)),
        scaled(q) * k - scaled(b) * scaled(e),
        w * k - (x + y),
    );
    let o = s * (x + y) - (scaled(b) * scaled(e)) * k - scaled(root) * p2;
    assert(o == f * k + g * p2 + h * k - i * s) by {
        assert(i * s == (s * w) * k - s * (x + y)) by (nonlinear_arith)
            requires
                i == w * k - (x + y),
        ;
        assert(f * k == (s * w) * k - v * p2) by (nonlinear_arith)
            requires
                f == s * w - v * k,
                p2 == k * k,
        ;
        assert(g * p2 == v * p2 - scaled(q) * p2 - scaled(root) * p2) by (nonlinear_arith)
            requires
                g == v - (scaled(q) + scaled(root)),
        ;
        assert(h * k == scaled(q) * p2 - (scaled(b) * scaled(e)) * k) by (nonlinear_arith)
            requires
                h == scaled(q) * k - scaled(b) * scaled(e),
                p2 == k * k,
        ;
    }
    lemma_error_times(f, k, 50503, 1, p2, k);
    lemma_error_times(g, p2, 50501, 1, k, p2);
    lemma_error_times(h, k, 44101, 1, p2, k);
    lemma_error_times(i, 2 * s, 90004, 1, p2, k);
    assert(i * (2 * s) == 2 * (i * s)) by (nonlinear_arith);
    assert(p2 * k == p3) by (nonlinear_arith)
        requires
            p3 == k * p2,
    ;
}

/// The square of a difference.
proof fn lemma_square_of_difference(u: int, v: int)
    ensures
        (u - v) * (u - v) == u * u - 2 * (u * v) + v * v,
{
    assert((u - v) * (u - v) == u * u - 2 * (u * v) + v * v) by (nonlinear_arith);
}

/// A product of two products.
pub proof fn lemma_four(a: int, b: int, c: int, d: int)
    ensures
        (a * b) * (c * d) == (a * c) * (b * d),
{
    assert((a * b) * (c * d) == (a * c) * (b * d)) by (nonlinear_arith);
}

/// How the rise of the bar follows from its turn.
proof fn lemma_rise_identity(k: int, aa: int, b: int, e: int, s: int)
    ensures
        (s * b - e * k) * (aa + b * b) == b * (s * (aa + b * b) - (b * e) * k) - (e * k) * aa,
{
    let (n, m, bb) = (aa + b * b, e * k, b * b);
    assert((s * b - m) * n == (s * b) * n - m * n) by (nonlinear_arith);
    assert((s * b) * n == b * (s * n)) by (nonlinear_arith);
    assert((b * e) * k == b * m) by (nonlinear_arith)
        requires
            m == e * k,
    ;
    assert(b * (s * n - b * m) == b * (s * n) - bb * m) by (nonlinear_arith)
        requires
            bb == b * b,
    ;
    assert(m * n == m * aa + bb * m) by (nonlinear_arith)
        requires
            n == aa + bb,
    ;
}

/// The equation of the motor's sine `s`, up to a factor.
proof fn lemma_equation_identity(k: int, a: int, b: int, e: int, s: int)
    ensures
        ({
            let p2 = k * k;
            let n = a * a + b * b;
            let x = s * n - (b * e) * k;
            let w = s * b - e * k;
            x * x - exact_discriminant(a, b, e) * p2 == n * (w * w - (a * a) * (p2 - s * s))
        }),
{
    let (p2, c) = (k * k, b * e);
    let (aa, bb, ee, ss) = (a * a, b * b, e * e, s * s);
    let n = aa + bb;
    let x = s * n - c * k;
    let w = s * b - e * k;
    let d = aa * (aa + bb - ee);
    assert(x * x == ss * (n * n) - 2 * (s * (n * (c * k))) + (c * c) * p2) by {
        lemma_square_of_difference(s * n, c * k);
        lemma_four(s, n, s, n);
        lemma_four(c, k, c, k);
        assert((s * n) * (c * k) == s * (n * (c * k))) by (nonlinear_arith);
    }
    assert(c * c == bb * ee) by (nonlinear_arith)
        requires
            c == b * e,
            bb == b * b,
            ee == e * e,
    ;
    assert(bb * ee - d == n * (ee - aa)) by (nonlinear_arith)
        requires
            d == aa * (aa + bb - ee),
            n == aa + bb,
    ;
    assert((bb * ee) * p2 - d * p2 == (n * (ee - aa)) * p2) by (nonlinear_arith)
        requires
            bb * ee - d == n * (ee - aa),
    ;
    assert(w * w == ss * bb - 2 * (s * (c * k)) + ee * p2) by {
        lemma_square_of_difference(s * b, e * k);
        lemma_four(s, b, s, b);
        lemma_four(e, k, e, k);
        assert((s * b) * (e * k) == s * ((b * e) * k)) by (nonlinear_arith);
    }
    let y = s * (c * k);
    let z = w * w - aa * (p2 - ss);
    assert(aa * (p2 - ss) == aa * p2 - aa * ss && ss * n == ss * aa + ss * bb && aa * ss == ss * aa)
        by (nonlinear_arith)
        requires
            n == aa + bb,
    ;
    assert((ee - aa) * p2 == ee * p2 - aa * p2) by (nonlinear_arith);
    assert(z == ss * n - 2 * y + (ee - aa) * p2);
    assert(n * z == n * (ss * n) - 2 * (n * y) + n * ((ee - aa) * p2)) by (nonlinear_arith)
        requires
            z == ss * n - 2 * y + (ee - aa) * p2,
    ;
    assert(n * (ss * n) == ss * (n * n) && n * y == s * (n * (c * k)) && n * ((ee - aa) * p2) == (n * (ee
        - aa)) * p2) by (nonlinear_arith)
        requires
            y == s * (c * k),
    ;
}

/// The motor's sine solves its equation, up to rounding, and is the larger solution.
#[verifier::spinoff_prover]
#[verifier::rlimit(60)]
proof fn lemma_equation(k: int, a: int, b: int, e: int, s: int, r: int)
    requires
        INTEGERS <= k,
        10 * k <= size(a) <= 30 * k,
        80 * k <= b <= 210 * k,
        size(e) <= b,
        0 < r <= 6400 * k,
        INTEGERS * size(s * (a * a + b * b) - (b * e) * k - r * (k * k)) <= 190200 * (k * (k * k)),
        INTEGERS * size((r * r) * (k * k) - exact_discriminant(a, b, e)) <= 16500000000 * ((k * k) * (k
            * k)),
        9 * (a * a) <= 10 * (r * k),
    ensures
        ({
            let (p2, w) = (k * k, s * b - e * k);
            &&& INTEGERS * size(w * w - (a * a) * (p2 - s * s)) <= 2930000 * (p2 * p2)
            &&& -2 * p2 <= w
        }),
{
    let p2 = k * k;
    let (p3, p4) = (k * p2, p2 * p2);
    let p6 = p2 * p4;
    let (aa, bb) = (a * a, b * b);
    let n = aa + bb;
    let x = s * n - (b * e) * k;
    let w = s * b - e * k;
    let d = exact_discriminant(a, b, e);
    let z = w * w - aa * (p2 - s * s);
    assert(0 < p2) by (nonlinear_arith)
        requires
            p2 == k * k,
            0 < k,
    ;
    assert(0 < p3 && 0 < p4 && p3 * p3 == p6 && p4 * p2 == p6) by (nonlinear_arith)
        requires
            p3 == k * p2,
            p4 == p2 * p2,
            p6 == p2 * p4,
            p2 == k * k,
            0 < k,
            0 < p2,
    ;
    assert(100 * p2 <= aa <= 900 * p2 && 6400 * p2 <= bb) by (nonlinear_arith)
        requires
            aa == a * a,
            bb == b * b,
            10 * k <= size(a) <= 30 * k,
            80 * k <= b,
            p2 == k * k,
            0 < k,
    ;
    let y = r * p2;
    let f = x - y;
    assert(0 < y <= 6400 * p3) by (nonlinear_arith)
        requires
            y == r * p2,
            0 < r <= 6400 * k,
            p3 == k * p2,
            0 < p2,
    ;
    assert(size(x + y) <= 12801 * p3);
    lemma_error_times(f, x + y, 190200, 12801, p3, p3);
    assert(f * (x + y) == x * x - y * y) by (nonlinear_arith)
        requires
            f == x - y,
    ;
    let g = (r * r) * p2 - d;
    lemma_error_times(g, p2, 16500000000, 1, p4, p2);
    assert(y * y == g * p2 + d * p2) by (nonlinear_arith)
        requires
            y == r * p2,
            g == (r * r) * p2 - d,
    ;
    lemma_equation_identity(k, a, b, e, s);
    assert(INTEGERS * size(n * z) <= 18934750200 * p6);
    assert(size(n * z) == n * size(z)) by (nonlinear_arith)
        requires
            0 < n,
    ;
    assert((6500 * p2) * size(z) <= n * size(z)) by (nonlinear_arith)
        requires
            6500 * p2 <= n,
            0 <= size(z),
    ;
    assert(INTEGERS * size(z) <= 2930000 * p4) by (nonlinear_arith)
        requires
            INTEGERS * ((6500 * p2) * size(z)) <= 18934750200 * p6,
            p6 == p2 * p4,
            0 < p2,
            0 < p4,
    ;
    assert(-2 * p2 <= w) by {
        lemma_rise_identity(k, aa, b, e, s);
        assert(w * n == b * x - (e * k) * aa);
        assert(9 * (aa * k) <= 10 * y) by (nonlinear_arith)
            requires
                9 * aa <= 10 * (r * k),
                y == r * p2,
                p2 == k * k,
                0 < k,
        ;
        let v = aa * k;
        assert(100 * x >= 90 * v - 2 * p3);
        assert(100 * (b * x) >= b * (90 * v - 2 * p3)) by (nonlinear_arith)
            requires
                100 * x >= 90 * v - 2 * p3,
                0 < b,
        ;
        assert((e * k) * aa <= b * v) by (nonlinear_arith)
            requires
                e <= b,
                v == aa * k,
                0 < k,
                0 < aa,
        ;
        assert(b * (90 * v - 2 * p3) == 90 * (b * v) - 2 * (b * p3)) by (nonlinear_arith);
        assert(v <= 900 * p3) by (nonlinear_arith)
            requires
                v == aa * k,
                aa <= 900 * p2,
                p3 == k * p2,
                0 < k,
        ;
        assert(b * v <= 900 * (b * p3)) by (nonlinear_arith)
            requires
                v <= 900 * p3,
                0 < b,
        ;
        assert(100 * (w * n) >= -9002 * (b * p3));
        if w < -2 * p2 {
            assert(w * n <= -2 * (p2 * n)) by (nonlinear_arith)
                requires
                    w < -2 * p2,
                    0 < n,
            ;
            assert(p2 * n >= 80 * (b * p3)) by (nonlinear_arith)
                requires
                    n >= b * b,
                    80 * k <= b,
                    p3 == k * p2,
                    0 < p2,
                    0 < b,
            ;
            assert(0 < b * p3) by (nonlinear_arith)
                requires
                    0 < b,
                    0 < p3,
            ;
            assert(false);
        }
    }
}

/// The square of a number near another one.
proof fn lemma_near_square(r: int, y: int, m: int, n: int, k: int)
    requires
        0 < k,
        0 <= m <= INTEGERS,
        INTEGERS * size(r - y) <= m * k,
        size(y) <= n * k,
    ensures
        INTEGERS * size(r * r - y * y) <= (m * (2 * n + 1)) * (k * k),
{
    let f = r - y;
    assert(m * k <= INTEGERS * k) by (nonlinear_arith)
        requires
            m <= INTEGERS,
            0 < k,
    ;
    assert((2 * n + 1) * k == 2 * (n * k) + k) by (nonlinear_arith);
    lemma_error_times(f, r + y, m, 2 * n + 1, k, k);
    assert(f * (r + y) == r * r - y * y) by (nonlinear_arith)
        requires
            f == r - y,
    ;
}

/// A number whose square is at least 0.7396 of another's, and which is not far below
/// zero.
proof fn lemma_at_least(w: int, p: int, n: int)
    requires
        0 < p,
        0 < n,
        -2 * p <= w,
        10000 * (w * w) >= 7396 * ((n * p) * (n * p)),
        3 <= n,
    ensures
        86 * (n * p) <= 100 * w,
{
    let m = n * p;
    assert(3 * p <= m) by (nonlinear_arith)
        requires
            m == n * p,
            3 <= n,
            0 < p,
    ;
    assert(86 * m <= 100 * w) by (nonlinear_arith)
        requires
            10000 * (w * w) >= 7396 * (m * m),
            3 * p <= m,
            -2 * p <= w,
            0 < p,
    ;
}

/// The share of the forward distance: `a` times the cosine is `w`, up to 1/40.
proof fn lemma_projection(k: int, a: int, s: int, c: int, t: int, w: int)
    requires
        0 < k,
        10 * k <= a <= 30 * k,
        2 * size(s) <= k,
        5500 * size(t - s) <= k,
        30000 * size(t * t + c * c - k * k) <= k * k,
        k <= 2 * c,
        INTEGERS * size(w * w - (a * a) * (k * k - s * s)) <= 2930000 * ((k * k) * (k * k)),
        -2 * (k * k) <= w,
    ensures
        40 * size(a * c - w) <= k * k,
{
    let p2 = k * k;
    let p4 = p2 * p2;
    let (aa, cc, ss, tt) = (a * a, c * c, s * s, t * t);
    assert(0 < p2) by (nonlinear_arith)
        requires
            p2 == k * k,
            0 < k,
    ;
    assert(0 < p4) by (nonlinear_arith)
        requires
            p4 == p2 * p2,
            0 < p2,
    ;
    assert(100 * p2 <= aa <= 900 * p2 && 0 <= ss && 4 * ss <= p2) by (nonlinear_arith)
        requires
            aa == a * a,
            ss == s * s,
            p2 == k * k,
            10 * k <= a <= 30 * k,
            2 * size(s) <= k,
            0 < k,
    ;
    assert(5500 * size(tt - ss) <= 2 * p2 && 100 * (5500 * size(tt - ss)) <= 101 * p2) by {
        let f = t - s;
        lemma_size_of_product(5500 * f, 100 * (t + s), k, 101 * k);
        assert((5500 * f) * (100 * (t + s)) == 100 * (5500 * (tt - ss))) by (nonlinear_arith)
            requires
                f == t - s,
                tt == t * t,
                ss == s * s,
        ;
        assert(k * (101 * k) == 101 * p2) by (nonlinear_arith)
            requires
                p2 == k * k,
        ;
    }
    let v = p2 - ss;
    let d = cc - v;
    assert(100000 * size(d) <= 22 * p2);
    assert(100000 * size(aa * d) <= 19800 * p4) by {
        lemma_bounded(aa, 100000 * d, 900, 22, p2, p2);
        assert(aa * (100000 * d) == 100000 * (aa * d)) by (nonlinear_arith);
    }
    let x = a * c;
    assert(x * x == aa * cc) by (nonlinear_arith)
        requires
            x == a * c,
            aa == a * a,
            cc == c * c,
    ;
    assert(aa * cc == aa * v + aa * d) by (nonlinear_arith)
        requires
            d == cc - v,
    ;
    assert(75 * p4 <= aa * v) by (nonlinear_arith)
        requires
            100 * p2 <= aa,
            4 * v >= 3 * p2,
            0 < p2,
            p4 == p2 * p2,
    ;
    assert(0 <= x) by (nonlinear_arith)
        requires
            x == a * c,
            0 < a,
            0 < c,
    ;
    assert((10 * p2) * (10 * p2) == 100 * p4) by (nonlinear_arith)
        requires
            p4 == p2 * p2,
    ;
    lemma_at_least(x, p2, 10);
    lemma_at_least(w, p2, 10);
    let z = x - w;
    assert(z * (x + w) == x * x - w * w) by (nonlinear_arith)
        requires
            z == x - w,
    ;
    assert(100 * size(x * x - w * w) <= 38 * p4);
    assert(size(z * (x + w)) == size(z) * (x + w)) by (nonlinear_arith)
        requires
            0 < x + w,
    ;
    assert(size(z) * (17 * p2) <= size(z) * (x + w)) by (nonlinear_arith)
        requires
            0 <= size(z),
            17 * p2 <= x + w,
    ;
    assert(40 * size(z) <= p2) by (nonlinear_arith)
        requires
            100 * (size(z) * (17 * p2)) <= 38 * p4,
            p4 == p2 * p2,
            0 < p2,
    ;
}

/// The excess of a rod's square over those of the bar and of the distance, per two bars.
pub open spec fn excess<F: Fn(Operation) -> u32>(fpu: F, link: LinkParamsAtom01, c: [u32; 3]) -> u32 {
    quotient(
        fpu,
        difference(
            fpu,
            difference_of_products(fpu, link.l_rod, link.l_rod, link.l_bar, link.l_bar),
            squared_distance(fpu, c, link.r_a_0),
        ),
        product(fpu, TWO, link.l_bar),
    )
}

/// A distance, taken either way.
proof fn lemma_either_way<F: Fn(Operation) -> u32>(fpu: F, p: u32, q: u32)
    requires
        accurate(fpu),
        finite(p) && finite(q),
        size(scaled(p)) <= 1000 * one(),
        size(scaled(q)) <= 1000 * one(),
        size(scaled(difference(fpu, p, q))) <= 210 * one(),
    ensures
        ({
            let (b, t) = (scaled(difference(fpu, p, q)), scaled(difference(fpu, q, p)));
            &&& finite(difference(fpu, p, q)) && finite(difference(fpu, q, p))
            &&& size(scaled(p) - scaled(q)) <= 211 * one()
            &&& INTEGERS * size(b - (scaled(p) - scaled(q))) <= 211 * one()
            &&& INTEGERS * size(t + b) <= 424 * one()
            &&& size(t) <= 211 * one()
        }),
{
    lemma_one_is_large();
    lemma_difference_error(fpu, p, q);
    lemma_difference_error(fpu, q, p);
}

/// The square of a distance, from the distances along the axes.
proof fn lemma_squared_distance<F: Fn(Operation) -> u32>(fpu: F, a: u32, g: u32, t: u32)
    requires
        accurate(fpu),
        finite(a) && finite(g) && finite(t),
        size(scaled(a)) <= 30 * one(),
        size(scaled(g)) <= 20 * one(),
        size(scaled(t)) <= 211 * one(),
    ensures
        ({
            let d = sum(
                fpu,
                sum(fpu, product(fpu, a, a), product(fpu, g, g)),
                product(fpu, t, t),
            );
            let k = one();
            &&& finite(d) && size(scaled(d)) <= 46000 * k
            &&& INTEGERS * size(
                scaled(d) * k - (scaled(a) * scaled(a) + scaled(g) * scaled(g) + scaled(t) * scaled(t)),
            ) <= 93100 * (k * k)
        }),
{
    let k = one();
    lemma_one_is_large();
    lemma_times(fpu, a, a, 30, 30, 900);
    lemma_times(fpu, g, g, 20, 20, 400);
    lemma_times(fpu, t, t, 211, 211, 44521);
    let (x, y, z) = (product(fpu, a, a), product(fpu, g, g), product(fpu, t, t));
    let u = sum(fpu, x, y);
    lemma_sum_error(fpu, x, y);
    assert(size(scaled(u)) <= 1303 * k);
    let d = sum(fpu, u, z);
    lemma_sum_error(fpu, u, z);
    let (f, h) = (scaled(u) - (scaled(x) + scaled(y)), scaled(d) - (scaled(u) + scaled(z)));
    lemma_error_times(f, k, 1302, 1, k, k);
    lemma_error_times(h, k, 45900, 1, k, k);
    assert(scaled(d) * k == f * k + h * k + scaled(x) * k + scaled(y) * k + scaled(z) * k)
        by (nonlinear_arith)
        requires
            f == scaled(u) - (scaled(x) + scaled(y)),
            h == scaled(d) - (scaled(u) + scaled(z)),
    ;
}

/// The excess of the squares of rod and bar.
proof fn lemma_rod_squares<F: Fn(Operation) -> u32>(fpu: F, l: u32, b: u32, n: int)
    requires
        accurate(fpu),
        finite(l) && finite(b),
        scaled(l) == n * one(),
        0 <= n <= 180,
        scaled(b) == 20 * one(),
    ensures
        ({
            let r = difference_of_products(fpu, l, l, b, b);
            let k = one();
            &&& finite(r) && size(scaled(r)) <= 32803 * k
            &&& INTEGERS * size(scaled(r) * k - (n * n - 400) * (k * k)) <= 65700 * (k * k)
        }),
{
    let k = one();
    lemma_one_is_large();
    assert(0 <= n * k <= 180 * k) by (nonlinear_arith)
        requires
            0 <= n <= 180,
            0 < k,
    ;
    lemma_times(fpu, l, l, 180, 180, 32400);
    lemma_times(fpu, b, b, 20, 20, 400);
    let (x, y) = (product(fpu, l, l), product(fpu, b, b));
    lemma_difference_error(fpu, x, y);
    let r = scaled(difference(fpu, x, y));
    let f = r - (scaled(x) - scaled(y));
    lemma_error_times(f, k, 32802, 1, k, k);
    assert(r * k == f * k + scaled(x) * k - scaled(y) * k) by (nonlinear_arith)
        requires
            f == r - (scaled(x) - scaled(y)),
    ;
    lemma_four(n, k, n, k);
    lemma_four(20, k, 20, k);
    assert((n * n - 400) * (k * k) == (n * n) * (k * k) - 400 * (k * k)) by (nonlinear_arith);
}

/// The quotient by the length of two bars.
proof fn lemma_per_two_bars<F: Fn(Operation) -> u32>(fpu: F, x: u32, b: u32)
    requires
        accurate(fpu),
        finite(x) && finite(b),
        size(scaled(x)) <= 78900 * one(),
        scaled(b) == 20 * one(),
        size(scaled(quotient(fpu, x, product(fpu, TWO, b)))) <= 210 * one(),
    ensures
        ({
            let e = quotient(fpu, x, product(fpu, TWO, b));
            let k = one();
            &&& finite(e)
            &&& INTEGERS * size(40 * (scaled(e) * k) - scaled(x) * k) <= 87600 * (k * k)
        }),
{
    let k = one();
    let p2 = k * k;
    lemma_one_is_large();
    lemma_two();
    lemma_times(fpu, TWO, b, 2, 20, 40);
    let d = product(fpu, TWO, b);
    let (y, v) = (scaled(d), scaled(x));
    let e = scaled(quotient(fpu, x, d));
    assert((2 * k) * (20 * k) == 40 * p2) by (nonlinear_arith)
        requires
            p2 == k * k,
    ;
    let f = y - 40 * k;
    assert(f * k == y * k - 40 * p2) by (nonlinear_arith)
        requires
            f == y - 40 * k,
            p2 == k * k,
    ;
    assert(size(f * k) == size(f) * k) by (nonlinear_arith)
        requires
            0 < k,
    ;
    assert(INTEGERS * size(f) <= 41 * k) by (nonlinear_arith)
        requires
            INTEGERS * (size(f) * k) <= 41 * p2,
            p2 == k * k,
            0 < k,
    ;
    lemma_bounded(v, k, 78900, 1, k, k);
    assert(78900 * p2 <= reach() * y && INTEGERS * y <= p2) by (nonlinear_arith)
        requires
            reach() == 0x1_0000_0000_0000_0000 * k,
            p2 == k * k,
            39 * k <= y <= 41 * k,
            k >= 0x1_0000_0000_0000_0000,
    ;
    assert(finite(quotient(fpu, x, d)) && INTEGERS * size(e * y - v * k) <= 78901 * p2) by {
        reveal(accurate);
    }
    lemma_error_times(f, e, 41, 210, k, k);
    assert(e * y == 40 * (e * k) + f * e) by (nonlinear_arith)
        requires
            f == y - 40 * k,
    ;
}

/// The number two.
proof fn lemma_two()
    ensures
        finite(TWO),
        scaled(TWO) == 2 * one(),
{
    lemma2_to64();
    lemma_pow2_adds(127, 22);
    assert(scaled(TWO) == 0x80_0000 * pow2(127));
}

/// The excess as computed.
proof fn lemma_excess<F: Fn(Operation) -> u32>(fpu: F, link: LinkParamsAtom01, c: [u32; 3], n: int)
    requires
        accurate(fpu),
        finite(link.l_rod) && scaled(link.l_rod) == n * one(),
        0 <= n <= 180,
        finite(link.l_bar) && scaled(link.l_bar) == 20 * one(),
        nearby(link.r_a_0),
        nearby(c),
        size(scaled(difference(fpu, c@[0], link.r_a_0@[0]))) <= 30 * one(),
        size(scaled(difference(fpu, c@[1], link.r_a_0@[1]))) <= 20 * one(),
        size(scaled(difference(fpu, link.r_a_0@[2], c@[2]))) <= 210 * one(),
        size(scaled(excess(fpu, link, c))) <= 210 * one(),
    ensures
        ({
            let k = one();
            let a = scaled(difference(fpu, c@[0], link.r_a_0@[0]));
            let g = scaled(difference(fpu, c@[1], link.r_a_0@[1]));
            let b = scaled(difference(fpu, link.r_a_0@[2], c@[2]));
            let e = excess(fpu, link, c);
            &&& finite(e)
            &&& INTEGERS * size(40 * (scaled(e) * k) - ((n * n - 400) * (k * k) - (a * a + g * g + b * b)))
                <= 505000 * (k * k)
        }),
{
    let k = one();
    lemma_one_is_large();
    let o = link.r_a_0;
    let (u, v, w) = (
        difference(fpu, c@[0], o@[0]),
        difference(fpu, c@[1], o@[1]),
        difference(fpu, c@[2], o@[2]),
    );
    lemma_difference_error(fpu, c@[0], o@[0]);
    lemma_difference_error(fpu, c@[1], o@[1]);
    lemma_either_way(fpu, o@[2], c@[2]);
    let (a, g, t) = (scaled(u), scaled(v), scaled(w));
    let b = scaled(difference(fpu, o@[2], c@[2]));
    lemma_squared_distance(fpu, u, v, w);
    let d = squared_distance(fpu, c, o);
    assert(d == sum(fpu, sum(fpu, product(fpu, u, u), product(fpu, v, v)), product(fpu, w, w)));
    lemma_rod_squares(fpu, link.l_rod, link.l_bar, n);
    let q = difference_of_products(fpu, link.l_rod, link.l_rod, link.l_bar, link.l_bar);
    lemma_difference_error(fpu, q, d);
    let x = difference(fpu, q, d);
    lemma_per_two_bars(fpu, x, link.l_bar);
    let f = scaled(x) - (scaled(q) - scaled(d));
    lemma_error_times(f, k, 78803, 1, k, k);
    assert(scaled(x) * k == f * k + scaled(q) * k - scaled(d) * k) by (nonlinear_arith)
        requires
            f == scaled(x) - (scaled(q) - scaled(d)),
    ;
    lemma_error_times(t + b, t - b, 424, 421, k, k);
    assert((t + b) * (t - b) == t * t - b * b) by (nonlinear_arith);
}

/// The square of a rod's length, from the shares of the bar. `h` is 20 or -20 and `n`
/// the length of the rod; `w` is the deviation of the loop.
proof fn lemma_rod_length(
    k: int,
    n: int,
    h: int,
    a: int,
    g: int,
    b: int,
    e: int,
    c: int,
    s: int,
    r0: int,
    r1: int,
    r2: int,
)
    requires
        0 < k,
        h == 20 || h == -20,
        size(a) <= 30 * k,
        size(g) <= 20 * k,
        size(b) <= 210 * k,
        100 * size(c) <= 102 * k,
        100 * size(s) <= 102 * k,
        30000 * size(s * s + c * c - k * k) <= k * k,
        INTEGERS * size(40 * (e * k) - ((n * n - 400) * (k * k) - (a * a + g * g + b * b))) <= 505000 * (k
            * k),
        INTEGERS * size(r0 - (a - h * c)) <= 140 * k,
        INTEGERS * size(r1 - g) <= 90 * k,
        INTEGERS * size(r2 - (h * s - b)) <= 890 * k,
        1000 * size(2 * (h * (a * c + b * s)) + 40 * (e * k)) <= 2600 * (k * k),
    ensures
        size(r0 * r0 + r1 * r1 + r2 * r2 - (n * n) * (k * k)) <= 3 * (k * k),
{
    let p2 = k * k;
    let (x, y) = (h * c, h * s);
    assert((x == 20 * c || x == -20 * c) && (y == 20 * s || y == -20 * s)) by (nonlinear_arith)
        requires
            x == h * c,
            y == h * s,
            h == 20 || h == -20,
    ;
    lemma_near_square(r0, a - x, 140, 51, k);
    lemma_near_square(r1, g, 90, 20, k);
    lemma_near_square(r2, y - b, 890, 231, k);
    assert(INTEGERS * size(r0 * r0 - (a - x) * (a - x)) <= 14420 * p2);
    assert(INTEGERS * size(r1 * r1 - g * g) <= 3690 * p2);
    assert(INTEGERS * size(r2 * r2 - (y - b) * (y - b)) <= 412070 * p2);
    lemma_square_of_difference(a, x);
    lemma_square_of_difference(y, b);
    assert(x * x == 400 * (c * c) && y * y == 400 * (s * s)) by (nonlinear_arith)
        requires
            x == h * c,
            y == h * s,
            h == 20 || h == -20,
    ;
    assert(a * x + y * b == h * (a * c + b * s)) by (nonlinear_arith)
        requires
            x == h * c,
            y == h * s,
    ;
    assert((n * n - 400) * p2 == (n * n) * p2 - 400 * p2) by (nonlinear_arith);
    assert(0 < p2) by (nonlinear_arith)
        requires
            p2 == k * k,
            0 < k,
    ;
}

/// The bar's share along the line to the foot, on either side. `t` is the sine of the
/// motor's angle as computed.
proof fn lemma_deviation(k: int, h: int, a: int, b: int, e: int, c: int, s: int, t: int)
    requires
        0 < k,
        (h == -20 && a < 0 && 5500 * size(t - s) <= k) || (h == 20 && a > 0 && 5500 * size(t + s) <= k),
        0 <= b <= 210 * k,
        40 * size(size(a) * c - (s * b - e * k)) <= k * k,
    ensures
        1000 * size(2 * (h * (a * c + b * t)) + 40 * (e * k)) <= 2600 * (k * k),
{
    let p2 = k * k;
    let d = if h == 20 {
        t + s
    } else {
        s - t
    };
    lemma_size_of_product(5500 * d, b, k, 210 * k);
    assert((5500 * d) * b == 5500 * (b * d) && k * (210 * k) == 210 * p2) by (nonlinear_arith)
        requires
            p2 == k * k,
    ;
    if h == 20 {
        assert(b * d == b * t + s * b) by (nonlinear_arith)
            requires
                d == t + s,
        ;
        assert(h * (a * c + b * t) == 20 * (a * c + b * t));
    } else {
        assert(b * d == s * b - b * t) by (nonlinear_arith)
            requires
                d == s - t,
        ;
        assert((-a) * c == -(a * c)) by (nonlinear_arith);
        assert(h * (a * c + b * t) == -20 * (a * c + b * t));
    }
    assert(0 < p2) by (nonlinear_arith)
        requires
            p2 == k * k,
            0 < k,
    ;
}

/// The foot's pivot lies where a linkage is meant to work: 10 to 30 millimetres from the
/// motor towards the bar, at most 20 sideways and 80 to 210 below; the rod reaches it,
/// and the sine of the motor's angle is at most a half.
pub open spec fn at_work<F: Fn(Operation) -> u32>(fpu: F, link: LinkParamsAtom01, ahead: bool, c: [u32; 3]) -> bool {
    let a = difference(fpu, c@[0], link.r_a_0@[0]);
    let b = difference(fpu, link.r_a_0@[2], c@[2]);
    let e = excess(fpu, link, c);
    &&& nearby(c)
    &&& 10 * one() <= size(scaled(a)) <= 30 * one()
    &&& below(a, 0) == !ahead
    &&& size(scaled(difference(fpu, c@[1], link.r_a_0@[1]))) <= 20 * one()
    &&& 80 * one() <= scaled(b) <= 210 * one()
    &&& size(scaled(e)) <= scaled(b)
    &&& 2 * size(scaled(motor_sine(fpu, a, b, e))) <= one()
}

/// A coordinate of a rod: the difference of two numbers that are known.
proof fn lemma_rod_coordinate<F: Fn(Operation) -> u32>(fpu: F, p: u32, q: u32, y: int, m: int, n: int)
    requires
        accurate(fpu),
        finite(p) && finite(q),
        INTEGERS * size(scaled(p) - scaled(q) - y) <= m * one(),
        size(y) <= n * one(),
        0 <= m <= 1000,
        0 <= n <= 1000,
    ensures
        finite(difference(fpu, p, q)),
        INTEGERS * size(scaled(difference(fpu, p, q)) - y) <= (m + n + 1) * one(),
{
    let k = one();
    lemma_one_is_large();
    assert(m * k <= 1000 * k && n * k <= 1000 * k && (m + n + 1) * k == m * k + n * k + k)
        by (nonlinear_arith)
        requires
            m <= 1000,
            n <= 1000,
            0 < k,
    ;
    lemma_difference_error(fpu, p, q);
}

/// The rods keep their length, within 1/70 of a millimetre: its square is that of the
/// rod within 3, wherever the linkage is at work.
#[verifier::spinoff_prover]
#[verifier::rlimit(60)]
pub proof fn rods_keep_their_length<F: Fn(Operation) -> u32>(
    fpu: F,
    links: [LinkParamsAtom01; 2],
    side: Side,
    i: int,
    c: [u32; 3],
)
    requires
        accurate(fpu),
        are_links(links, side),
        0 <= i < 2,
        at_work(fpu, links@[i], i == 1, c),
    ensures
        ({
            let r = link_pose(fpu, links@[i], c).r_rod;
            let (x, y, z) = (scaled(r@[0]), scaled(r@[1]), scaled(r@[2]));
            let l = scaled(links@[i].l_rod);
            size(x * x + y * y + z * z - l * l) <= 3 * (one() * one())
        }),
{
    let k = one();
    let link = links@[i];
    let (h, n): (int, int) = if i == 0 {
        (-20, 180)
    } else {
        (20, 110)
    };
    lemma_one_is_large();
    lemma_lengths();
    lemma_unit();
    let o = link.r_a_0;
    let (fa, fg, fb) = (
        difference(fpu, c@[0], o@[0]),
        difference(fpu, c@[1], o@[1]),
        difference(fpu, o@[2], c@[2]),
    );
    let (a, g, b) = (scaled(fa), scaled(fg), scaled(fb));
    assert(nearby(o)) by {
        assert(finite(o@[0]) && finite(o@[1]) && finite(o@[2]));
    }
    lemma_difference_error(fpu, c@[0], o@[0]);
    lemma_difference_error(fpu, c@[1], o@[1]);
    lemma_either_way(fpu, o@[2], c@[2]);
    lemma_excess(fpu, link, c, n);
    let fe = excess(fpu, link, c);
    let e = scaled(fe);
    let theta = motor_angle(fpu, link, c);
    lemma_below_zero(fa);
    let (t, cos) = (scaled(sine(fpu, theta)), scaled(cosine(fpu, theta)));
    assert(finite(motor_sine(fpu, fa, fb, fe))) by {
        lemma_motor_sine(fpu, fa, fb, fe);
    }
    lemma_motor_angle(fpu, motor_sine(fpu, fa, fb, fe), h, theta);
    lemma_loop(fpu, fa, fb, fe, h, cos, t);
    lemma_rod(fpu, link, theta, c, h);
    let r = link_pose(fpu, link, c).r_rod;
    lemma_rod_length(
        k,
        n,
        h,
        a,
        g,
        b,
        e,
        cos,
        t,
        scaled(r@[0]),
        scaled(r@[1]),
        scaled(r@[2]),
    );
    lemma_four(n, k, n, k);
}

/// Sine and cosine of a motor's angle.
proof fn lemma_motor_angle<F: Fn(Operation) -> u32>(fpu: F, fs: u32, h: int, theta: u32)
    requires
        accurate(fpu),
        finite(fs),
        2 * size(scaled(fs)) <= one(),
        (h == -20 && theta == arc_sine(fpu, fs)) || (h == 20 && theta == negated(arc_sine(fpu, fs))),
    ensures
        ({
            let (k, s) = (one(), scaled(fs));
            let (t, c) = (scaled(sine(fpu, theta)), scaled(cosine(fpu, theta)));
            &&& finite(sine(fpu, theta)) && finite(cosine(fpu, theta))
            &&& 100 * size(c) <= 102 * k
            &&& 100 * size(t) <= 102 * k
            &&& 30000 * size(t * t + c * c - k * k) <= k * k
            &&& k <= 2 * c
            &&& h == -20 ==> 5500 * size(t - s) <= k
            &&& h == 20 ==> 5500 * size(t + s) <= k
        }),
{
    arc_sines_are_small(fpu, fs);
    negation_undoes_itself(arc_sine(fpu, fs));
    sine_undoes_arc_sine(fpu, fs);
    cosines_of_arc_sines_are_positive(fpu, fs);
    sine_and_cosine_lie_on_the_unit_circle(fpu, theta);
}

/// The bar at the motor's angle meets the rod.
#[verifier::spinoff_prover]
#[verifier::rlimit(60)]
proof fn lemma_loop<F: Fn(Operation) -> u32>(fpu: F, fa: u32, fb: u32, fe: u32, h: int, c: int, t: int)
    requires
        accurate(fpu),
        finite(fa) && finite(fb) && finite(fe),
        10 * one() <= size(scaled(fa)) <= 30 * one(),
        80 * one() <= scaled(fb) <= 210 * one(),
        size(scaled(fe)) <= scaled(fb),
        2 * size(scaled(motor_sine(fpu, fa, fb, fe))) <= one(),
        ({
            let (k, s) = (one(), scaled(motor_sine(fpu, fa, fb, fe)));
            ||| h == -20 && scaled(fa) < 0 && 5500 * size(t - s) <= k
            ||| h == 20 && scaled(fa) > 0 && 5500 * size(t + s) <= k
        }),
        30000 * size(t * t + c * c - one() * one()) <= one() * one(),
        one() <= 2 * c,
    ensures
        ({
            let (k, a, b, e) = (one(), scaled(fa), scaled(fb), scaled(fe));
            1000 * size(2 * (h * (a * c + b * t)) + 40 * (e * k)) <= 2600 * (k * k)
        }),
{
    let (k, a, b, e) = (one(), scaled(fa), scaled(fb), scaled(fe));
    let s = scaled(motor_sine(fpu, fa, fb, fe));
    lemma_one_is_large();
    assert(INTEGERS * size((s * b - e * k) * (s * b - e * k) - (a * a) * (k * k - s * s)) <= 2930000 * ((k
        * k) * (k * k)) && -2 * (k * k) <= s * b - e * k) by {
        lemma_discriminant_root(fpu, fa, fb, fe);
        lemma_motor_sine(fpu, fa, fb, fe);
        lemma_equation(k, a, b, e, s, scaled(discriminant_root(fpu, fa, fb, fe)));
    }
    lemma_meeting(k, h, a, b, e, c, s, t);
}

/// From the motor's equation to the deviation of the loop.
proof fn lemma_meeting(k: int, h: int, a: int, b: int, e: int, c: int, s: int, t: int)
    requires
        0 < k,
        10 * k <= size(a) <= 30 * k,
        0 <= b <= 210 * k,
        2 * size(s) <= k,
        (h == -20 && a < 0 && 5500 * size(t - s) <= k) || (h == 20 && a > 0 && 5500 * size(t + s) <= k),
        30000 * size(t * t + c * c - k * k) <= k * k,
        k <= 2 * c,
        INTEGERS * size((s * b - e * k) * (s * b - e * k) - (a * a) * (k * k - s * s)) <= 2930000 * ((k * k)
            * (k * k)),
        -2 * (k * k) <= s * b - e * k,
    ensures
        1000 * size(2 * (h * (a * c + b * t)) + 40 * (e * k)) <= 2600 * (k * k),
{
    let turned = if h == -20 {
        t
    } else {
        -t
    };
    assert(turned * turned == t * t) by (nonlinear_arith)
        requires
            turned == t || turned == -t,
    ;
    assert(size(a) * size(a) == a * a) by (nonlinear_arith);
    lemma_projection(k, size(a), s, c, turned, s * b - e * k);
    lemma_deviation(k, h, a, b, e, c, s, t);
}

/// The distance of two points from a third one.
proof fn lemma_gap(c: int, o: int, p: int, d: int, x: int, m: int, n: int)
    requires
        INTEGERS * size(d - (c - o)) <= m * one(),
        INTEGERS * size(p - (o + x)) <= n * one(),
    ensures
        INTEGERS * size(c - p - (d - x)) <= (m + n) * one(),
{
    assert((m + n) * one() == m * one() + n * one()) by (nonlinear_arith);
}

/// A rod between the foot's pivot and a point `p` that is known, on one axis.
proof fn lemma_along<F: Fn(Operation) -> u32>(fpu: F, c: u32, o: u32, p: u32, d: int, x: int, m: int, n: int, l: int)
    requires
        accurate(fpu),
        finite(c) && finite(p),
        INTEGERS * size(d - (scaled(c) - scaled(o))) <= m * one(),
        INTEGERS * size(scaled(p) - (scaled(o) + x)) <= n * one(),
        size(d - x) <= l * one(),
        0 <= m <= 500,
        0 <= n <= 500,
        0 <= l <= 1000,
    ensures
        finite(difference(fpu, c, p)),
        INTEGERS * size(scaled(difference(fpu, c, p)) - (d - x)) <= (m + n + l + 1) * one(),
{
    lemma_gap(scaled(c), scaled(o), scaled(p), d, x, m, n);
    lemma_rod_coordinate(fpu, c, p, d - x, m + n, l);
}

/// The coordinate of a rod forward.
proof fn lemma_ahead<F: Fn(Operation) -> u32>(fpu: F, c: u32, o: u32, p: u32, x: int)
    requires
        accurate(fpu),
        finite(c) && finite(o) && finite(p),
        size(scaled(c)) <= 1000 * one(),
        size(scaled(o)) <= 1000 * one(),
        size(x) <= 21 * one(),
        INTEGERS * size(scaled(p) - (scaled(o) + x)) <= 45 * one(),
        size(scaled(difference(fpu, c, o))) <= 30 * one(),
    ensures
        ({
            let a = scaled(difference(fpu, c, o));
            INTEGERS * size(scaled(difference(fpu, c, p)) - (a - x)) <= 128 * one()
        }),
{
    lemma_one_is_large();
    let a = scaled(difference(fpu, c, o));
    assert(INTEGERS * size(a - (scaled(c) - scaled(o))) <= 31 * one()) by {
        lemma_difference_error(fpu, c, o);
    }
    lemma_along(fpu, c, o, p, a, x, 31, 45, 51);
}

/// The coordinate of a rod sideways.
proof fn lemma_across<F: Fn(Operation) -> u32>(fpu: F, c: u32, o: u32, p: u32)
    requires
        accurate(fpu),
        finite(c) && finite(o) && finite(p),
        size(scaled(c)) <= 1000 * one(),
        size(scaled(o)) <= 1000 * one(),
        INTEGERS * size(scaled(p) - scaled(o)) <= 44 * one(),
        size(scaled(difference(fpu, c, o))) <= 20 * one(),
    ensures
        INTEGERS * size(scaled(difference(fpu, c, p)) - scaled(difference(fpu, c, o))) <= 86 * one(),
{
    lemma_one_is_large();
    let g = scaled(difference(fpu, c, o));
    assert(INTEGERS * size(g - (scaled(c) - scaled(o))) <= 21 * one()) by {
        lemma_difference_error(fpu, c, o);
    }
    lemma_along(fpu, c, o, p, g, 0, 21, 44, 20);
}

/// The coordinate of a rod downward.
proof fn lemma_downward<F: Fn(Operation) -> u32>(fpu: F, c: u32, o: u32, p: u32, y: int)
    requires
        accurate(fpu),
        finite(c) && finite(o) && finite(p),
        size(scaled(c)) <= 1000 * one(),
        size(scaled(o)) <= 1000 * one(),
        size(y) <= 21 * one(),
        INTEGERS * size(scaled(p) - (scaled(o) - y)) <= 430 * one(),
        size(scaled(difference(fpu, o, c))) <= 210 * one(),
    ensures
        ({
            let b = scaled(difference(fpu, o, c));
            INTEGERS * size(scaled(difference(fpu, c, p)) - (y - b)) <= 873 * one()
        }),
{
    lemma_one_is_large();
    let b = scaled(difference(fpu, o, c));
    assert(INTEGERS * size(-b - (scaled(c) - scaled(o))) <= 211 * one()) by {
        lemma_either_way(fpu, o, c);
    }
    lemma_along(fpu, c, o, p, -b, -y, 211, 430, 231);
}

/// The coordinates of a rod between two points.
proof fn lemma_rod_between<F: Fn(Operation) -> u32>(fpu: F, c: [u32; 3], o: [u32; 3], p: [u32; 3], x: int, y: int)
    requires
        accurate(fpu),
        nearby(o),
        nearby(c),
        finite(p@[0]) && finite(p@[1]) && finite(p@[2]),
        size(x) <= 21 * one(),
        size(y) <= 21 * one(),
        INTEGERS * size(scaled(p@[0]) - (scaled(o@[0]) + x)) <= 45 * one(),
        INTEGERS * size(scaled(p@[1]) - scaled(o@[1])) <= 44 * one(),
        INTEGERS * size(scaled(p@[2]) - (scaled(o@[2]) - y)) <= 430 * one(),
        size(scaled(difference(fpu, c@[0], o@[0]))) <= 30 * one(),
        size(scaled(difference(fpu, c@[1], o@[1]))) <= 20 * one(),
        size(scaled(difference(fpu, o@[2], c@[2]))) <= 210 * one(),
    ensures
        ({
            let k = one();
            let a = scaled(difference(fpu, c@[0], o@[0]));
            let g = scaled(difference(fpu, c@[1], o@[1]));
            let b = scaled(difference(fpu, o@[2], c@[2]));
            &&& INTEGERS * size(scaled(difference(fpu, c@[0], p@[0])) - (a - x)) <= 140 * k
            &&& INTEGERS * size(scaled(difference(fpu, c@[1], p@[1])) - g) <= 90 * k
            &&& INTEGERS * size(scaled(difference(fpu, c@[2], p@[2])) - (y - b)) <= 890 * k
        }),
{
    lemma_ahead(fpu, c@[0], o@[0], p@[0], x);
    lemma_across(fpu, c@[1], o@[1], p@[1]);
    lemma_downward(fpu, c@[2], o@[2], p@[2], y);
}

/// The coordinates of a rod.
#[verifier::spinoff_prover]
#[verifier::rlimit(60)]
proof fn lemma_rod<F: Fn(Operation) -> u32>(fpu: F, link: LinkParamsAtom01, theta: u32, c: [u32; 3], h: int)
    requires
        accurate(fpu),
        h == 20 || h == -20,
        nearby(link.r_a_0),
        nearby(c),
        scaled(link.r_a_0@[0]) == 0,
        size(scaled(link.r_a_0@[1])) <= 43 * one(),
        size(scaled(link.r_a_0@[2])) <= 180 * one(),
        finite(link.r_b_0@[0]),
        scaled(link.r_b_0@[0]) == h * one(),
        link.r_b_0@[1] == link.r_a_0@[1],
        link.r_b_0@[2] == link.r_a_0@[2],
        finite(sine(fpu, theta)) && finite(cosine(fpu, theta)),
        100 * size(scaled(sine(fpu, theta))) <= 102 * one(),
        100 * size(scaled(cosine(fpu, theta))) <= 102 * one(),
        size(scaled(difference(fpu, c@[0], link.r_a_0@[0]))) <= 30 * one(),
        size(scaled(difference(fpu, c@[1], link.r_a_0@[1]))) <= 20 * one(),
        size(scaled(difference(fpu, link.r_a_0@[2], c@[2]))) <= 210 * one(),
    ensures
        ({
            let r = apart(fpu, c, turned_bar(fpu, link, theta));
            let k = one();
            let a = scaled(difference(fpu, c@[0], link.r_a_0@[0]));
            let g = scaled(difference(fpu, c@[1], link.r_a_0@[1]));
            let b = scaled(difference(fpu, link.r_a_0@[2], c@[2]));
            &&& INTEGERS * size(scaled(r@[0]) - (a - h * scaled(cosine(fpu, theta)))) <= 140 * k
            &&& INTEGERS * size(scaled(r@[1]) - g) <= 90 * k
            &&& INTEGERS * size(scaled(r@[2]) - (h * scaled(sine(fpu, theta)) - b)) <= 890 * k
        }),
{
    lemma_one_is_large();
    lemma_bar(fpu, link, theta, h);
    let (cos, sin) = (scaled(cosine(fpu, theta)), scaled(sine(fpu, theta)));
    lemma_twenty(h, cos);
    lemma_twenty(h, sin);
    lemma_rod_between(fpu, c, link.r_a_0, turned_bar(fpu, link, theta), h * cos, h * sin);
}

/// A multiple by 20 or -20.
proof fn lemma_twenty(h: int, c: int)
    requires
        h == 20 || h == -20,
    ensures
        h * c == 20 * c || h * c == -20 * c,
{
    assert(h * c == 20 * c || h * c == -20 * c) by (nonlinear_arith)
        requires
            h == 20 || h == -20,
    ;
}

/// The sign of a number that is not zero.
proof fn lemma_below_zero(a: u32)
    requires
        finite(a),
        scaled(a) != 0,
    ensures
        below(a, 0) == (scaled(a) < 0),
{
    lemma_unit();
}

} // verus!
