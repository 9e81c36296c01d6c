//! Sine and cosine on the unit circle.
//!
//! The two Taylor polynomials of [`crate::ankle::sine`] and
//! [`crate::ankle::cosine`] are taken at an angle `x / k`, where `k` is [`one`].
//! Powers of it are counted against the tenth power of `k`, so they are integers.
use crate::ankle::accuracy::lemma_unit;
use crate::ankle::{
    cosine, sine, wrapped, COS_4, COS_6, COS_8, HALF_TURN, HALF_TURN_NEG, SIN_3, SIN_5, SIN_7,
    SIN_9,
};
use crate::arithmetic::{
    accurate, difference, lemma_difference_error, lemma_one_is_large, lemma_product_error,
    lemma_size_of_product, lemma_sum_error, product, reach, size, sum, Operation, HALF, INTEGERS,
    ONE,
};
use crate::binary32::{finite, one, scaled};
use vstd::arithmetic::power::{lemma_pow0, lemma_pow1, lemma_pow_adds, lemma_pow_positive, pow};
use vstd::arithmetic::power2::{lemma2_to64, lemma_pow2_adds, pow2};
use vstd::prelude::*;

verus! {

/// The power `x^i` with the factors `k` that it lacks to degree `d`.
#[verifier::opaque]
pub open spec fn term(x: int, k: int, i: nat, d: nat) -> int {
    pow(x, i) * pow(k, (d - i) as nat)
}

/// Powers and degrees add up in a product.
pub proof fn lemma_terms(x: int, k: int, i: nat, d: nat, j: nat, e: nat)
    requires
        i <= d,
        j <= e,
    ensures
        term(x, k, i, d) * term(x, k, j, e) == term(x, k, i + j, d + e),
{
    reveal(term);
    let (a, b, c, f) = (pow(x, i), pow(k, (d - i) as nat), pow(x, j), pow(k, (e - j) as nat));
    lemma_pow_adds(x, i, j);
    lemma_pow_adds(k, (d - i) as nat, (e - j) as nat);
    assert((a * b) * (c * f) == (a * c) * (b * f)) by (nonlinear_arith);
}

/// Terms without the number, and with it once.
pub proof fn lemma_first_terms(x: int, k: int)
    ensures
        term(x, k, 0, 1) == k,
        term(x, k, 0, 10) == pow(k, 10),
        term(x, k, 0, 20) == pow(k, 20),
        term(x, k, 1, 1) == x,
        term(x, k, 1, 10) == x * pow(k, 9),
{
    reveal(term);
    lemma_pow0(x);
    lemma_pow0(k);
    lemma_pow1(x);
    lemma_pow1(k);
}

/// Products of multiples.
proof fn lemma_multiples(p: int, a: int, q: int, b: int)
    ensures
        (p * a) * (q * b) == (p * q) * (a * b),
{
    assert((p * a) * (q * b) == (p * q) * (a * b)) by (nonlinear_arith);
}

/// The square of a sum of five numbers.
proof fn lemma_square_of_five(a: int, b: int, c: int, d: int, e: int)
    ensures
        ({
            let s = a + b + c + d + e;
            s * s == a * a + 2 * (a * b) + 2 * (a * c) + b * b + 2 * (a * d) + 2 * (b * c) + 2 * (a * e)
                + 2 * (b * d) + c * c + 2 * (b * e) + 2 * (c * d) + 2 * (c * e) + d * d + 2 * (d * e) + e
                * e
        }),
{
    let (f, g) = (a + b, c + d + e);
    assert((f + g) * (f + g) == f * f + 2 * (f * g) + g * g) by (nonlinear_arith);
    assert(f * f == a * a + 2 * (a * b) + b * b) by (nonlinear_arith)
        requires
            f == a + b,
    ;
    assert(g * g == c * c + d * d + e * e + 2 * (c * d) + 2 * (c * e) + 2 * (d * e)) by (nonlinear_arith)
        requires
            g == c + d + e,
    ;
    assert(f * g == a * c + a * d + a * e + b * c + b * d + b * e) by (nonlinear_arith)
        requires
            f == a + b,
            g == c + d + e,
    ;
}

/// The square of a polynomial whose powers are those from `i` on, in steps of two.
proof fn lemma_square_of_polynomial(
    x: int,
    k: int,
    i: nat,
    p0: int,
    p1: int,
    p2: int,
    p3: int,
    p4: int,
)
    requires
        i <= 1,
    ensures
        ({
            let s = p0 * term(x, k, i, 10) + p1 * term(x, k, i + 2, 10) + p2 * term(x, k, i + 4, 10) + p3
                * term(x, k, i + 6, 10) + p4 * term(x, k, i + 8, 10);
            s * s == (p0 * p0) * term(x, k, 2 * i, 20) + 2 * ((p0 * p1) * term(x, k, 2 * i + 2, 20)) + 2
                * ((p0 * p2) * term(x, k, 2 * i + 4, 20)) + (p1 * p1) * term(x, k, 2 * i + 4, 20) + 2 * (
            (p0 * p3) * term(x, k, 2 * i + 6, 20)) + 2 * ((p1 * p2) * term(x, k, 2 * i + 6, 20)) + 2 * ((
            p0 * p4) * term(x, k, 2 * i + 8, 20)) + 2 * ((p1 * p3) * term(x, k, 2 * i + 8, 20)) + (p2
                * p2) * term(x, k, 2 * i + 8, 20) + 2 * ((p1 * p4) * term(x, k, 2 * i + 10, 20)) + 2 * ((
            p2 * p3) * term(x, k, 2 * i + 10, 20)) + 2 * ((p2 * p4) * term(x, k, 2 * i + 12, 20)) + (p3
                * p3) * term(x, k, 2 * i + 12, 20) + 2 * ((p3 * p4) * term(x, k, 2 * i + 14, 20)) + (p4
                * p4) * term(x, k, 2 * i + 16, 20)
        }),
{
    let (a, b, c) = (term(x, k, i, 10), term(x, k, i + 2, 10), term(x, k, i + 4, 10));
    let (d, e) = (term(x, k, i + 6, 10), term(x, k, i + 8, 10));
    lemma_square_of_five(p0 * a, p1 * b, p2 * c, p3 * d, p4 * e);
    lemma_multiples(p0, a, p0, a);
    lemma_multiples(p0, a, p1, b);
    lemma_multiples(p0, a, p2, c);
    lemma_multiples(p0, a, p3, d);
    lemma_multiples(p0, a, p4, e);
    lemma_multiples(p1, b, p1, b);
    lemma_multiples(p1, b, p2, c);
    lemma_multiples(p1, b, p3, d);
    lemma_multiples(p1, b, p4, e);
    lemma_multiples(p2, c, p2, c);
    lemma_multiples(p2, c, p3, d);
    lemma_multiples(p2, c, p4, e);
    lemma_multiples(p3, d, p3, d);
    lemma_multiples(p3, d, p4, e);
    lemma_multiples(p4, e, p4, e);
    lemma_terms(x, k, i, 10, i, 10);
    lemma_terms(x, k, i, 10, i + 2, 10);
    lemma_terms(x, k, i, 10, i + 4, 10);
    lemma_terms(x, k, i, 10, i + 6, 10);
    lemma_terms(x, k, i, 10, i + 8, 10);
    lemma_terms(x, k, i + 2, 10, i + 2, 10);
    lemma_terms(x, k, i + 2, 10, i + 4, 10);
    lemma_terms(x, k, i + 2, 10, i + 6, 10);
    lemma_terms(x, k, i + 2, 10, i + 8, 10);
    lemma_terms(x, k, i + 4, 10, i + 4, 10);
    lemma_terms(x, k, i + 4, 10, i + 6, 10);
    lemma_terms(x, k, i + 4, 10, i + 8, 10);
    lemma_terms(x, k, i + 6, 10, i + 6, 10);
    lemma_terms(x, k, i + 6, 10, i + 8, 10);
    lemma_terms(x, k, i + 8, 10, i + 8, 10);
}

/// Two more powers make at most 7/4 as much.
proof fn lemma_next_term(x: int, k: int, i: nat)
    requires
        0 < k,
        4 * (x * x) <= 7 * (k * k),
        i <= 18,
        0 <= term(x, k, i, 20),
    ensures
        0 <= term(x, k, i + 2, 20),
        4 * term(x, k, i + 2, 20) <= 7 * term(x, k, i, 20),
{
    reveal(term);
    let (a, b) = (pow(x, i), pow(k, (18 - i) as nat));
    lemma_pow_adds(x, i, 2);
    lemma_pow_adds(k, (18 - i) as nat, 2);
    lemma_square(x);
    lemma_square(k);
    let (s, t) = (x * x, k * k);
    assert((a * s) * b == s * (a * b) && a * (b * t) == t * (a * b)) by (nonlinear_arith);
    assert(0 < t && 0 <= s) by (nonlinear_arith)
        requires
            0 < k,
            t == k * k,
            s == x * x,
    ;
    let m = a * b;
    assert(0 <= m) by (nonlinear_arith)
        requires
            0 < t,
            0 <= t * m,
    ;
    assert(0 <= s * m && 4 * (s * m) <= 7 * (t * m)) by (nonlinear_arith)
        requires
            0 <= m,
            0 <= s,
            4 * s <= 7 * t,
    ;
}

/// The second power.
proof fn lemma_square(x: int)
    ensures
        pow(x, 2) == x * x,
{
    lemma_pow_adds(x, 1, 1);
    lemma_pow1(x);
}

/// `9!` times the sine's terms.
pub open spec fn odd_part(x: int, k: int) -> int {
    362880 * term(x, k, 1, 10) - 60480 * term(x, k, 3, 10) + 3024 * term(x, k, 5, 10) - 72 * term(
        x,
        k,
        7,
        10,
    ) + term(x, k, 9, 10)
}

/// `9!` times the cosine's terms.
pub open spec fn even_part(x: int, k: int) -> int {
    362880 * term(x, k, 0, 10) - 181440 * term(x, k, 2, 10) + 15120 * term(x, k, 4, 10) - 504 * term(
        x,
        k,
        6,
        10,
    ) + 9 * term(x, k, 8, 10)
}

/// The squares of the two polynomials sum up to that of `9!`, within 2 parts in 100000,
/// for angles whose square is at most 7/4.
proof fn lemma_polynomials(x: int, k: int)
    requires
        0 < k,
        4 * (x * x) <= 7 * (k * k),
    ensures
        ({
            let (p, q) = (odd_part(x, k), even_part(x, k));
            let t = 362880 * pow(k, 10);
            50000 * size(p * p + q * q - t * t) <= t * t
        }),
{
    lemma_square_of_polynomial(x, k, 1, 362880, -60480, 3024, -72, 1);
    lemma_square_of_polynomial(x, k, 0, 362880, -181440, 15120, -504, 9);
    lemma_pow_adds(k, 10, 10);
    lemma_pow_positive(k, 20);
    lemma_first_terms(x, k);
    lemma_multiples(362880, pow(k, 10), 362880, pow(k, 10));
    lemma_next_term(x, k, 0);
    lemma_next_term(x, k, 2);
    lemma_next_term(x, k, 4);
    lemma_next_term(x, k, 6);
    lemma_next_term(x, k, 8);
    lemma_next_term(x, k, 10);
    lemma_next_term(x, k, 12);
    lemma_next_term(x, k, 14);
    lemma_next_term(x, k, 16);
}

/// The product of two numbers that are near a number each, is near the product of
/// those. `k` is one, `q` and `t` are its ninth and tenth power.
proof fn lemma_near_product(
    k: int,
    q: int,
    t: int,
    a: int,
    b: int,
    v: int,
    d: int,
    e: int,
    de: int,
    m: int,
    n: int,
    l: int,
    r: int,
    bound: int,
)
    requires
        INTEGERS <= k,
        0 < q,
        t == k * q,
        d * e == t * de,
        INTEGERS * size(a * q - d) <= m * t,
        INTEGERS * size(b * q - e) <= n * t,
        size(d) <= l * t,
        size(e) <= r * t,
        INTEGERS * size(v * k - a * b) <= size(a * b) + INTEGERS * k,
        0 <= m <= INTEGERS,
        0 <= n <= INTEGERS,
        m * n <= INTEGERS,
        0 <= l,
        0 <= r,
        l * n + r * m + (l + 1) * (r + 1) + 2 <= bound,
    ensures
        INTEGERS * size(v * q - de) <= bound * t,
{
    let (f, g, h) = (a * q - d, b * q - e, v * k - a * b);
    let tt = t * t;
    assert(0 < t) by (nonlinear_arith)
        requires
            t == k * q,
            0 < k,
            0 < q,
    ;
    assert(0 < tt) by (nonlinear_arith)
        requires
            tt == t * t,
            0 < t,
    ;
    assert((v * q - de) * t == d * g + f * e + f * g + h * (q * q)) by {
        assert((v * q) * t == (v * k) * (q * q)) by (nonlinear_arith)
            requires
                t == k * q,
        ;
        assert((v * k) * (q * q) == h * (q * q) + (a * b) * (q * q)) by (nonlinear_arith)
            requires
                h == v * k - a * b,
        ;
        assert((a * b) * (q * q) == (a * q) * (b * q)) by (nonlinear_arith);
        assert((a * q) * (b * q) == d * e + d * g + f * e + f * g) by (nonlinear_arith)
            requires
                a * q == d + f,
                b * q == e + g,
        ;
        assert((v * q - de) * t == (v * q) * t - t * de) by (nonlinear_arith);
    }
    assert(INTEGERS * size(d * g) <= (l * n) * tt) by {
        lemma_size_of_product(d, INTEGERS * g, l * t, n * t);
        assert(d * (INTEGERS * g) == INTEGERS * (d * g)) by (nonlinear_arith);
        assert((l * t) * (n * t) == (l * n) * (t * t)) by (nonlinear_arith);
    }
    assert(INTEGERS * size(f * e) <= (r * m) * tt) by {
        lemma_size_of_product(INTEGERS * f, e, m * t, r * t);
        assert((INTEGERS * f) * e == INTEGERS * (f * e)) by (nonlinear_arith);
        assert((m * t) * (r * t) == (r * m) * (t * t)) by (nonlinear_arith);
    }
    assert(size(f) <= t && size(g) <= t && INTEGERS * size(f * g) <= tt) by {
        assert(m * t <= INTEGERS * t && n * t <= INTEGERS * t) by (nonlinear_arith)
            requires
                m <= INTEGERS,
                n <= INTEGERS,
                0 < t,
        ;
        lemma_size_of_product(INTEGERS * f, INTEGERS * g, m * t, n * t);
        assert((INTEGERS * f) * (INTEGERS * g) == INTEGERS * (INTEGERS * (f * g))) by (nonlinear_arith);
        assert((m * t) * (n * t) == (m * n) * tt) by (nonlinear_arith)
            requires
                tt == t * t,
        ;
        assert((m * n) * tt <= INTEGERS * tt) by (nonlinear_arith)
            requires
                m * n <= INTEGERS,
                0 < tt,
        ;
    }
    assert(INTEGERS * size(h * (q * q)) <= ((l + 1) * (r + 1)) * tt + tt) by {
        let qq = q * q;
        assert(0 < qq) by (nonlinear_arith)
            requires
                qq == q * q,
                0 < q,
        ;
        assert((l + 1) * t == l * t + t && (r + 1) * t == r * t + t) by (nonlinear_arith);
        lemma_size_of_product(a * q, b * q, (l + 1) * t, (r + 1) * t);
        assert(((l + 1) * t) * ((r + 1) * t) == ((l + 1) * (r + 1)) * tt) by (nonlinear_arith)
            requires
                tt == t * t,
        ;
        assert((a * q) * (b * q) == (a * b) * qq) by (nonlinear_arith)
            requires
                qq == q * q,
        ;
        assert(size((a * b) * qq) == size(a * b) * qq && size(h * qq) == size(h) * qq) by (nonlinear_arith)
            requires
                0 < qq,
        ;
        assert((INTEGERS * size(h)) * qq <= size(a * b) * qq + (INTEGERS * k) * qq) by (nonlinear_arith)
            requires
                INTEGERS * size(h) <= size(a * b) + INTEGERS * k,
                0 < qq,
        ;
        assert((INTEGERS * size(h)) * qq == INTEGERS * (size(h) * qq)) by (nonlinear_arith);
        assert((INTEGERS * k) * qq <= (k * k) * qq) by (nonlinear_arith)
            requires
                INTEGERS <= k,
                0 < qq,
        ;
        assert((k * k) * qq == tt) by (nonlinear_arith)
            requires
                tt == t * t,
                t == k * q,
                qq == q * q,
        ;
    }
    assert((l * n) * tt + (r * m) * tt + ((l + 1) * (r + 1)) * tt + 2 * tt <= bound * tt)
        by (nonlinear_arith)
        requires
            l * n + r * m + (l + 1) * (r + 1) + 2 <= bound,
            0 < tt,
    ;
    let z = v * q - de;
    assert(size(z * t) == size(z) * t) by (nonlinear_arith)
        requires
            0 < t,
    ;
    assert(INTEGERS * size(z) <= bound * t) by (nonlinear_arith)
        requires
            INTEGERS * (size(z) * t) <= bound * tt,
            tt == t * t,
            0 < t,
    ;
}

/// A number is near a power of the angle, within `n` parts in 2^24.
pub open spec fn near(v: u32, x: int, i: nat, n: int) -> bool {
    &&& finite(v)
    &&& INTEGERS * size(scaled(v) * pow(one(), 9) - term(x, one(), i, 10)) <= n * pow(one(), 10)
}

/// The power is at most `l`, in absolute value.
pub open spec fn limited(x: int, i: nat, l: int) -> bool {
    size(term(x, one(), i, 10)) <= l * pow(one(), 10)
}

/// Numbers near powers: their size.
pub proof fn lemma_near_size(v: u32, x: int, i: nat, n: int, l: int)
    requires
        near(v, x, i, n),
        limited(x, i, l),
        0 <= n <= INTEGERS,
        0 <= l,
    ensures
        size(scaled(v)) <= (l + 1) * one(),
        one() * pow(one(), 9) == pow(one(), 10),
        0 < pow(one(), 9),
{
    let (k, q, t, y) = (one(), pow(one(), 9), pow(one(), 10), scaled(v));
    lemma_one_is_large();
    lemma_pow_positive(k, 9);
    lemma_pow_adds(k, 1, 9);
    lemma_pow1(k);
    assert(0 < t) by (nonlinear_arith)
        requires
            t == k * q,
            0 < k,
            0 < q,
    ;
    assert(n * t <= INTEGERS * t) by (nonlinear_arith)
        requires
            n <= INTEGERS,
            0 < t,
    ;
    assert((l + 1) * t == l * t + t) by (nonlinear_arith);
    assert(size(y * q) == size(y) * q) by (nonlinear_arith)
        requires
            0 < q,
    ;
    assert(size(y) <= (l + 1) * k) by (nonlinear_arith)
        requires
            size(y) * q <= (l + 1) * t,
            t == k * q,
            0 < q,
    ;
}

/// The product of numbers near powers.
pub proof fn lemma_next_near<F: Fn(Operation) -> u32>(
    fpu: F,
    x: int,
    a: u32,
    i: nat,
    m: int,
    l: int,
    b: u32,
    j: nat,
    n: int,
    r: int,
    bound: int,
)
    requires
        accurate(fpu),
        near(a, x, i, m),
        limited(x, i, l),
        near(b, x, j, n),
        limited(x, j, r),
        i + j <= 10,
        0 <= m <= INTEGERS,
        0 <= n <= INTEGERS,
        m * n <= INTEGERS,
        0 <= l <= 100000,
        0 <= r <= 100000,
        l * n + r * m + (l + 1) * (r + 1) + 2 <= bound,
    ensures
        near(product(fpu, a, b), x, i + j, bound),
{
    let k = one();
    lemma_one_is_large();
    lemma_near_size(a, x, i, m, l);
    lemma_near_size(b, x, j, n, r);
    assert((l + 1) * k <= 200000 * k && (r + 1) * k <= 200000 * k) by (nonlinear_arith)
        requires
            l <= 100000,
            r <= 100000,
            0 < k,
    ;
    lemma_size_of_product(scaled(a), scaled(b), 200000 * k, 200000 * k);
    assert((200000 * k) * (200000 * k) <= reach() * k) by (nonlinear_arith)
        requires
            reach() == 0x1_0000_0000_0000_0000 * k,
            0 < k,
    ;
    lemma_product_error(fpu, a, b);
    lemma_terms(x, k, i, 10, j, 10);
    lemma_terms(x, k, 0, 10, i + j, 10);
    lemma_first_terms(x, k);
    lemma_near_product(
        k,
        pow(k, 9),
        pow(k, 10),
        scaled(a),
        scaled(b),
        scaled(product(fpu, a, b)),
        term(x, k, i, 10),
        term(x, k, j, 10),
        term(x, k, i + j, 10),
        m,
        n,
        l,
        r,
        bound,
    );
}

/// One more power of an angle up to 1.32 makes at most 1.32 times as much.
proof fn lemma_next_limit(x: int, i: nat)
    requires
        100 * size(x) <= 132 * one(),
        i < 10,
    ensures
        100 * size(term(x, one(), i + 1, 10)) <= 132 * size(term(x, one(), i, 10)),
        size(x) <= one() ==> size(term(x, one(), i + 1, 10)) <= size(term(x, one(), i, 10)),
{
    let k = one();
    let (m, n) = (term(x, k, i, 10), term(x, k, i + 1, 10));
    lemma_one_is_large();
    lemma_terms(x, k, 1, 1, i, 10);
    lemma_terms(x, k, 0, 1, i + 1, 10);
    lemma_first_terms(x, k);
    assert(size(x * m) == size(x) * size(m) && size(k * n) == k * size(n)) by (nonlinear_arith)
        requires
            0 < k,
    ;
    assert(100 * size(n) <= 132 * size(m)) by (nonlinear_arith)
        requires
            100 * size(x) <= 132 * k,
            size(x) * size(m) == k * size(n),
            0 <= size(m),
            0 < k,
    ;
    if size(x) <= k {
        assert(size(n) <= size(m)) by (nonlinear_arith)
            requires
                size(x) <= k,
                size(x) * size(m) == k * size(n),
                0 <= size(m),
                0 < k,
        ;
    }
}

/// Powers of an angle up to 1.32.
pub proof fn lemma_limits(x: int)
    requires
        100 * size(x) <= 132 * one(),
    ensures
        term(x, one(), 0, 10) == pow(one(), 10),
        limited(x, 1, 2) && limited(x, 2, 2) && limited(x, 3, 3) && limited(x, 4, 4) && limited(x, 5, 5),
        limited(x, 6, 6) && limited(x, 7, 7) && limited(x, 8, 10) && limited(x, 9, 13),
        size(x) <= one() ==> limited(x, 3, 1) && limited(x, 5, 1) && limited(x, 7, 1) && limited(x, 9, 1),
{
    lemma_one_is_large();
    lemma_first_terms(x, one());
    lemma_pow_positive(one(), 10);
    lemma_next_limit(x, 0);
    lemma_next_limit(x, 1);
    lemma_next_limit(x, 2);
    lemma_next_limit(x, 3);
    lemma_next_limit(x, 4);
    lemma_next_limit(x, 5);
    lemma_next_limit(x, 6);
    lemma_next_limit(x, 7);
    lemma_next_limit(x, 8);
}

/// Rounded powers of an angle up to 1.32, as the sine takes them.
pub proof fn lemma_odd_powers<F: Fn(Operation) -> u32>(fpu: F, x: u32)
    requires
        accurate(fpu),
        finite(x),
        100 * size(scaled(x)) <= 132 * one(),
    ensures
        ({
            let x2 = product(fpu, x, x);
            let x3 = product(fpu, x2, x);
            let x5 = product(fpu, x3, x2);
            let x7 = product(fpu, x5, x2);
            let x9 = product(fpu, x7, x2);
            let y = scaled(x);
            &&& near(x, y, 1, 0)
            &&& near(x2, y, 2, 11)
            &&& near(x3, y, 3, 33)
            &&& near(x5, y, 5, 113)
            &&& near(x7, y, 7, 301)
            &&& near(x9, y, 9, 705)
        }),
{
    let y = scaled(x);
    let x2 = product(fpu, x, x);
    let x3 = product(fpu, x2, x);
    let x5 = product(fpu, x3, x2);
    let x7 = product(fpu, x5, x2);
    lemma_limits(y);
    lemma_first_terms(y, one());
    lemma_next_near(fpu, y, x, 1, 0, 2, x, 1, 0, 2, 11);
    lemma_next_near(fpu, y, x2, 2, 11, 2, x, 1, 0, 2, 33);
    lemma_next_near(fpu, y, x3, 3, 33, 3, x2, 2, 11, 2, 113);
    lemma_next_near(fpu, y, x5, 5, 113, 5, x2, 2, 11, 2, 301);
    lemma_next_near(fpu, y, x7, 7, 301, 7, x2, 2, 11, 2, 705);
}

/// Rounded powers of an angle up to 1.32, as the cosine takes them.
proof fn lemma_even_powers<F: Fn(Operation) -> u32>(fpu: F, x: u32)
    requires
        accurate(fpu),
        finite(x),
        100 * size(scaled(x)) <= 132 * one(),
    ensures
        ({
            let x2 = product(fpu, x, x);
            let x4 = product(fpu, x2, x2);
            let x6 = product(fpu, x4, x2);
            let x8 = product(fpu, x6, x2);
            let y = scaled(x);
            &&& near(x2, y, 2, 11)
            &&& near(x4, y, 4, 55)
            &&& near(x6, y, 6, 171)
            &&& near(x8, y, 8, 431)
        }),
{
    let y = scaled(x);
    let x2 = product(fpu, x, x);
    let x4 = product(fpu, x2, x2);
    let x6 = product(fpu, x4, x2);
    lemma_limits(y);
    lemma_first_terms(y, one());
    lemma_next_near(fpu, y, x, 1, 0, 2, x, 1, 0, 2, 11);
    lemma_next_near(fpu, y, x2, 2, 11, 2, x2, 2, 11, 2, 55);
    lemma_next_near(fpu, y, x4, 4, 55, 4, x2, 2, 11, 2, 171);
    lemma_next_near(fpu, y, x6, 6, 171, 6, x2, 2, 11, 2, 431);
}

/// `c` is the fraction `u / n`, within two parts in 2^24.
pub open spec fn fraction(c: u32, u: int, n: int) -> bool {
    &&& finite(c)
    &&& INTEGERS * size(n * scaled(c) - u * one()) <= 2 * (u * one())
}

/// The product of a number near a power and the fraction `u / n`.
pub proof fn lemma_near_part<F: Fn(Operation) -> u32>(
    fpu: F,
    x: int,
    a: u32,
    i: nat,
    m: int,
    l: int,
    c: u32,
    u: int,
    n: int,
    bound: int,
)
    requires
        accurate(fpu),
        near(a, x, i, m),
        limited(x, i, l),
        fraction(c, u, n),
        0 <= m <= 1000000,
        0 <= l <= 100000,
        0 < u <= 35,
        0 < n <= 362880,
        u * m + u * (4 * (l + 1)) + 1 <= bound,
    ensures
        ({
            let p = product(fpu, a, c);
            &&& finite(p)
            &&& INTEGERS * size(n * (scaled(p) * pow(one(), 9)) - u * term(x, one(), i, 10)) <= bound
                * pow(one(), 10)
            &&& n * size(scaled(p)) <= (u * (l + 1) + 1) * one()
        }),
{
    let (k, q, t) = (one(), pow(one(), 9), pow(one(), 10));
    let (g, y, p) = (scaled(a), scaled(c), scaled(product(fpu, a, c)));
    lemma_one_is_large();
    lemma_near_size(a, x, i, m, l);
    assert((l + 1) * k <= 200000 * k && u * k <= 35 * k) by (nonlinear_arith)
        requires
            l <= 100000,
            u <= 35,
            0 < k,
    ;
    assert(size(y) <= 70 * k) by (nonlinear_arith)
        requires
            size(n * y) <= 2 * (u * k),
            u * k <= 35 * k,
            0 < n,
            0 < k,
    ;
    lemma_size_of_product(g, y, 200000 * k, 70 * k);
    assert((200000 * k) * (70 * k) <= reach() * k) by (nonlinear_arith)
        requires
            reach() == 0x1_0000_0000_0000_0000 * k,
            0 < k,
    ;
    lemma_product_error(fpu, a, c);
    let (d, e, z) = (n * y - u * k, p * k - g * y, n * p - u * g);
    assert(z * k == g * d + n * e) by {
        assert(n * e == n * (p * k) - n * (g * y)) by (nonlinear_arith)
            requires
                e == p * k - g * y,
        ;
        assert(g * d == g * (n * y) - (u * g) * k) by (nonlinear_arith)
            requires
                d == n * y - u * k,
        ;
        assert(n * (g * y) == g * (n * y)) by (nonlinear_arith);
        assert(z * k == n * (p * k) - (u * g) * k) by (nonlinear_arith)
            requires
                z == n * p - u * g,
        ;
    }
    let w = u * (size(g) * k);
    assert(size(g) * (2 * (u * k)) == 2 * w) by (nonlinear_arith)
        requires
            w == u * (size(g) * k),
    ;
    assert(INTEGERS * size(g * d) <= 2 * w) by {
        lemma_size_of_product(g, INTEGERS * d, size(g), 2 * (u * k));
        assert(g * (INTEGERS * d) == INTEGERS * (g * d)) by (nonlinear_arith);
    }
    assert(INTEGERS * size(n * e) <= 2 * w + k * k) by {
        assert(size(n * e) == n * size(e) && n * size(g * y) == size(g * (n * y))) by (nonlinear_arith)
            requires
                0 < n,
        ;
        lemma_size_of_product(g, n * y, size(g), 2 * (u * k));
        assert(n * (INTEGERS * size(e)) <= n * size(g * y) + n * (INTEGERS * k)) by (nonlinear_arith)
            requires
                INTEGERS * size(e) <= size(g * y) + INTEGERS * k,
                0 < n,
        ;
        assert(n * (INTEGERS * size(e)) == INTEGERS * (n * size(e))) by (nonlinear_arith);
        assert(n * (INTEGERS * k) <= k * k) by (nonlinear_arith)
            requires
                0 < n <= 362880,
                k >= 0x1_0000_0000_0000_0000,
        ;
    }
    assert(INTEGERS * size(z) <= 4 * (u * size(g)) + k) by {
        assert(size(z * k) == size(z) * k) by (nonlinear_arith)
            requires
                0 < k,
        ;
        assert(w == (u * size(g)) * k) by (nonlinear_arith)
            requires
                w == u * (size(g) * k),
        ;
        let v = u * size(g);
        assert(INTEGERS * size(z) <= 4 * v + k) by (nonlinear_arith)
            requires
                INTEGERS * (size(z) * k) <= 4 * (v * k) + k * k,
                0 < k,
        ;
    }
    assert(u * size(g) <= (u * (l + 1)) * k) by (nonlinear_arith)
        requires
            size(g) <= (l + 1) * k,
            0 < u,
    ;
    let f = g * q - term(x, k, i, 10);
    assert(n * (p * q) - u * term(x, k, i, 10) == z * q + u * f) by {
        assert(z * q == n * (p * q) - u * (g * q)) by (nonlinear_arith)
            requires
                z == n * p - u * g,
        ;
        assert(u * f == u * (g * q) - u * term(x, k, i, 10)) by (nonlinear_arith)
            requires
                f == g * q - term(x, k, i, 10),
        ;
    }
    let o = u * (4 * (l + 1)) + 1;
    assert(INTEGERS * size(z) <= o * k) by (nonlinear_arith)
        requires
            INTEGERS * size(z) <= 4 * ((u * (l + 1)) * k) + k,
            o == u * (4 * (l + 1)) + 1,
    ;
    assert(INTEGERS * size(z * q) <= o * t) by {
        assert(size(z * q) == size(z) * q) by (nonlinear_arith)
            requires
                0 < q,
        ;
        assert(INTEGERS * (size(z) * q) <= o * (k * q)) by (nonlinear_arith)
            requires
                INTEGERS * size(z) <= o * k,
                0 < q,
        ;
    }
    assert(INTEGERS * size(u * f) <= (u * m) * t) by {
        assert(size(u * f) == u * size(f)) by (nonlinear_arith)
            requires
                0 < u,
        ;
        assert(INTEGERS * (u * size(f)) <= (u * m) * t) by (nonlinear_arith)
            requires
                INTEGERS * size(f) <= m * t,
                0 < u,
        ;
    }
    assert(0 < t) by (nonlinear_arith)
        requires
            t == k * q,
            0 < k,
            0 < q,
    ;
    assert((u * m) * t + o * t <= bound * t) by (nonlinear_arith)
        requires
            u * m + o <= bound,
            0 < t,
    ;
    assert(n * size(p) <= (u * (l + 1) + 1) * k) by {
        assert(n * size(p) == size(n * p) && size(u * g) == u * size(g)) by (nonlinear_arith)
            requires
                0 < n,
                0 < u,
        ;
        assert(o * k <= INTEGERS * k) by (nonlinear_arith)
            requires
                o == u * (4 * (l + 1)) + 1,
                0 < u <= 35,
                0 <= l <= 100000,
                0 < k,
        ;
        assert((u * (l + 1) + 1) * k == (u * (l + 1)) * k + k) by (nonlinear_arith);
    }
}

/// The product of a number near a power and the fraction `1 / n`.
pub proof fn lemma_share<F: Fn(Operation) -> u32>(
    fpu: F,
    x: int,
    a: u32,
    i: nat,
    m: int,
    l: int,
    c: u32,
    n: int,
    bound: int,
)
    requires
        accurate(fpu),
        near(a, x, i, m),
        limited(x, i, l),
        fraction(c, 1, n),
        0 <= m <= 1000000,
        0 <= l <= 100000,
        0 < n <= 362880,
        m + 4 * (l + 1) + 1 <= bound,
    ensures
        ({
            let p = product(fpu, a, c);
            &&& finite(p)
            &&& INTEGERS * size(n * (scaled(p) * pow(one(), 9)) - term(x, one(), i, 10)) <= bound * pow(
                one(),
                10,
            )
            &&& n * size(scaled(p)) <= (l + 2) * one()
        }),
{
    lemma_near_part(fpu, x, a, i, m, l, c, 1, n, bound);
}

/// The coefficients of the sine.
pub proof fn lemma_sine_coefficients()
    ensures
        fraction(SIN_3, 1, 6),
        fraction(SIN_5, 1, 120),
        fraction(SIN_7, 1, 5040),
        fraction(SIN_9, 1, 362880),
{
    lemma2_to64();
    lemma_pow2_adds(32, 4);
    lemma_pow2_adds(32, 10);
    assert(pow2(36) == 0x10_0000_0000 && pow2(42) == 0x400_0000_0000);
    lemma_pow2_adds(123, 26);
    lemma_pow2_adds(119, 30);
    lemma_pow2_adds(113, 36);
    lemma_pow2_adds(107, 42);
    assert(scaled(SIN_3) == 0xAA_AAAB * pow2(123));
    assert(scaled(SIN_5) == 0x88_8889 * pow2(119));
    assert(scaled(SIN_7) == 0xD0_0D01 * pow2(113));
    assert(scaled(SIN_9) == 0xB8_EF1D * pow2(107));
}

/// The coefficients of the cosine.
pub proof fn lemma_cosine_coefficients()
    ensures
        fraction(HALF, 1, 2),
        fraction(COS_4, 1, 24),
        fraction(COS_6, 1, 720),
        fraction(COS_8, 1, 40320),
{
    lemma2_to64();
    lemma_pow2_adds(32, 1);
    lemma_pow2_adds(32, 7);
    assert(pow2(33) == 0x2_0000_0000 && pow2(39) == 0x80_0000_0000);
    lemma_pow2_adds(125, 24);
    lemma_pow2_adds(121, 28);
    lemma_pow2_adds(116, 33);
    lemma_pow2_adds(110, 39);
    assert(scaled(HALF) == 0x80_0000 * pow2(125));
    assert(scaled(COS_4) == 0xAA_AAAB * pow2(121));
    assert(scaled(COS_6) == 0xB6_0B61 * pow2(116));
    assert(scaled(COS_8) == 0xD0_0D01 * pow2(110));
}

/// An angle up to 1.32 needs no winding back.
proof fn lemma_not_wound<F: Fn(Operation) -> u32>(fpu: F, x: u32)
    requires
        finite(x),
        100 * size(scaled(x)) <= 132 * one(),
    ensures
        wrapped(fpu, x) == x,
{
    lemma2_to64();
    lemma_pow2_adds(127, 22);
    assert(scaled(HALF_TURN) == 0xC9_0FDB * pow2(127));
    assert(scaled(HALF_TURN_NEG) == -0xC9_0FDB * pow2(127));
    lemma_one_is_large();
}

/// A rounded alternating sum.
pub open spec fn alternating<F: Fn(Operation) -> u32>(fpu: F, a: u32, b: u32, c: u32, d: u32, e: u32) -> u32 {
    sum(fpu, difference(fpu, sum(fpu, difference(fpu, a, b), c), d), e)
}

/// An alternating sum, counted against the tenth power of one.
proof fn lemma_alternating<F: Fn(Operation) -> u32>(fpu: F, a: u32, b: u32, c: u32, d: u32, e: u32)
    requires
        accurate(fpu),
        finite(a) && finite(b) && finite(c) && finite(d) && finite(e),
        size(scaled(a)) <= 2 * one(),
        size(scaled(b)) <= 2 * one(),
        4 * size(scaled(c)) <= one(),
        4 * size(scaled(d)) <= one(),
        4 * size(scaled(e)) <= one(),
    ensures
        ({
            let s = alternating(fpu, a, b, c, d, e);
            let q = pow(one(), 9);
            &&& finite(s)
            &&& size(scaled(s)) <= 5 * one()
            &&& INTEGERS * size(
                scaled(s) * q - (scaled(a) * q - scaled(b) * q + scaled(c) * q - scaled(d) * q + scaled(e)
                    * q),
            ) <= 20 * pow(one(), 10)
        }),
{
    let (k, q) = (one(), pow(one(), 9));
    lemma_one_is_large();
    let (v, w, x, y, z) = (scaled(a), scaled(b), scaled(c), scaled(d), scaled(e));
    let first = difference(fpu, a, b);
    lemma_difference_error(fpu, a, b);
    let n = scaled(first);
    assert(INTEGERS * size(n - (v - w)) <= 5 * k && 100 * size(n) <= 401 * k);
    let second = sum(fpu, first, c);
    lemma_sum_error(fpu, first, c);
    let o = scaled(second);
    assert(INTEGERS * size(o - (n + x)) <= 5 * k && 100 * size(o) <= 427 * k);
    let third = difference(fpu, second, d);
    lemma_difference_error(fpu, second, d);
    let p = scaled(third);
    assert(INTEGERS * size(p - (o - y)) <= 5 * k && 100 * size(p) <= 453 * k);
    lemma_sum_error(fpu, third, e);
    let s = scaled(sum(fpu, third, e));
    assert(INTEGERS * size(s - (p + z)) <= 5 * k && size(s) <= 5 * k);
    lemma_adding_up(v, w, x, y, z, n, o, p, s, q);
    lemma_rounding(s - (v - w + x - y + z), 20);
}

/// Four errors add up.
proof fn lemma_adding_up(v: int, w: int, x: int, y: int, z: int, n: int, o: int, p: int, s: int, q: int)
    requires
        INTEGERS * size(n - (v - w)) <= 5 * one(),
        INTEGERS * size(o - (n + x)) <= 5 * one(),
        INTEGERS * size(p - (o - y)) <= 5 * one(),
        INTEGERS * size(s - (p + z)) <= 5 * one(),
    ensures
        INTEGERS * size(s - (v - w + x - y + z)) <= 20 * one(),
        s * q - (v * q - w * q + x * q - y * q + z * q) == (s - (v - w + x - y + z)) * q,
{
    assert(s * q - (v * q - w * q + x * q - y * q + z * q) == (s - (v - w + x - y + z)) * q)
        by (nonlinear_arith);
}

/// The sine is its polynomial within 30 parts in 2^24.
pub proof fn lemma_sine<F: Fn(Operation) -> u32>(fpu: F, x: u32)
    requires
        accurate(fpu),
        finite(x),
        100 * size(scaled(x)) <= 132 * one(),
    ensures
        finite(sine(fpu, x)),
        size(scaled(sine(fpu, x))) <= 5 * one(),
        INTEGERS * size(
            362880 * (scaled(sine(fpu, x)) * pow(one(), 9)) - odd_part(scaled(x), one()),
        ) <= 30 * (362880 * pow(one(), 10)),
{
    let y = scaled(x);
    lemma_not_wound(fpu, x);
    lemma_odd_powers(fpu, x);
    lemma_limits(y);
    lemma_first_terms(y, one());
    lemma_one_is_large();
    lemma_sine_coefficients();
    let x2 = product(fpu, x, x);
    let x3 = product(fpu, x2, x);
    let x5 = product(fpu, x3, x2);
    let x7 = product(fpu, x5, x2);
    let x9 = product(fpu, x7, x2);
    lemma_share(fpu, y, x3, 3, 33, 3, SIN_3, 6, 50);
    lemma_share(fpu, y, x5, 5, 113, 5, SIN_5, 120, 138);
    lemma_share(fpu, y, x7, 7, 301, 7, SIN_7, 5040, 334);
    lemma_share(fpu, y, x9, 9, 705, 13, SIN_9, 362880, 762);
    let (p3, p5) = (product(fpu, x3, SIN_3), product(fpu, x5, SIN_5));
    let (p7, p9) = (product(fpu, x7, SIN_7), product(fpu, x9, SIN_9));
    lemma_alternating(fpu, x, p3, p5, p7, p9);
    assert(sine(fpu, x) == alternating(fpu, x, p3, p5, p7, p9));
}

/// An error, counted against the tenth power of one.
pub proof fn lemma_rounding(e: int, n: int)
    requires
        INTEGERS * size(e) <= n * one(),
    ensures
        INTEGERS * size(e * pow(one(), 9)) <= n * pow(one(), 10),
{
    let (k, q) = (one(), pow(one(), 9));
    lemma_one_is_large();
    lemma_pow_positive(k, 9);
    lemma_pow_adds(k, 1, 9);
    lemma_pow1(k);
    assert(size(e * q) == size(e) * q) by (nonlinear_arith)
        requires
            0 < q,
    ;
    assert(INTEGERS * (size(e) * q) <= n * (k * q)) by (nonlinear_arith)
        requires
            INTEGERS * size(e) <= n * k,
            0 < q,
    ;
}

/// The cosine is its polynomial within 36 parts in 2^24.
pub proof fn lemma_cosine<F: Fn(Operation) -> u32>(fpu: F, x: u32)
    requires
        accurate(fpu),
        finite(x),
        100 * size(scaled(x)) <= 132 * one(),
    ensures
        finite(cosine(fpu, x)),
        size(scaled(cosine(fpu, x))) <= 5 * one(),
        INTEGERS * size(
            362880 * (scaled(cosine(fpu, x)) * pow(one(), 9)) - even_part(scaled(x), one()),
        ) <= 36 * (362880 * pow(one(), 10)),
{
    let y = scaled(x);
    lemma_not_wound(fpu, x);
    lemma_even_powers(fpu, x);
    lemma_limits(y);
    lemma_cosine_coefficients();
    lemma_unit();
    lemma_one_is_large();
    lemma_pow_adds(one(), 1, 9);
    lemma_pow1(one());
    let x2 = product(fpu, x, x);
    let x4 = product(fpu, x2, x2);
    let x6 = product(fpu, x4, x2);
    let x8 = product(fpu, x6, x2);
    lemma_share(fpu, y, x2, 2, 11, 2, HALF, 2, 24);
    lemma_share(fpu, y, x4, 4, 55, 4, COS_4, 24, 76);
    lemma_share(fpu, y, x6, 6, 171, 6, COS_6, 720, 200);
    lemma_share(fpu, y, x8, 8, 431, 10, COS_8, 40320, 476);
    let (p2, p4) = (product(fpu, x2, HALF), product(fpu, x4, COS_4));
    let (p6, p8) = (product(fpu, x6, COS_6), product(fpu, x8, COS_8));
    lemma_alternating(fpu, ONE, p2, p4, p6, p8);
    assert(cosine(fpu, x) == alternating(fpu, ONE, p2, p4, p6, p8));
}

/// A number whose square is at most 1.0001 of another's.
proof fn lemma_root_bound(p: int, t: int)
    requires
        0 < t,
        10000 * (p * p) <= 10001 * (t * t),
    ensures
        100 * size(p) <= 101 * t,
{
    assert(100 * size(p) <= 101 * t) by (nonlinear_arith)
        requires
            0 < t,
            10000 * (p * p) <= 10001 * (t * t),
    ;
}

/// The square of a number near another one.
proof fn lemma_near_square(a: int, p: int, t: int, n: int)
    requires
        0 < t,
        0 <= n <= 40,
        INTEGERS * size(a - p) <= n * t,
        100 * size(p) <= 101 * t,
    ensures
        100 * (INTEGERS * size(a * a - p * p)) <= 203 * (n * (t * t)),
        100 * size(a) <= 102 * t,
{
    let (f, g) = (a - p, a + p);
    assert(n * t <= 40 * t) by (nonlinear_arith)
        requires
            n <= 40,
            0 < t,
    ;
    assert(a * a - p * p == f * g) by (nonlinear_arith)
        requires
            f == a - p,
            g == a + p,
    ;
    lemma_size_of_product(INTEGERS * f, 100 * g, n * t, 203 * t);
    assert((INTEGERS * f) * (100 * g) == 100 * (INTEGERS * (f * g))) by (nonlinear_arith);
    assert((n * t) * (203 * t) == 203 * (n * (t * t))) by (nonlinear_arith);
}

/// From polynomials to the numbers near them. `k` is one and `q` its ninth power.
proof fn lemma_on_circle(k: int, q: int, s: int, c: int, p: int, r: int)
    requires
        0 < k,
        0 < q,
        ({
            let t = 362880 * (k * q);
            &&& INTEGERS * size(362880 * (s * q) - p) <= 30 * t
            &&& INTEGERS * size(362880 * (c * q) - r) <= 36 * t
            &&& 50000 * size(p * p + r * r - t * t) <= t * t
        }),
    ensures
        30000 * size(s * s + c * c - k * k) <= k * k,
        100 * size(s) <= 102 * k,
        100 * size(c) <= 102 * k,
{
    let (t, n) = (362880 * (k * q), 362880 * q);
    let (a, b) = (362880 * (s * q), 362880 * (c * q));
    assert(0 < t && 0 < n) by (nonlinear_arith)
        requires
            t == 362880 * (k * q),
            n == 362880 * q,
            0 < k,
            0 < q,
    ;
    assert(0 <= p * p && 0 <= r * r && 0 < t * t) by (nonlinear_arith)
        requires
            0 < t,
    ;
    lemma_root_bound(p, t);
    lemma_root_bound(r, t);
    lemma_near_square(a, p, t, 30);
    lemma_near_square(b, r, t, 36);
    assert(30000 * size(a * a + b * b - t * t) <= t * t);
    assert(a == s * n && b == c * n && t == k * n) by (nonlinear_arith)
        requires
            a == 362880 * (s * q),
            b == 362880 * (c * q),
            t == 362880 * (k * q),
            n == 362880 * q,
    ;
    let (nn, z) = (n * n, s * s + c * c - k * k);
    assert(0 < nn) by (nonlinear_arith)
        requires
            nn == n * n,
            0 < n,
    ;
    assert(a * a == (s * s) * nn && b * b == (c * c) * nn && t * t == (k * k) * nn) by (nonlinear_arith)
        requires
            a == s * n,
            b == c * n,
            t == k * n,
            nn == n * n,
    ;
    assert(z * nn == (s * s) * nn + (c * c) * nn - (k * k) * nn) by (nonlinear_arith)
        requires
            z == s * s + c * c - k * k,
    ;
    assert(size(z * nn) == size(z) * nn) by (nonlinear_arith)
        requires
            0 < nn,
    ;
    assert(30000 * size(z) <= k * k) by (nonlinear_arith)
        requires
            30000 * (size(z) * nn) <= (k * k) * nn,
            0 < nn,
    ;
    assert(100 * size(s) <= 102 * k && 100 * size(c) <= 102 * k) by (nonlinear_arith)
        requires
            100 * size(s * n) <= 102 * (k * n),
            100 * size(c * n) <= 102 * (k * n),
            0 < n,
    ;
}

/// The squares of a sine and of the cosine of the same angle sum up to one, within one
/// part in 30000, for angles up to 1.32 radians: those that an arc sine can be.
pub proof fn sine_and_cosine_lie_on_the_unit_circle<F: Fn(Operation) -> u32>(fpu: F, x: u32)
    requires
        accurate(fpu),
        finite(x),
        100 * size(scaled(x)) <= 132 * one(),
    ensures
        finite(sine(fpu, x)),
        finite(cosine(fpu, x)),
        ({
            let (s, c) = (scaled(sine(fpu, x)), scaled(cosine(fpu, x)));
            &&& 30000 * size(s * s + c * c - one() * one()) <= one() * one()
            &&& 100 * size(s) <= 102 * one()
            &&& 100 * size(c) <= 102 * one()
        }),
{
    let (k, y) = (one(), scaled(x));
    lemma_one_is_large();
    lemma_sine(fpu, x);
    lemma_cosine(fpu, x);
    lemma_pow_positive(k, 9);
    lemma_pow_adds(k, 1, 9);
    lemma_pow1(k);
    assert(4 * (y * y) <= 7 * (k * k)) by (nonlinear_arith)
        requires
            100 * size(y) <= 132 * k,
            0 < k,
    ;
    lemma_polynomials(y, k);
    lemma_on_circle(
        k,
        pow(k, 9),
        scaled(sine(fpu, x)),
        scaled(cosine(fpu, x)),
        odd_part(y, k),
        even_part(y, k),
    );
}

} // verus!
