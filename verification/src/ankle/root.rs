//! Accuracy of the square root.
use crate::ankle::{root_from, square_root, ROOT_OFFSET};
use crate::arithmetic::{
    accurate, lemma_one_is_large, lemma_product_error, lemma_size_of_product, lemma_sum_error,
    product, quotient, reach, size, sum, Operation, HALF, INTEGERS,
};
use crate::binary32::{below, finite, magnitude, nan, one, scaled, SIGN};
use vstd::arithmetic::power2::{lemma2_to64, lemma_pow2_adds, lemma_pow2_pos, pow2};
use vstd::prelude::*;

verus! {

/// The square of `y` is `x` within `n` parts in `d`.
spec fn rooted(x: int, y: int, n: int, d: int) -> bool {
    d * size(y * y - x * one()) <= n * (x * one())
}

/// The mantissas of a number and of the first guess of its root: the exponent is odd.
proof fn lemma_guess_odd(f: int, g: int)
    requires
        0 <= f < 0x80_0000,
        g == f / 2 - 0x02_E20B,
    ensures
        0 <= g ==> ({
            let (m, n) = (0x80_0000 + f, 0x80_0000 + g);
            10 * size(n * n - m * 0x80_0000) <= m * 0x80_0000
        }),
        g < 0 ==> ({
            let (m, n) = (0x80_0000 + f, 0x80_0000 + g + 0x80_0000);
            10 * size(n * n - 4 * (m * 0x80_0000)) <= 4 * (m * 0x80_0000)
        }),
{
    if g >= 0 {
        let (m, n) = (0x80_0000 + f, 0x80_0000 + g);
        assert(10 * (n * n) <= 11 * (m * 0x80_0000)) by (nonlinear_arith)
            requires
                m == 0x80_0000 + f,
                n == 0x80_0000 + g,
                0 <= f < 0x80_0000,
                2 * g <= f - 2 * 0x02_E20B,
                0 <= g,
        ;
        assert(9 * (m * 0x80_0000) <= 10 * (n * n)) by (nonlinear_arith)
            requires
                m == 0x80_0000 + f,
                n == 0x80_0000 + g,
                0 <= f < 0x80_0000,
                f - 2 * 0x02_E20B - 1 <= 2 * g,
                0 <= g,
        ;
    } else {
        let (m, n) = (0x80_0000 + f, 0x80_0000 + g + 0x80_0000);
        assert(10 * (n * n) <= 44 * (m * 0x80_0000)) by (nonlinear_arith)
            requires
                m == 0x80_0000 + f,
                0 <= f,
                0 <= n <= 0x100_0000,
        ;
        assert(36 * (m * 0x80_0000) <= 10 * (n * n)) by (nonlinear_arith)
            requires
                m == 0x80_0000 + f,
                f <= 2 * 0x02_E20B,
                0x100_0000 - 0x02_E20C <= n,
        ;
    }
}

/// Likewise, and the exponent is even.
proof fn lemma_guess_even(f: int, g: int)
    requires
        0 <= f < 0x80_0000,
        g == f / 2 + 0x3D_1DF5,
    ensures
        ({
            let (m, n) = (0x80_0000 + f, 0x80_0000 + g);
            10 * size(n * n - 2 * (m * 0x80_0000)) <= 2 * (m * 0x80_0000)
        }),
{
    let (m, n) = (0x80_0000 + f, 0x80_0000 + g);
    assert(10 * (n * n) <= 22 * (m * 0x80_0000)) by (nonlinear_arith)
        requires
            m == 0x80_0000 + f,
            n == 0x80_0000 + g,
            0 <= f < 0x80_0000,
            0 <= g,
            2 * g <= f + 2 * 0x3D_1DF5,
    ;
    assert(18 * (m * 0x80_0000) <= 10 * (n * n)) by (nonlinear_arith)
        requires
            m == 0x80_0000 + f,
            n == 0x80_0000 + g,
            0 <= f < 0x80_0000,
            0 <= g,
            f + 2 * 0x3D_1DF5 - 1 <= 2 * g,
    ;
}

/// A number of mantissa `m` and exponent `i`, and a guess of mantissa `n` and exponent
/// `j` at its root.
proof fn lemma_guess_of(x: int, y: int, m: int, n: int, i: nat, j: nat, s: nat, c: int)
    requires
        x == m * pow2(i),
        y == n * pow2(j),
        i + 149 == s + 2 * j,
        pow2(s) == c * 0x80_0000,
        10 * size(n * n - c * (m * 0x80_0000)) <= c * (m * 0x80_0000),
    ensures
        rooted(x, y, 1, 10),
{
    let (p, q, r) = (pow2(j) as int, pow2(i) as int, pow2(s) as int);
    let w = p * p;
    lemma_pow2_adds(j, j);
    lemma_pow2_adds(i, 149);
    lemma_pow2_adds(s, (2 * j) as nat);
    lemma_pow2_pos((2 * j) as nat);
    assert(y * y == (n * n) * w) by (nonlinear_arith)
        requires
            y == n * p,
            w == p * p,
    ;
    assert(x * one() == m * (r * w)) by (nonlinear_arith)
        requires
            x == m * q,
            q * one() == r * w,
    ;
    let a = c * (m * 0x80_0000);
    assert(m * (r * w) == a * w) by (nonlinear_arith)
        requires
            r == c * 0x80_0000,
            a == c * (m * 0x80_0000),
    ;
    let z = n * n - a;
    assert(z * w == (n * n) * w - a * w) by (nonlinear_arith)
        requires
            z == n * n - a,
    ;
    assert(size(z * w) == size(z) * w) by (nonlinear_arith)
        requires
            0 < w,
    ;
    assert(10 * (size(z) * w) <= a * w) by (nonlinear_arith)
        requires
            10 * size(z) <= a,
            0 < w,
    ;
}

/// Half the pattern of a number and the offset: a root within one part in ten.
proof fn lemma_guess(x: u32)
    requires
        0x80_0000 <= x < 0x7F80_0000,
    ensures
        ({
            let y = (x / 2 + ROOT_OFFSET) as u32;
            &&& finite(y) && y < SIGN
            &&& 0 < scaled(y)
            &&& rooted(scaled(x), scaled(y), 1, 10)
        }),
{
    let y = (x / 2 + ROOT_OFFSET) as u32;
    let (i, f) = (x as int / 0x80_0000, x as int % 0x80_0000);
    let e = i / 2;
    lemma2_to64();
    lemma_pow2_pos((y as int / 0x80_0000 - 1) as nat);
    if i % 2 == 1 {
        let g = f / 2 - 0x02_E20B;
        lemma_guess_odd(f, g);
        if g >= 0 {
            assert(y as int / 0x80_0000 == e + 64 && y as int % 0x80_0000 == g);
            lemma_guess_of(
                scaled(x),
                scaled(y),
                0x80_0000 + f,
                0x80_0000 + g,
                (i - 1) as nat,
                (e + 63) as nat,
                23,
                1,
            );
        } else {
            assert(y as int / 0x80_0000 == e + 63 && y as int % 0x80_0000 == g + 0x80_0000);
            lemma_guess_of(
                scaled(x),
                scaled(y),
                0x80_0000 + f,
                0x80_0000 + g + 0x80_0000,
                (i - 1) as nat,
                (e + 62) as nat,
                25,
                4,
            );
        }
    } else {
        let g = f / 2 + 0x3D_1DF5;
        lemma_guess_even(f, g);
        assert(y as int / 0x80_0000 == e + 63 && y as int % 0x80_0000 == g);
        lemma_guess_of(
            scaled(x),
            scaled(y),
            0x80_0000 + f,
            0x80_0000 + g,
            (i - 1) as nat,
            (e + 62) as nat,
            24,
            2,
        );
    }
    let (n, p) = (0x80_0000 + y as int % 0x80_0000, pow2((y as int / 0x80_0000 - 1) as nat) as int);
    assert(0 < n * p) by (nonlinear_arith)
        requires
            0 < n,
            0 < p,
    ;
}

/// How far the square of the mean of `y` and `z` is off, apart from rounding: `y` times
/// twice the mean is `b`, and `a` as computed; `d` is the defect of `y`.
proof fn lemma_mean(x: int, y: int, e: int, a: int, b: int)
    requires
        0 < x,
        0 < y,
        10 * size(y * y - x) <= x,
        b == y * y + x + e,
        1000 * (INTEGERS * size(e)) <= 1001 * x,
        100 * (INTEGERS * size(a - b)) <= 201 * b,
    ensures
        INTEGERS * size(a * a - 4 * ((y * y) * x)) <= 24 * ((y * y) * x) + INTEGERS * ((y * y - x) * (y
            * y - x)),
{
    let u = y * y;
    let (s, d, z) = (u + x, u - x, u * x);
    assert(0 < u && 0 < z) by {
        assert(0 < u) by (nonlinear_arith)
            requires
                u == y * y,
                0 < y,
        ;
        assert(0 < z) by (nonlinear_arith)
            requires
                z == u * x,
                0 < u,
                0 < x,
        ;
    }
    let (dd, xx, ss, bb) = (d * d, x * x, s * s, b * b);
    assert(ss == 4 * z + dd) by (nonlinear_arith)
        requires
            ss == s * s,
            s == u + x,
            z == u * x,
            dd == d * d,
            d == u - x,
    ;
    assert(9 * xx <= 10 * z) by (nonlinear_arith)
        requires
            xx == x * x,
            z == u * x,
            9 * x <= 10 * u,
            0 < x,
    ;
    assert(0 <= dd && 100 * dd <= xx) by (nonlinear_arith)
        requires
            dd == d * d,
            xx == x * x,
            10 * size(d) <= x,
            0 < x,
    ;
    assert(bb == ss + e * (2 * s + e)) by (nonlinear_arith)
        requires
            bb == b * b,
            ss == s * s,
            b == s + e,
    ;
    let xs = x * s;
    assert(xs == z + xx) by (nonlinear_arith)
        requires
            xs == x * s,
            s == u + x,
            z == u * x,
            xx == x * x,
    ;
    assert(1000 * (INTEGERS * size(e * (2 * s + e))) <= 2005 * xs) by {
        lemma_size_of_product(1000 * (INTEGERS * e), 1000 * (2 * s + e), 1001 * x, 2001 * s);
        assert((1000 * (INTEGERS * e)) * (1000 * (2 * s + e)) == 1000000 * (INTEGERS * (e * (2 * s + e))))
            by (nonlinear_arith);
        assert((1001 * x) * (2001 * s) == 2003001 * (x * s)) by (nonlinear_arith);
    }
    assert(100 * bb <= 402 * z);
    assert(0 < b);
    let f = a - b;
    assert(100 * (INTEGERS * size(a * a - bb)) <= 403 * bb) by {
        assert(a * a - bb == f * (a + b)) by (nonlinear_arith)
            requires
                bb == b * b,
                f == a - b,
        ;
        lemma_size_of_product(100 * (INTEGERS * f), 1000 * (a + b), 201 * b, 2001 * b);
        assert((100 * (INTEGERS * f)) * (1000 * (a + b)) == 100000 * (INTEGERS * (f * (a + b))))
            by (nonlinear_arith);
        assert((201 * b) * (2001 * b) == 402201 * (b * b)) by (nonlinear_arith);
    }
}

/// The defect of the mean, from that of `y`.
proof fn lemma_defect(x: int, y: int, r: int, p: int, q: int, n: int)
    requires
        0 < x,
        0 < y,
        0 <= p,
        0 < q,
        p < q,
        q * size(y * y - x) <= p * x,
        6 <= n,
        INTEGERS * (p * p) <= 4 * ((n - 6) * (q * (q - p))),
        INTEGERS * size((2 * r * y) * (2 * r * y) - 4 * ((y * y) * x)) <= 24 * ((y * y) * x) + INTEGERS
            * ((y * y - x) * (y * y - x)),
    ensures
        INTEGERS * size(r * r - x) <= n * x,
{
    let u = y * y;
    let d = u - x;
    let dd = d * d;
    assert(0 < u) by (nonlinear_arith)
        requires
            u == y * y,
            0 < y,
    ;
    assert((2 * r * y) * (2 * r * y) == 4 * (u * (r * r))) by (nonlinear_arith)
        requires
            u == y * y,
    ;
    let z = r * r - x;
    assert(4 * (u * (r * r)) - 4 * (u * x) == 4 * (u * z)) by (nonlinear_arith)
        requires
            z == r * r - x,
    ;
    assert(size(4 * (u * z)) == 4 * (u * size(z))) by (nonlinear_arith)
        requires
            0 < u,
    ;
    assert((q * q) * dd <= (p * p) * (x * x)) by {
        assert(size(q * d) == q * size(d)) by (nonlinear_arith)
            requires
                0 < q,
        ;
        lemma_size_of_product(q * d, q * d, p * x, p * x);
        assert((q * d) * (q * d) == (q * q) * (d * d) && (p * x) * (p * x) == (p * p) * (x * x))
            by (nonlinear_arith);
    }
    assert((q - p) * x <= q * u) by {
        assert(q * size(d) >= q * (x - u)) by (nonlinear_arith)
            requires
                size(d) >= x - u,
                0 < q,
        ;
        assert(q * (x - u) == q * x - q * u && (q - p) * x == q * x - p * x) by (nonlinear_arith);
    }
    let m = n - 6;
    assert(INTEGERS * dd <= 4 * (m * (u * x))) by {
        let (qq, xx) = (q * q, x * x);
        assert(0 < qq) by (nonlinear_arith)
            requires
                qq == q * q,
                0 < q,
        ;
        assert(INTEGERS * (qq * dd) <= (INTEGERS * (p * p)) * xx) by (nonlinear_arith)
            requires
                qq * dd <= (p * p) * xx,
        ;
        assert((INTEGERS * (p * p)) * xx <= (4 * (m * (q * (q - p)))) * xx) by (nonlinear_arith)
            requires
                INTEGERS * (p * p) <= 4 * (m * (q * (q - p))),
                0 <= xx,
                xx == x * x,
        ;
        let t = (q - p) * x;
        assert((4 * (m * (q * (q - p)))) * xx == 4 * ((m * q) * (t * x))) by (nonlinear_arith)
            requires
                xx == x * x,
                t == (q - p) * x,
        ;
        assert((m * q) * (t * x) <= (m * q) * ((q * u) * x)) by {
            assert(t * x <= (q * u) * x) by (nonlinear_arith)
                requires
                    t <= q * u,
                    0 < x,
            ;
            assert(0 <= m * q) by (nonlinear_arith)
                requires
                    0 <= m,
                    0 < q,
            ;
            let (g, h, i) = (m * q, t * x, (q * u) * x);
            assert(g * h <= g * i) by (nonlinear_arith)
                requires
                    0 <= g,
                    h <= i,
            ;
        }
        assert((m * q) * ((q * u) * x) == qq * (m * (u * x))) by (nonlinear_arith)
            requires
                qq == q * q,
        ;
        let (g, h) = (INTEGERS * dd, 4 * (m * (u * x)));
        assert(g <= h) by (nonlinear_arith)
            requires
                INTEGERS * (qq * dd) <= 4 * (qq * (m * (u * x))),
                g == INTEGERS * dd,
                h == 4 * (m * (u * x)),
                0 < qq,
        ;
    }
    assert(INTEGERS * (4 * (u * size(z))) <= 24 * (u * x) + 4 * (m * (u * x)));
    assert(INTEGERS * size(z) <= n * x) by (nonlinear_arith)
        requires
            INTEGERS * (4 * (u * size(z))) <= 24 * (u * x) + 4 * (m * (u * x)),
            m == n - 6,
            0 < u,
    ;
}

/// The size of a number whose square is known within one part in ten.
proof fn lemma_root_size(x: int, y: int)
    requires
        one() <= 0x100_0000_0000 * x,
        x <= 0x100_0000_0000 * one(),
        0 < y,
        rooted(x, y, 1, 10),
    ensures
        9 * one() <= 10 * (0x10_0000 * y),
        y <= 0x20_0000 * one(),
        one() * one() <= 0x100_0000_0000 * (x * one()),
        x * one() <= 0x100_0000_0000 * (one() * one()),
{
    let (k, w) = (one(), x * one());
    lemma_one_is_large();
    assert(k * k <= 0x100_0000_0000 * w && w <= 0x100_0000_0000 * (k * k)) by (nonlinear_arith)
        requires
            w == x * k,
            k <= 0x100_0000_0000 * x,
            x <= 0x100_0000_0000 * k,
            0 < k,
    ;
    let z = 0x10_0000 * y;
    assert(z * z == 0x100_0000_0000 * (y * y)) by (nonlinear_arith)
        requires
            z == 0x10_0000 * y,
    ;
    assert(9 * k <= 10 * z) by (nonlinear_arith)
        requires
            9 * (k * k) <= 10 * (z * z),
            0 < z,
            0 < k,
    ;
    assert(y <= 0x20_0000 * k) by (nonlinear_arith)
        requires
            10 * (y * y) <= 11 * (0x100_0000_0000 * (k * k)),
            0 < y,
            0 < k,
    ;
}

/// A Newton step, with its rounding.
proof fn lemma_root_step<F: Fn(Operation) -> u32>(fpu: F, x: u32, y: u32, p: int, q: int, n: int)
    requires
        accurate(fpu),
        finite(x),
        one() <= 0x100_0000_0000 * scaled(x),
        scaled(x) <= 0x100_0000_0000 * one(),
        finite(y),
        0 < scaled(y),
        rooted(scaled(x), scaled(y), p, q),
        0 <= p,
        10 * p <= q,
        0 < q,
        6 <= n,
        INTEGERS * (p * p) <= 4 * ((n - 6) * (q * (q - p))),
    ensures
        ({
            let r = product(fpu, HALF, sum(fpu, y, quotient(fpu, x, y)));
            &&& finite(r)
            &&& 0 < scaled(r)
            &&& rooted(scaled(x), scaled(r), n, INTEGERS as int)
        }),
{
    let (k, a, b, w) = (one(), scaled(x), scaled(y), scaled(x) * one());
    lemma_one_is_large();
    assert(0 < w) by (nonlinear_arith)
        requires
            w == a * k,
            0 < a,
            0 < k,
    ;
    assert(rooted(a, b, 1, 10)) by {
        let d = size(b * b - w);
        assert(10 * d <= w) by (nonlinear_arith)
            requires
                q * d <= p * w,
                10 * p <= q,
                0 < q,
                0 < w,
        ;
    }
    lemma_root_size(a, b);
    let z = scaled(quotient(fpu, x, y));
    assert(w <= reach() * b && 1000 * (INTEGERS * b) <= w) by {
        assert(0x100_0000_0000 * (k * k) <= reach() * b) by (nonlinear_arith)
            requires
                reach() == 0x1_0000_0000_0000_0000 * k,
                9 * k <= 10 * (0x10_0000 * b),
                0 < k,
        ;
        assert(0x100_0000_0000 * (1000 * (INTEGERS * b)) <= k * k) by (nonlinear_arith)
            requires
                b <= 0x20_0000 * k,
                k >= 0x1_0000_0000_0000_0000 * 0x1_0000_0000_0000_0000,
        ;
    }
    assert(finite(quotient(fpu, x, y)) && INTEGERS * size(z * b - w) <= w + INTEGERS * b) by {
        reveal(accurate);
    }
    let e = z * b - w;
    assert(0 < z && 10 * z <= 12 * b) by {
        assert(0 < z) by (nonlinear_arith)
            requires
                0 < z * b,
                0 < b,
        ;
        assert(10 * z <= 12 * b) by (nonlinear_arith)
            requires
                10 * (z * b) <= 12 * (b * b),
                0 < b,
        ;
    }
    let v = b + z;
    let s = sum(fpu, y, quotient(fpu, x, y));
    lemma_sum_error(fpu, y, quotient(fpu, x, y));
    let t = scaled(s);
    let r = scaled(product(fpu, HALF, s));
    assert(finite(product(fpu, HALF, s)) && INTEGERS * size(2 * r - t) <= t + 2 * INTEGERS) by {
        lemma_half(fpu, s);
    }
    assert(100 * (INTEGERS * size(2 * r - v)) <= 201 * v);
    assert(v * b == b * b + w + e) by (nonlinear_arith)
        requires
            v == b + z,
            e == z * b - w,
    ;
    assert(100 * (INTEGERS * size((2 * r) * b - v * b)) <= 201 * (v * b)) by {
        let f = 2 * r - v;
        assert((2 * r) * b - v * b == f * b) by (nonlinear_arith)
            requires
                f == 2 * r - v,
        ;
        assert(size(f * b) == size(f) * b) by (nonlinear_arith)
            requires
                0 < b,
        ;
        assert(100 * (INTEGERS * (size(f) * b)) <= 201 * (v * b)) by (nonlinear_arith)
            requires
                100 * (INTEGERS * size(f)) <= 201 * v,
                0 < b,
        ;
    }
    lemma_mean(w, b, e, (2 * r) * b, v * b);
    assert((2 * r) * b == 2 * r * b);
    lemma_defect(w, b, r, p, q, n);
}

/// The product with a half.
proof fn lemma_half<F: Fn(Operation) -> u32>(fpu: F, s: u32)
    requires
        accurate(fpu),
        finite(s),
        0 <= scaled(s) <= 0x100_0000 * one(),
    ensures
        ({
            let r = product(fpu, HALF, s);
            finite(r) && INTEGERS * size(2 * scaled(r) - scaled(s)) <= scaled(s) + 2 * INTEGERS
        }),
{
    let (k, t, h) = (one(), scaled(s), scaled(HALF));
    lemma_one_is_large();
    lemma2_to64();
    lemma_pow2_adds(125, 24);
    assert(h == 0x80_0000 * pow2(125));
    assert(2 * h == k);
    assert(0 <= h * t && 2 * (h * t) == t * k && 0x100_0000 * (k * k) <= reach() * k && t * k
        <= 0x100_0000 * (k * k)) by (nonlinear_arith)
        requires
            2 * h == k,
            0 < k,
            0 <= t <= 0x100_0000 * k,
            reach() == 0x1_0000_0000_0000_0000 * k,
    ;
    lemma_product_error(fpu, HALF, s);
    let r = scaled(product(fpu, HALF, s));
    let z = 2 * r - t;
    assert(z * k == 2 * (r * k) - t * k) by (nonlinear_arith)
        requires
            z == 2 * r - t,
    ;
    assert(size(z * k) == size(z) * k) by (nonlinear_arith)
        requires
            0 < k,
    ;
    assert(INTEGERS * size(z) <= t + 2 * INTEGERS) by (nonlinear_arith)
        requires
            INTEGERS * (size(z) * k) <= t * k + 2 * (INTEGERS * k),
            0 < k,
    ;
}

/// The square of a square root is the number within nine parts in 2^24, for numbers
/// from 2^-40 to 2^40.
pub proof fn square_roots_are_accurate<F: Fn(Operation) -> u32>(fpu: F, x: u32)
    requires
        accurate(fpu),
        finite(x),
        one() <= 0x100_0000_0000 * scaled(x),
        scaled(x) <= 0x100_0000_0000 * one(),
    ensures
        ({
            let r = square_root(fpu, x);
            &&& finite(r)
            &&& 0 < scaled(r)
            &&& INTEGERS * size(scaled(r) * scaled(r) - scaled(x) * one()) <= 9 * (scaled(x) * one())
        }),
{
    lemma_one_is_large();
    lemma_normal(x);
    lemma_guess(x);
    let y = (x / 2 + ROOT_OFFSET) as u32;
    lemma_root_step(fpu, x, y, 1, 10, 46612);
    let y1 = product(fpu, HALF, sum(fpu, y, quotient(fpu, x, y)));
    lemma_root_step(fpu, x, y1, 46612, INTEGERS as int, 41);
    let y2 = product(fpu, HALF, sum(fpu, y1, quotient(fpu, x, y1)));
    lemma_root_step(fpu, x, y2, 41, INTEGERS as int, 9);
    reveal_with_fuel(root_from, 4);
}

/// The square root of a number that is not positive is zero.
pub proof fn no_roots_below_zero<F: Fn(Operation) -> u32>(fpu: F, x: u32)
    requires
        !nan(x),
        scaled(x) <= 0,
    ensures
        square_root(fpu, x) == 0,
{
}

/// A number from 2^-40 on has a pattern of full precision.
proof fn lemma_normal(x: u32)
    requires
        finite(x),
        one() <= 0x100_0000_0000 * scaled(x),
    ensures
        0x80_0000 <= x < 0x7F80_0000,
        !nan(x),
        below(0, x),
{
    lemma_one_is_large();
    crate::binary32::lemma_absolute(x);
    if magnitude(x) < 0x80_0000 {
        assert(scaled(x) <= magnitude(x));
    }
}

} // verus!
