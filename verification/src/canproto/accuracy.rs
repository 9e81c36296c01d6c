//! What the codes in frames stand for.
//!
//! Numbers are counted in smallest positive steps; [`one`] is the number one.
use crate::arithmetic::{
    accurate, difference, lemma_difference_error, lemma_doubling, lemma_fraction_of, lemma_one_is_large,
    lemma_part_of, lemma_product_error, lemma_sum_error, of_integer, product, quotient, reach, size, sum,
    whole, Operation, HALF, INTEGERS, TWO,
};
use crate::binary32::{clamped_lies_between, finite, nan, negated, negation_undoes_itself, one, scaled};
use crate::canproto::{
    clipped, code_inside, coded, encodes, feedback_fields, feedback_of, field_code, fields_of, midpoint,
    packed, ranges_of, spd_max, tau_max, uncoded, CanFrame, DecodeError, FeedbackFields, FieldRange,
    MitCommand, MitFields, MotorModel, CODE12_SPAN, CODE16_SPAN, FEEDBACK_POS_MAX, FEEDBACK_SPD_MAX, FEEDBACK_TAU_MAX, KD_MAX, KP_MAX,
};
use vstd::arithmetic::power2::{lemma2_to64, lemma_pow2_adds, pow2};
use vstd::prelude::*;

verus! {

/// The fraction of the way: `f` is `d / w` as computed, where `d` and `w` are the rounded
/// lengths of the way and of the whole interval.
proof fn lemma_way(k: int, way: int, length: int, d: int, w: int, f: int)
    requires
        k >= 0x1_0000_0000_0000_0000,
        0 <= way <= length,
        0 < length,
        INTEGERS * size(d - way) <= way,
        INTEGERS * size(w - length) <= length,
        INTEGERS * size(f * w - d * k) <= d * k + INTEGERS * w,
    ensures
        INTEGERS * size(f * length - way * k) <= 4 * (length * k),
        0 <= 1000 * f + 1000,
        1000 * f <= 1001 * k,
{
    let lk = length * k;
    assert(0 <= d && 1000 * d <= 1001 * length && 999 * length <= 1000 * w && 1000 * w <= 1001 * length);
    assert(0 < lk) by (nonlinear_arith)
        requires
            lk == length * k,
            0 < length,
            0 < k,
    ;
    assert(0 <= d * k && 1000 * (d * k) <= 1001 * lk && 1000000 * (INTEGERS * w) <= lk) by (nonlinear_arith)
        requires
            lk == length * k,
            0 <= d,
            1000 * d <= 1001 * length,
            1000 * w <= 1001 * length,
            0 < length,
            k >= 0x1_0000_0000_0000_0000,
    ;
    let e = f * w - d * k;
    assert(INTEGERS * size(e) <= 2 * lk);
    // The fraction is at most one, up to rounding.
    let u = f * w;
    assert(-w <= u) by {
        assert(INTEGERS * u >= INTEGERS * (d * k) - (d * k) - INTEGERS * w);
    }
    assert(-1 <= f) by (nonlinear_arith)
        requires
            -w <= f * w,
            0 < w,
    ;
    assert(INTEGERS * (d * k) <= INTEGERS * lk + lk) by (nonlinear_arith)
        requires
            INTEGERS * d <= INTEGERS * length + length,
            lk == length * k,
            0 < k,
    ;
    assert(INTEGERS * (w * k) >= INTEGERS * lk - lk) by (nonlinear_arith)
        requires
            INTEGERS * w >= INTEGERS * length - length,
            lk == length * k,
            0 < k,
    ;
    assert(1000 * u <= 1001 * (w * k));
    assert(1000 * f <= 1001 * k) by (nonlinear_arith)
        requires
            1000 * (f * w) <= 1001 * (w * k),
            0 < w,
    ;
    let (g, h) = (d - way, length - w);
    assert(f * length - way * k == e + g * k + f * h) by {
        assert(f * length == f * w + f * h) by (nonlinear_arith)
            requires
                h == length - w,
        ;
        assert(d * k == way * k + g * k) by (nonlinear_arith)
            requires
                g == d - way,
        ;
    }
    assert(INTEGERS * size(g * k) <= lk) by {
        assert(size(g * k) == size(g) * k) by (nonlinear_arith)
            requires
                0 < k,
        ;
        assert(INTEGERS * (size(g) * k) <= length * k) by (nonlinear_arith)
            requires
                INTEGERS * size(g) <= length,
                0 < k,
        ;
    }
    assert(1000 * (INTEGERS * size(f * h)) <= 1001 * lk) by {
        assert(size(f) * 1000 <= 1001 * k);
        assert(size(f * h) == size(f) * size(h)) by (nonlinear_arith);
        assert(1000 * (INTEGERS * (size(f) * size(h))) <= 1001 * (length * k)) by (nonlinear_arith)
            requires
                size(f) * 1000 <= 1001 * k,
                INTEGERS * size(h) <= length,
                0 <= size(h),
                0 <= size(f),
        ;
    }
}

/// The share of the codes and its rounding to the nearest.
proof fn lemma_rounding(k: int, length: int, way: int, f: int, n: int, low: int, p: int, e: int, r: int, code: int)
    requires
        k >= 0x1_0000_0000_0000_0000,
        0 < length,
        0 <= n <= 65535,
        0 <= low <= 65535,
        INTEGERS * size(f * length - way * k) <= 4 * (length * k),
        -1 <= f,
        1000 * f <= 1001 * k,
        INTEGERS * size(p - n * f) <= size(n * f) + INTEGERS,
        INTEGERS * size(e - (low * k + p)) <= size(low * k + p),
        INTEGERS * size(2 * r - (2 * e + k)) <= size(2 * e + k),
        code * k <= r < (code + 1) * k,
    ensures
        50 * size(code * length - (low * length + n * way)) <= 27 * length,
{
    let lk = length * k;
    assert(0 < lk) by (nonlinear_arith)
        requires
            lk == length * k,
            0 < length,
            0 < k,
    ;
    let nf = n * f;
    assert(-65535 <= nf && 1000 * nf <= 65600536 * k) by (nonlinear_arith)
        requires
            nf == n * f,
            0 <= n <= 65535,
            -1 <= f,
            1000 * f <= 1001 * k,
            0 < k,
    ;
    assert(0 <= low * k <= 65535 * k) by (nonlinear_arith)
        requires
            0 <= low <= 65535,
            0 < k,
    ;
    let g = p - nf;
    assert(INTEGERS * size(g) <= 66000 * k);
    let h = e - (low * k + p);
    assert(size(p) <= 66000 * k);
    assert(INTEGERS * size(h) <= 132000 * k);
    let i = 2 * r - (2 * e + k);
    assert(INTEGERS * size(i) <= 270000 * k);
    // Everything times the length of the interval.
    let m = n * (f * length - way * k);
    assert(INTEGERS * size(m) <= 262140 * lk) by {
        let q = f * length - way * k;
        assert(size(n * q) == n * size(q)) by (nonlinear_arith)
            requires
                0 <= n,
        ;
        assert(INTEGERS * (n * size(q)) <= 65535 * (4 * lk)) by (nonlinear_arith)
            requires
                INTEGERS * size(q) <= 4 * lk,
                0 <= n <= 65535,
                0 <= size(q),
        ;
    }
    lemma_wide(g, length, 66000, k);
    lemma_wide(h, length, 132000, k);
    lemma_wide(i, length, 270000, k);
    let x = 2 * (r * length) - lk - 2 * (low * lk) - 2 * ((n * way) * k);
    assert(x == i * length + 2 * (h * length) + 2 * (g * length) + 2 * m) by {
        assert(i * length == 2 * (r * length) - 2 * (e * length) - lk) by (nonlinear_arith)
            requires
                i == 2 * r - (2 * e + k),
                lk == length * k,
        ;
        assert(h * length == e * length - low * lk - p * length) by (nonlinear_arith)
            requires
                h == e - (low * k + p),
                lk == length * k,
        ;
        assert(g * length == p * length - nf * length) by (nonlinear_arith)
            requires
                g == p - nf,
        ;
        assert(m == nf * length - (n * way) * k) by (nonlinear_arith)
            requires
                m == n * (f * length - way * k),
                nf == n * f,
        ;
    }
    assert(INTEGERS * size(x) <= 1200000 * lk);
    let c = code * length;
    assert(c * k <= r * length && r * length <= c * k + lk) by {
        assert((code * k) * length <= r * length) by (nonlinear_arith)
            requires
                code * k <= r,
                0 < length,
        ;
        assert(r * length <= ((code + 1) * k) * length) by (nonlinear_arith)
            requires
                r < (code + 1) * k,
                0 < length,
        ;
        assert((code * k) * length == c * k && ((code + 1) * k) * length == c * k + lk) by (nonlinear_arith)
            requires
                c == code * length,
                lk == length * k,
        ;
    }
    let y = c - (low * length + n * way);
    assert(y * k == c * k - low * lk - (n * way) * k) by (nonlinear_arith)
        requires
            y == c - (low * length + n * way),
            lk == length * k,
    ;
    assert(100 * size(y * k) <= 54 * lk);
    assert(size(y * k) == size(y) * k) by (nonlinear_arith)
        requires
            0 < k,
    ;
    assert(50 * size(y) <= 27 * length) by (nonlinear_arith)
        requires
            100 * (size(y) * k) <= 54 * (length * k),
            0 < k,
    ;
}

/// An error, times the length of the interval.
proof fn lemma_wide(g: int, length: int, m: int, k: int)
    requires
        0 < length,
        INTEGERS * size(g) <= m * k,
    ensures
        INTEGERS * size(g * length) <= m * (length * k),
{
    assert(size(g * length) == size(g) * length) by (nonlinear_arith)
        requires
            0 < length,
    ;
    assert(INTEGERS * (size(g) * length) <= m * (length * k)) by (nonlinear_arith)
        requires
            INTEGERS * size(g) <= m * k,
            0 < length,
    ;
}

/// A number inside its interval, and codes that fit 16 bits.
pub open spec fn codable(x: u32, in_min: u32, in_max: u32, out_min: u32, out_max: u32) -> bool {
    &&& finite(x) && finite(in_min) && finite(in_max)
    &&& scaled(in_min) <= scaled(x) <= scaled(in_max)
    &&& scaled(in_min) < scaled(in_max)
    &&& size(scaled(in_min)) <= 1000000 * one()
    &&& size(scaled(in_max)) <= 1000000 * one()
    &&& out_min <= out_max <= 65535
}

/// The code of a number inside the interval.
proof fn lemma_code_inside<F: Fn(Operation) -> u32>(
    fpu: F,
    x: u32,
    in_min: u32,
    in_max: u32,
    out_min: u32,
    out_max: u32,
)
    requires
        accurate(fpu),
        codable(x, in_min, in_max, out_min, out_max),
    ensures
        ({
            let code = code_inside(fpu, x, in_min, in_max, out_min, out_max);
            let length = scaled(in_max) - scaled(in_min);
            50 * size(
                code * length - (out_min * length + (out_max - out_min) * (scaled(x) - scaled(in_min))),
            ) <= 27 * length
        }),
{
    let k = one();
    lemma_one_is_large();
    let (way, length) = (scaled(x) - scaled(in_min), scaled(in_max) - scaled(in_min));
    let n = out_max - out_min;
    let fd = difference(fpu, x, in_min);
    let fw = difference(fpu, in_max, in_min);
    lemma_difference_error(fpu, x, in_min);
    lemma_difference_error(fpu, in_max, in_min);
    let (d, w) = (scaled(fd), scaled(fw));
    let ff = quotient(fpu, fd, fw);
    let f = scaled(ff);
    assert(0 <= d <= 2 * w && 0 < w);
    assert(0 <= d * k && d * k <= reach() * w) by (nonlinear_arith)
        requires
            0 <= d <= 2 * w,
            reach() == 0x1_0000_0000_0000_0000 * k,
            0 < k,
    ;
    assert(finite(ff) && INTEGERS * size(f * w - d * k) <= d * k + INTEGERS * w) by {
        reveal(accurate);
    }
    lemma_way(k, way, length, d, w, f);
    let span = of_integer(fpu, n as u32);
    let base = of_integer(fpu, out_min);
    assert(finite(span) && scaled(span) == n * k && finite(base) && scaled(base) == out_min * k) by {
        reveal(accurate);
    }
    let share = product(fpu, ff, span);
    lemma_share_of(fpu, ff, span, n);
    assert(0 <= out_min * k <= 65535 * k) by (nonlinear_arith)
        requires
            0 <= out_min <= 65535,
            0 < k,
    ;
    let exact = sum(fpu, base, share);
    lemma_sum_error(fpu, base, share);
    lemma_half();
    let rounded = sum(fpu, exact, HALF);
    lemma_sum_error(fpu, exact, HALF);
    let code = whole(fpu, rounded);
    assert(0 <= scaled(rounded) < 200000 * k);
    assert(code * k <= scaled(rounded) < (code + 1) * k) by {
        reveal(accurate);
    }
    lemma_rounding(
        k,
        length,
        way,
        f,
        n,
        out_min as int,
        scaled(share),
        scaled(exact),
        scaled(rounded),
        code as int,
    );
}

/// One half.
proof fn lemma_half()
    ensures
        finite(HALF),
        2 * scaled(HALF) == one(),
{
    lemma2_to64();
    lemma_pow2_adds(125, 24);
    assert(scaled(HALF) == 0x80_0000 * pow2(125));
}

/// A fraction of a number of codes.
proof fn lemma_share_of<F: Fn(Operation) -> u32>(fpu: F, f: u32, span: u32, n: int)
    requires
        accurate(fpu),
        finite(f),
        finite(span),
        0 <= n <= 65535,
        scaled(span) == n * one(),
        -1 <= scaled(f),
        1000 * scaled(f) <= 1001 * one(),
    ensures
        ({
            let p = product(fpu, f, span);
            &&& finite(p)
            &&& INTEGERS * size(scaled(p) - n * scaled(f)) <= size(n * scaled(f)) + INTEGERS
            &&& -66000 <= scaled(p) <= 66000 * one()
        }),
{
    let (k, x) = (one(), scaled(f));
    lemma_one_is_large();
    let nf = n * x;
    assert(x * (n * k) == nf * k) by (nonlinear_arith)
        requires
            nf == n * x,
    ;
    assert(-65535 <= nf && 1000 * nf <= 65600536 * k) by (nonlinear_arith)
        requires
            nf == n * x,
            0 <= n <= 65535,
            -1 <= x,
            1000 * x <= 1001 * k,
            0 < k,
    ;
    assert(size(nf * k) == size(nf) * k && size(nf) * k <= reach() * k) by (nonlinear_arith)
        requires
            size(nf) <= 65601 * k,
            reach() == 0x1_0000_0000_0000_0000 * k,
            0 < k,
    ;
    lemma_product_error(fpu, f, span);
    let p = scaled(product(fpu, f, span));
    let e = p - nf;
    assert(e * k == p * k - nf * k) by (nonlinear_arith)
        requires
            e == p - nf,
    ;
    assert(size(e * k) == size(e) * k) by (nonlinear_arith)
        requires
            0 < k,
    ;
    assert(INTEGERS * size(e) <= size(nf) + INTEGERS) by (nonlinear_arith)
        requires
            INTEGERS * (size(e) * k) <= size(nf) * k + INTEGERS * k,
            0 < k,
    ;
    assert(size(e) <= size(nf) + 1);
    if nf < 0 {
        assert(size(nf) <= 65535);
        assert(INTEGERS * size(e) <= 65535 + INTEGERS);
    }
}

/// Codes run evenly: a number inside its interval has a code within 0.54 of its share of
/// the way, that is half a code and rounding. So the ends have the first and the last
/// code.
pub proof fn codes_are_linear<F: Fn(Operation) -> u32>(
    fpu: F,
    x: u32,
    in_min: u32,
    in_max: u32,
    out_min: u32,
    out_max: u32,
)
    requires
        accurate(fpu),
        codable(x, in_min, in_max, out_min, out_max),
    ensures
        ({
            let code = coded(fpu, x, in_min, in_max, out_min, out_max);
            let length = scaled(in_max) - scaled(in_min);
            &&& out_min <= code <= out_max
            &&& 50 * size(
                code * length - (out_min * length + (out_max - out_min) * (scaled(x) - scaled(in_min))),
            ) <= 27 * length
            &&& scaled(x) == scaled(in_min) ==> code == out_min
            &&& scaled(x) == scaled(in_max) ==> code == out_max
        }),
{
    clamped_lies_between(x, in_min, in_max);
    assert(clipped(fpu, x, in_min, in_max) == x);
    lemma_code_inside(fpu, x, in_min, in_max, out_min, out_max);
    let code = coded(fpu, x, in_min, in_max, out_min, out_max);
    let (way, length) = (scaled(x) - scaled(in_min), scaled(in_max) - scaled(in_min));
    lemma_nearest(code as int, out_min as int, out_max as int, way, length);
}

/// A code near its share of the way lies between the ends.
proof fn lemma_nearest(code: int, low: int, high: int, way: int, length: int)
    requires
        low <= high,
        0 <= way <= length,
        0 < length,
        50 * size(code * length - (low * length + (high - low) * way)) <= 27 * length,
    ensures
        low <= code <= high,
        way == 0 ==> code == low,
        way == length ==> code == high,
{
    let n = high - low;
    let (c, a) = (code * length, low * length);
    assert(0 <= n * way <= n * length) by (nonlinear_arith)
        requires
            0 <= n,
            0 <= way <= length,
    ;
    assert(n * length == high * length - a) by (nonlinear_arith)
        requires
            n == high - low,
            a == low * length,
    ;
    assert(low <= code) by (nonlinear_arith)
        requires
            50 * (low * length - code * length) <= 27 * length,
            0 < length,
    ;
    assert(code <= high) by (nonlinear_arith)
        requires
            50 * (code * length - high * length) <= 27 * length,
            0 < length,
    ;
    if way == 0 {
        assert(n * way == 0);
        assert(code <= low) by (nonlinear_arith)
            requires
                50 * (code * length - low * length) <= 27 * length,
                0 < length,
        ;
    }
    if way == length {
        assert(code >= high) by (nonlinear_arith)
            requires
                50 * (high * length - code * length) <= 27 * length,
                0 < length,
        ;
    }
}

/// `code` is the code, from 0 to `top`, of the number `x` in the interval whose ends are
/// half of `low` and half of `high`: within 0.54 of its share of the way if it lies
/// there, the first or the last code if it lies beyond an end, and within 0.55 of the
/// middle if it is not a number.
pub open spec fn stands_for(code: int, x: u32, low: int, high: int, top: int) -> bool {
    let twice = 2 * scaled(x);
    &&& 0 <= code <= top
    &&& nan(x) ==> 100 * size(2 * code - top) <= 110
    &&& !nan(x) && twice <= low ==> code == 0
    &&& !nan(x) && high <= twice ==> code == top
    &&& !nan(x) && low <= twice <= high ==> 50 * size(code * (high - low) - top * (twice - low)) <= 27 * (
    high - low)
}

/// The middle of an interval.
proof fn lemma_middle<F: Fn(Operation) -> u32>(fpu: F, min: u32, max: u32)
    requires
        accurate(fpu),
        finite(min) && finite(max),
        scaled(min) == 0 || scaled(min) == -scaled(max),
        one() <= scaled(max) <= 1000 * one(),
    ensures
        ({
            let m = midpoint(fpu, min, max);
            &&& finite(m)
            &&& INTEGERS * size(2 * scaled(m) - (scaled(min) + scaled(max))) <= 3 * scaled(max)
        }),
{
    let (k, y) = (one(), scaled(max));
    lemma_one_is_large();
    lemma_half();
    let s = sum(fpu, min, max);
    lemma_sum_error(fpu, min, max);
    assert(scaled(s) == scaled(min) + scaled(max));
    let (z, h) = (scaled(s), scaled(HALF));
    assert(0 <= z * h && 2 * (z * h) == z * k && z * k <= reach() * k) by (nonlinear_arith)
        requires
            0 <= z <= 1000 * k,
            2 * h == k,
            reach() == 0x1_0000_0000_0000_0000 * k,
            0 < k,
    ;
    lemma_product_error(fpu, s, HALF);
    let m = scaled(product(fpu, s, HALF));
    let e = 2 * m - z;
    assert(e * k == 2 * (m * k) - z * k) by (nonlinear_arith)
        requires
            e == 2 * m - z,
    ;
    assert(size(e * k) == size(e) * k) by (nonlinear_arith)
        requires
            0 < k,
    ;
    assert(INTEGERS * size(e) <= z + 2 * INTEGERS) by (nonlinear_arith)
        requires
            INTEGERS * (size(e) * k) <= z * k + 2 * (INTEGERS * k),
            0 < k,
    ;
}

/// The middle of two numbers up to a million lies halfway between them, up to rounding.
pub proof fn middles_lie_halfway<F: Fn(Operation) -> u32>(fpu: F, lo: u32, hi: u32)
    requires
        accurate(fpu),
        finite(lo) && size(scaled(lo)) <= 1000000 * one(),
        finite(hi) && size(scaled(hi)) <= 1000000 * one(),
    ensures
        ({
            let (m, both) = (midpoint(fpu, lo, hi), scaled(lo) + scaled(hi));
            &&& finite(m)
            &&& INTEGERS * size(2 * scaled(m) - both) <= 3 * size(both) + 2 * INTEGERS
        }),
{
    let k = one();
    lemma_one_is_large();
    lemma_half();
    let s = sum(fpu, lo, hi);
    lemma_sum_error(fpu, lo, hi);
    let (z, h) = (scaled(s), scaled(HALF));
    assert(2 * (z * h) == z * k) by (nonlinear_arith)
        requires
            2 * h == k,
    ;
    assert(size(z * k) == size(z) * k) by (nonlinear_arith)
        requires
            0 < k,
    ;
    assert(size(z) * k <= reach() * k) by (nonlinear_arith)
        requires
            size(z) <= 3000000 * k,
            reach() == 0x1_0000_0000_0000_0000 * k,
            0 < k,
    ;
    lemma_product_error(fpu, s, HALF);
    let m = scaled(product(fpu, s, HALF));
    let e = 2 * m - z;
    assert(e * k == 2 * (m * k) - z * k) by (nonlinear_arith)
        requires
            e == 2 * m - z,
    ;
    assert(size(e * k) == size(e) * k) by (nonlinear_arith)
        requires
            0 < k,
    ;
    assert(INTEGERS * size(e) <= size(z) + 2 * INTEGERS) by (nonlinear_arith)
        requires
            INTEGERS * (size(e) * k) <= size(z) * k + 2 * (INTEGERS * k),
            0 < k,
    ;
}

/// The code of the middle.
proof fn lemma_middle_code(code: int, top: int, way: int, length: int)
    requires
        0 < length,
        0 <= top <= 65535,
        50 * size(code * length - top * way) <= 27 * length,
        INTEGERS * size(2 * way - length) <= 4 * length,
    ensures
        100 * size(2 * code - top) <= 110,
{
    let d = 2 * way - length;
    assert(INTEGERS * size(top * d) <= 262140 * length) by {
        assert(size(top * d) == top * size(d)) by (nonlinear_arith)
            requires
                0 <= top,
        ;
        assert(INTEGERS * (top * size(d)) <= 65535 * (4 * length)) by (nonlinear_arith)
            requires
                INTEGERS * size(d) <= 4 * length,
                0 <= top <= 65535,
                0 <= size(d),
        ;
    }
    let c = 2 * code - top;
    assert(c * length == 2 * (code * length - top * way) + top * d) by (nonlinear_arith)
        requires
            c == 2 * code - top,
            d == 2 * way - length,
    ;
    assert(size(c * length) == size(c) * length) by (nonlinear_arith)
        requires
            0 < length,
    ;
    assert(100 * size(c) <= 110) by (nonlinear_arith)
        requires
            100 * (size(c) * length) <= 110 * length,
            0 < length,
    ;
}

/// The code of any pattern in an interval.
#[verifier::spinoff_prover]
#[verifier::rlimit(60)]
proof fn lemma_stands_for<F: Fn(Operation) -> u32>(fpu: F, x: u32, min: u32, max: u32, top: u32)
    requires
        accurate(fpu),
        finite(min) && finite(max),
        scaled(min) == 0 || scaled(min) == -scaled(max),
        one() <= scaled(max) <= 1000 * one(),
        top <= 65535,
    ensures
        stands_for(coded(fpu, x, min, max, 0, top) as int, x, 2 * scaled(min), 2 * scaled(max), top as int),
{
    lemma_one_is_large();
    let code = coded(fpu, x, min, max, 0, top) as int;
    let (lo, hi) = (scaled(min), scaled(max));
    let length = hi - lo;
    if nan(x) {
        let m = midpoint(fpu, min, max);
        lemma_middle(fpu, min, max);
        assert(lo <= scaled(m) <= hi);
        codes_are_linear(fpu, m, min, max, 0, top);
        clamped_lies_between(m, min, max);
        assert(code == coded(fpu, m, min, max, 0, top));
        assert(0 * length == 0);
        lemma_middle_code(code, top as int, scaled(m) - lo, length);
    } else {
        clamped_lies_between(x, min, max);
        let y = clipped(fpu, x, min, max);
        crate::binary32::lemma_between_finite(min, y, max);
        clamped_lies_between(y, min, max);
        assert(code == coded(fpu, y, min, max, 0, top));
        codes_are_linear(fpu, y, min, max, 0, top);
        assert(0 * length == 0);
        let n = top as int;
        if lo <= scaled(x) <= hi {
            let way = scaled(x) - lo;
            assert(code * (2 * hi - 2 * lo) == 2 * (code * length)) by (nonlinear_arith)
                requires
                    length == hi - lo,
            ;
            assert(n * (2 * scaled(x) - 2 * lo) == 2 * (n * way)) by (nonlinear_arith)
                requires
                    way == scaled(x) - lo,
            ;
        }
    }
}

/// The ends of the intervals of a command.
proof fn lemma_ends()
    ensures
        finite(0x4148_0000) && 2 * scaled(0x4148_0000) == 25 * one(),
        finite(0x41A0_0000) && scaled(0x41A0_0000) == 20 * one(),
        finite(0x41C8_0000) && scaled(0x41C8_0000) == 25 * one(),
        finite(0x41E0_0000) && scaled(0x41E0_0000) == 28 * one(),
        finite(0x4348_0000) && scaled(0x4348_0000) == 200 * one(),
        finite(KP_MAX) && scaled(KP_MAX) == 500 * one(),
        finite(KD_MAX) && scaled(KD_MAX) == 5 * one(),
        finite(0) && scaled(0) == 0,
{
    lemma2_to64();
    lemma_pow2_adds(129, 20);
    lemma_pow2_adds(130, 19);
    lemma_pow2_adds(133, 16);
    lemma_pow2_adds(134, 15);
    lemma_pow2_adds(128, 21);
    assert(scaled(0x4148_0000) == 0xC8_0000 * pow2(129));
    assert(scaled(0x41A0_0000) == 0xA0_0000 * pow2(130));
    assert(scaled(0x41C8_0000) == 0xC8_0000 * pow2(130));
    assert(scaled(0x41E0_0000) == 0xE0_0000 * pow2(130));
    assert(scaled(0x4348_0000) == 0xC8_0000 * pow2(133));
    assert(scaled(KP_MAX) == 0xFA_0000 * pow2(134));
    assert(scaled(KD_MAX) == 0xA0_0000 * pow2(128));
}

/// The code of a field, as it is cut to 16 bits.
proof fn lemma_field<F: Fn(Operation) -> u32>(fpu: F, x: u32, range: FieldRange, low: int, high: int)
    requires
        accurate(fpu),
        finite(range.min) && finite(range.max),
        scaled(range.min) == 0 || scaled(range.min) == -scaled(range.max),
        one() <= scaled(range.max) <= 1000 * one(),
        low == 2 * scaled(range.min),
        high == 2 * scaled(range.max),
    ensures
        stands_for(field_code(fpu, x, range) as int, x, low, high, range.top as int),
{
    lemma_stands_for(fpu, x, range.min, range.max, range.top as u32);
    assert(coded(fpu, x, range.min, range.max, 0, range.top as u32) <= 65535);
}

/// The codes that stand in the bytes of a command frame.
proof fn lemma_bytes_hold(f: MitFields, d: Seq<u8>)
    requires
        d == packed(f),
        f.vel <= 4095 && f.kp <= 4095 && f.kd <= 4095 && f.tau <= 4095,
    ensures
        d[0] * 256 + d[1] == f.pos,
        d[2] * 16 + d[3] as int / 16 == f.vel,
        (d[3] as int % 16) * 256 + d[4] == f.kp,
        d[5] * 16 + d[6] as int / 16 == f.kd,
        (d[6] as int % 16) * 256 + d[7] == f.tau,
{
}

/// The largest speeds and torques of the motors, doubled.
proof fn lemma_model_ends(model: MotorModel, speed: int, torque: int)
    requires
        speed == match model {
            MotorModel::Dm4340P => 40 * one(),
            MotorModel::Dm10010L => 50 * one(),
        },
        torque == match model {
            MotorModel::Dm4340P => 56 * one(),
            MotorModel::Dm10010L => 400 * one(),
        },
    ensures
        finite(spd_max(model)) && 2 * scaled(spd_max(model)) == speed,
        finite(tau_max(model)) && 2 * scaled(tau_max(model)) == torque,
{
    lemma_ends();
}

/// An interval that is as long either way.
proof fn lemma_either_way(max: u32)
    requires
        finite(max),
    ensures
        finite(negated(max)),
        scaled(negated(max)) == -scaled(max),
{
    negation_undoes_itself(max);
}

/// A command frame holds the command, whatever its fields are: it carries the number of
/// its motor and eight bytes, and read from the front these hold the position in 16
/// bits, between -12.5 and 12.5; the velocity in 12, between -20 and 20, or -25 and 25
/// for the larger motor; the position gain in 12, from 0 to 500; the velocity gain in
/// 12, from 0 to 5; the torque in 12, between -28 and 28, or -200 and 200.
#[verifier::spinoff_prover]
#[verifier::rlimit(60)]
pub proof fn frames_hold_the_command<F: Fn(Operation) -> u32>(
    fpu: F,
    motor_id: u8,
    model: MotorModel,
    cmd: MitCommand,
    frame: CanFrame,
)
    requires
        accurate(fpu),
        encodes(fpu, motor_id, model, cmd, frame),
    ensures
        ({
            let (d, k) = (frame.data@, one());
            let speed = match model {
                MotorModel::Dm4340P => 40 * k,
                MotorModel::Dm10010L => 50 * k,
            };
            let torque = match model {
                MotorModel::Dm4340P => 56 * k,
                MotorModel::Dm10010L => 400 * k,
            };
            &&& frame.id.0 == motor_id
            &&& frame.dlc == 8
            &&& stands_for(d[0] * 256 + d[1], cmd.pos, -25 * k, 25 * k, 65535)
            &&& stands_for(d[2] * 16 + d[3] as int / 16, cmd.vel, -speed, speed, 4095)
            &&& stands_for((d[3] as int % 16) * 256 + d[4], cmd.kp, 0, 1000 * k, 4095)
            &&& stands_for(d[5] * 16 + d[6] as int / 16, cmd.kd, 0, 10 * k, 4095)
            &&& stands_for((d[6] as int % 16) * 256 + d[7], cmd.tau, -torque, torque, 4095)
        }),
{
    let k = one();
    let speed = match model {
        MotorModel::Dm4340P => 40 * k,
        MotorModel::Dm10010L => 50 * k,
    };
    let torque = match model {
        MotorModel::Dm4340P => 56 * k,
        MotorModel::Dm10010L => 400 * k,
    };
    lemma_one_is_large();
    lemma_ends();
    lemma_model_ends(model, speed, torque);
    let r = ranges_of(model);
    lemma_either_way(r.pos.max);
    lemma_either_way(r.vel.max);
    lemma_either_way(r.tau.max);
    lemma_field(fpu, cmd.pos, r.pos, -25 * k, 25 * k);
    lemma_field(fpu, cmd.vel, r.vel, -speed, speed);
    lemma_field(fpu, cmd.kp, r.kp, 0, 1000 * k);
    lemma_field(fpu, cmd.kd, r.kd, 0, 10 * k);
    lemma_field(fpu, cmd.tau, r.tau, -torque, torque);
    lemma_bytes_hold(fields_of(fpu, model, cmd), frame.data@);
}

/// A number read from its code.
proof fn lemma_read<F: Fn(Operation) -> u32>(fpu: F, code: u16, span: u32, max: u32, n: int, m: int)
    requires
        accurate(fpu),
        finite(span) && finite(max),
        0 < n <= 65535,
        code <= n,
        scaled(span) == n * one(),
        0 < m <= 100,
        2 * scaled(max) == m * one(),
    ensures
        ({
            let x = uncoded(fpu, code, span, max);
            &&& finite(x)
            &&& INTEGERS * size(n * (2 * scaled(x)) - (m * (2 * code - n)) * one()) <= (6 * m + 1) * (n
                * one())
        }),
{
    let k = one();
    lemma_one_is_large();
    lemma_half();
    let c = of_integer(fpu, code as u32);
    assert(finite(c) && scaled(c) == code * k) by {
        reveal(accurate);
    }
    assert(0 <= code * k <= n * k && n * k <= 65535 * k && k <= n * k) by (nonlinear_arith)
        requires
            0 <= code <= n,
            1 <= n <= 65535,
            0 < k,
    ;
    lemma_part_of(fpu, c, span, n);
    let q = quotient(fpu, c, span);
    let h = difference(fpu, q, HALF);
    let g = product(fpu, h, TWO);
    let x = scaled(product(fpu, g, max));
    assert(INTEGERS * size(n * scaled(q) - code * k) <= code * k + INTEGERS * n);
    let (u, v, w, nk) = (scaled(q), scaled(h), scaled(g), n * k);
    assert(INTEGERS * n <= k);
    assert(size(u) <= 2 * k) by (nonlinear_arith)
        requires
            size(n * u) <= 2 * (n * k),
            0 < n,
            0 < k,
    ;
    lemma_difference_error(fpu, q, HALF);
    lemma_doubling(fpu, h);
    assert(2 * scaled(max) == m * k);
    lemma_fraction_of(fpu, g, max, m, 2);
    assert(INTEGERS * size(2 * x - m * w) <= m * size(w) + 2 * INTEGERS);
    lemma_reading(k, code as int, n, m, u, v, w, x);
}

/// The roundings of a number that is read.
proof fn lemma_reading(k: int, code: int, n: int, m: int, u: int, v: int, w: int, x: int)
    requires
        k >= 0x1_0000_0000_0000_0000,
        0 < n <= 65535,
        0 <= code <= n,
        0 < m <= 100,
        INTEGERS * size(n * u - code * k) <= code * k + INTEGERS * n,
        INTEGERS * size(2 * v - (2 * u - k)) <= size(2 * u - k),
        w == 2 * v,
        INTEGERS * size(2 * x - m * w) <= m * size(w) + 2 * INTEGERS,
    ensures
        INTEGERS * size(n * (2 * x) - (m * (2 * code - n)) * k) <= (6 * m + 1) * (n * k),
{
    let (nk, ck) = (n * k, code * k);
    assert(0 <= ck <= nk && k <= nk) by (nonlinear_arith)
        requires
            ck == code * k,
            nk == n * k,
            0 <= code <= n,
            1 <= n,
            0 < k,
    ;
    assert(INTEGERS * n <= k);
    let nu = n * u;
    assert(INTEGERS * size(nu - ck) <= 2 * nk);
    let e = w - (2 * u - k);
    let ne = n * e;
    assert(size(2 * nu - nk) <= 2 * nk);
    assert(n * (2 * u - k) == 2 * nu - nk) by (nonlinear_arith)
        requires
            nu == n * u,
            nk == n * k,
    ;
    assert(INTEGERS * size(ne) <= 2 * nk) by {
        let y = 2 * u - k;
        assert(size(n * e) == n * size(e) && size(n * y) == n * size(y)) by (nonlinear_arith)
            requires
                0 < n,
        ;
        assert(n * (INTEGERS * size(e)) <= n * size(y)) by (nonlinear_arith)
            requires
                INTEGERS * size(e) <= size(y),
                0 < n,
        ;
        assert(n * (INTEGERS * size(e)) == INTEGERS * (n * size(e))) by (nonlinear_arith);
    }
    let nw = n * w;
    assert(nw == 2 * nu - nk + ne) by (nonlinear_arith)
        requires
            nw == n * w,
            e == w - (2 * u - k),
            ne == n * e,
            n * (2 * u - k) == 2 * nu - nk,
    ;
    // Within one part of the exact, times 1000.
    assert(1000 * size(nw) <= 1001 * nk);
    let z = nw - (2 * ck - nk);
    assert(INTEGERS * size(nu - ck) <= ck + INTEGERS * n);
    assert(100 * (INTEGERS * size(z)) <= 410 * nk);
    let f = 2 * x - m * w;
    let nf = n * f;
    assert(100 * (INTEGERS * size(nf)) <= (101 * m) * nk) by {
        assert(size(n * f) == n * size(f) && size(n * w) == n * size(w)) by (nonlinear_arith)
            requires
                0 < n,
        ;
        assert(n * (INTEGERS * size(f)) <= m * (n * size(w)) + 2 * (INTEGERS * n)) by (nonlinear_arith)
            requires
                INTEGERS * size(f) <= m * size(w) + 2 * INTEGERS,
                0 < n,
        ;
        assert(n * (INTEGERS * size(f)) == INTEGERS * (n * size(f))) by (nonlinear_arith);
        assert(1000 * (m * size(nw)) <= (1001 * m) * nk) by (nonlinear_arith)
            requires
                1000 * size(nw) <= 1001 * nk,
                0 < m,
        ;
        assert((101 * m) * nk >= 101 * (m * nk) && (1001 * m) * nk == 1001 * (m * nk) && m * nk >= nk)
            by (nonlinear_arith)
            requires
                0 < m,
                0 < nk,
        ;
        assert(1000 * (INTEGERS * n) <= k);
    }
    assert(n * (2 * x) - (m * (2 * code - n)) * k == nf + m * z) by {
        let y = 2 * ck - nk;
        assert(nf == n * (2 * x) - m * nw) by (nonlinear_arith)
            requires
                nf == n * f,
                f == 2 * x - m * w,
                nw == n * w,
        ;
        assert(m * z == m * nw - m * y) by (nonlinear_arith)
            requires
                z == nw - y,
        ;
        assert((2 * code - n) * k == y) by (nonlinear_arith)
            requires
                y == 2 * ck - nk,
                ck == code * k,
                nk == n * k,
        ;
        let c = 2 * code - n;
        assert((m * c) * k == m * (c * k)) by (nonlinear_arith);
    }
    assert(100 * (INTEGERS * size(m * z)) <= (410 * m) * nk) by {
        assert(size(m * z) == m * size(z)) by (nonlinear_arith)
            requires
                0 < m,
        ;
        assert(100 * (INTEGERS * (m * size(z))) <= (410 * m) * nk) by (nonlinear_arith)
            requires
                100 * (INTEGERS * size(z)) <= 410 * nk,
                0 < m,
        ;
    }
    assert((101 * m) * nk + (410 * m) * nk <= 100 * ((6 * m + 1) * nk)) by (nonlinear_arith)
        requires
            0 < m,
            0 < nk,
    ;
}

/// The spans of the codes of a feedback, and what they reach.
proof fn lemma_spans()
    ensures
        finite(CODE16_SPAN) && scaled(CODE16_SPAN) == 65535 * one(),
        finite(CODE12_SPAN) && scaled(CODE12_SPAN) == 4095 * one(),
        finite(FEEDBACK_POS_MAX) && 2 * scaled(FEEDBACK_POS_MAX) == 25 * one(),
        finite(FEEDBACK_SPD_MAX) && scaled(FEEDBACK_SPD_MAX) == 20 * one(),
        finite(FEEDBACK_TAU_MAX) && scaled(FEEDBACK_TAU_MAX) == 28 * one(),
{
    lemma2_to64();
    lemma_ends();
    lemma_pow2_adds(141, 8);
    lemma_pow2_adds(137, 12);
    assert(scaled(CODE16_SPAN) == 0xFF_FF00 * pow2(141));
    assert(scaled(CODE12_SPAN) == 0xFF_F000 * pow2(137));
}

/// `x` is the number that `code` stands for among the codes from 0 to `top`, which run
/// evenly from `-max` to `max`: `(2 code / top - 1) max`, within seven parts in 2^24 of
/// `max`.
pub open spec fn reads_as(x: u32, code: int, top: int, max: int) -> bool {
    &&& finite(x)
    &&& INTEGERS * size(top * scaled(x) - (2 * code - top) * max) <= 7 * (top * max)
}

/// The number that is read, in halves.
proof fn lemma_reads_as(x: u32, code: int, n: int, m: int, max: int)
    requires
        finite(x),
        0 < m <= 100,
        0 < n,
        2 * max == m * one(),
        INTEGERS * size(n * (2 * scaled(x)) - (m * (2 * code - n)) * one()) <= (6 * m + 1) * (n * one()),
    ensures
        reads_as(x, code, n, max),
{
    let k = one();
    lemma_one_is_large();
    let c = 2 * code - n;
    assert((m * c) * k == 2 * (c * max)) by (nonlinear_arith)
        requires
            2 * max == m * k,
    ;
    assert(n * (2 * scaled(x)) == 2 * (n * scaled(x))) by (nonlinear_arith);
    assert((6 * m + 1) * (n * k) <= 7 * (2 * (n * max))) by (nonlinear_arith)
        requires
            2 * max == m * k,
            1 <= m,
            0 < n,
            0 < k,
    ;
    assert(0 <= n * max) by (nonlinear_arith)
        requires
            2 * max == m * k,
            0 < m,
            0 < n,
            0 < k,
    ;
}

/// A frame of eight bytes whose identifier is 16 to 39 is a feedback, of the motor whose
/// number is 16 less. Its bytes hold, from the front, the position in 16 bits, between
/// -12.5 and 12.5, the velocity in 12, between -20 and 20, and the torque in 12, between
/// -28 and 28; the upper half of the last byte is the error code. Any other frame is
/// refused, first for its length.
#[verifier::spinoff_prover]
#[verifier::rlimit(60)]
pub proof fn feedback_says_what_the_bytes_hold<F: Fn(Operation) -> u32>(fpu: F, frame: CanFrame)
    requires
        accurate(fpu),
    ensures
        ({
            let (d, k, id) = (frame.data@, one(), frame.id.0);
            let f = feedback_fields(frame);
            &&& frame.dlc != 8 ==> f == Err::<FeedbackFields, DecodeError>(DecodeError::WrongDlc)
            &&& frame.dlc == 8 && !(16 <= id <= 39) ==> f == Err::<FeedbackFields, DecodeError>(DecodeError::WrongCanId)
            &&& frame.dlc == 8 && 16 <= id <= 39 ==> f is Ok && {
                let told = feedback_of(fpu, f->Ok_0);
                &&& told.motor_id == id - 16
                &&& told.error_code == d[7] / 16
                &&& reads_as(told.position, d[0] * 256 + d[1], 65535, 25 * k / 2)
                &&& reads_as(told.velocity, d[2] * 16 + d[3] as int / 16, 4095, 20 * k)
                &&& reads_as(told.torque, (d[3] as int % 16) * 256 + d[4], 4095, 28 * k)
            }
        }),
{
    let (d, k, id) = (frame.data@, one(), frame.id.0);
    lemma_spans();
    if frame.dlc == 8 && 16 <= id <= 39 {
        let f = feedback_fields(frame)->Ok_0;
        let told = feedback_of(fpu, f);
        assert(f.position == d[0] * 256 + d[1]);
        assert(f.velocity == d[2] * 16 + d[3] as int / 16);
        assert(f.torque == (d[3] as int % 16) * 256 + d[4]);
        lemma_read(fpu, f.position, CODE16_SPAN, FEEDBACK_POS_MAX, 65535, 25);
        lemma_read(fpu, f.velocity, CODE12_SPAN, FEEDBACK_SPD_MAX, 4095, 40);
        lemma_read(fpu, f.torque, CODE12_SPAN, FEEDBACK_TAU_MAX, 4095, 56);
        lemma_reads_as(told.position, f.position as int, 65535, 25, 25 * k / 2);
        lemma_reads_as(told.velocity, f.velocity as int, 4095, 40, 20 * k);
        lemma_reads_as(told.torque, f.torque as int, 4095, 56, 28 * k);
    }
}

} // verus!
