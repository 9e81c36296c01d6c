//! What vectors and turned feet are in exact arithmetic.
use crate::ankle::rods::{lemma_error_times, lemma_times};
use crate::ankle::{
    cosine, cross_product, linkage_pose, scalar_product, sine, turned_foot, Attitude,
    LinkParamsAtom01,
};
use crate::arithmetic::{
    accurate, difference, difference_of_products, lemma_difference_error, lemma_one_is_large, lemma_sum_error,
    product, size, sum, sum_of_products, Operation, INTEGERS,
};
use crate::binary32::{finite, negated, negation_undoes_itself, one, scaled};
use crate::pipeline::accuracy::{lemma_times as lemma_exact_times, lemma_two_products};
use vstd::prelude::*;

verus! {

/// A vector of numbers up to a million.
pub open spec fn tame_vector(a: [u32; 3]) -> bool {
    &&& finite(a@[0]) && size(scaled(a@[0])) <= 1000000 * one()
    &&& finite(a@[1]) && size(scaled(a@[1])) <= 1000000 * one()
    &&& finite(a@[2]) && size(scaled(a@[2])) <= 1000000 * one()
}

/// The rounded difference of two products is `x` less `y`, within five parts in 2^24 of
/// them and a few smallest steps.
pub open spec fn is_difference_of(r: u32, x: int, y: int) -> bool {
    &&& finite(r)
    &&& INTEGERS * size(scaled(r) * one() - (x - y)) <= 5 * (size(x) + size(y)) + 4 * (INTEGERS * one())
}

/// The difference of two products.
proof fn lemma_difference_of_two<F: Fn(Operation) -> u32>(fpu: F, a: u32, b: u32, c: u32, d: u32)
    requires
        accurate(fpu),
        finite(a) && size(scaled(a)) <= 1000000 * one(),
        finite(b) && size(scaled(b)) <= 1000000 * one(),
        finite(c) && size(scaled(c)) <= 1000000 * one(),
        finite(d) && size(scaled(d)) <= 1000000 * one(),
    ensures
        is_difference_of(
            difference_of_products(fpu, a, b, c, d),
            scaled(a) * scaled(b),
            scaled(c) * scaled(d),
        ),
{
    lemma_one_is_large();
    lemma_exact_times(fpu, a, b, scaled(b));
    lemma_exact_times(fpu, c, d, scaled(d));
    let (p, q) = (product(fpu, a, b), product(fpu, c, d));
    lemma_difference_error(fpu, p, q);
    let (k, h, y) = (one(), scaled(q), scaled(c) * scaled(d));
    assert((-h) * k == -(h * k)) by (nonlinear_arith);
    lemma_two_products(k, scaled(a) * scaled(b), -y, scaled(p), -h, scaled(difference(fpu, p, q)));
}

/// A rounded sum of three products, in exact arithmetic `x`, `y` and `z`.
proof fn lemma_three_products(k: int, x: int, y: int, z: int, g: int, h: int, s: int)
    requires
        k >= 0x1_0000_0000_0000_0000,
        INTEGERS * size(g * k - (x + y)) <= 5 * (size(x) + size(y)) + 4 * (INTEGERS * k),
        INTEGERS * size(h * k - z) <= 3 * size(z) + INTEGERS * k,
        INTEGERS * size(s - (g + h)) <= size(g + h),
    ensures
        INTEGERS * size(s * k - (x + y + z)) <= 7 * (size(x) + size(y) + size(z)) + 6 * (INTEGERS * k),
{
    let (e, t) = (s - (g + h), g + h);
    assert(t * k == g * k + h * k) by (nonlinear_arith)
        requires
            t == g + h,
    ;
    assert(size(t * k) == size(t) * k && size(e * k) == size(e) * k) by (nonlinear_arith)
        requires
            0 < k,
    ;
    assert(INTEGERS * (size(e) * k) <= size(t) * k) by (nonlinear_arith)
        requires
            INTEGERS * size(e) <= size(t),
            0 < k,
    ;
    assert(s * k == e * k + t * k) by (nonlinear_arith)
        requires
            e == s - t,
    ;
}

/// The scalar product is the sum of the products of the coordinates, up to rounding.
pub proof fn scalar_products_add_up<F: Fn(Operation) -> u32>(fpu: F, a: [u32; 3], b: [u32; 3])
    requires
        accurate(fpu),
        tame_vector(a) && tame_vector(b),
    ensures
        ({
            let r = scalar_product(fpu, a, b);
            let (x, y, z) = (
                scaled(a@[0]) * scaled(b@[0]),
                scaled(a@[1]) * scaled(b@[1]),
                scaled(a@[2]) * scaled(b@[2]),
            );
            &&& finite(r)
            &&& INTEGERS * size(scaled(r) * one() - (x + y + z)) <= 7 * (size(x) + size(y) + size(z)) + 6 * (
            INTEGERS * one())
        }),
{
    lemma_one_is_large();
    lemma_exact_times(fpu, a@[0], b@[0], scaled(b@[0]));
    lemma_exact_times(fpu, a@[1], b@[1], scaled(b@[1]));
    lemma_exact_times(fpu, a@[2], b@[2], scaled(b@[2]));
    let (p, q, r) = (product(fpu, a@[0], b@[0]), product(fpu, a@[1], b@[1]), product(fpu, a@[2], b@[2]));
    let (x, y, z) = (
        scaled(a@[0]) * scaled(b@[0]),
        scaled(a@[1]) * scaled(b@[1]),
        scaled(a@[2]) * scaled(b@[2]),
    );
    let g = sum(fpu, p, q);
    lemma_sum_error(fpu, p, q);
    lemma_two_products(one(), x, y, scaled(p), scaled(q), scaled(g));
    lemma_sum_error(fpu, g, r);
    lemma_three_products(one(), x, y, z, scaled(g), scaled(r), scaled(sum(fpu, g, r)));
}

/// The cross product has along each axis the difference of the products of the other two
/// coordinates, up to rounding.
pub proof fn cross_products_follow_the_right_hand<F: Fn(Operation) -> u32>(
    fpu: F,
    a: [u32; 3],
    b: [u32; 3],
)
    requires
        accurate(fpu),
        tame_vector(a) && tame_vector(b),
    ensures
        ({
            let r = cross_product(fpu, a, b);
            let (ax, ay, az) = (scaled(a@[0]), scaled(a@[1]), scaled(a@[2]));
            let (bx, by, bz) = (scaled(b@[0]), scaled(b@[1]), scaled(b@[2]));
            &&& is_difference_of(r@[0], ay * bz, az * by)
            &&& is_difference_of(r@[1], az * bx, ax * bz)
            &&& is_difference_of(r@[2], ax * by, ay * bx)
        }),
{
    lemma_difference_of_two(fpu, a@[1], b@[2], a@[2], b@[1]);
    lemma_difference_of_two(fpu, a@[2], b@[0], a@[0], b@[2]);
    lemma_difference_of_two(fpu, a@[0], b@[1], a@[1], b@[0]);
}

/// A sine or a cosine: a number up to two, to be safe.
pub open spec fn trigonometric(x: u32) -> bool {
    finite(x) && size(scaled(x)) <= 2 * one()
}

/// A coordinate: a number up to 250.
pub open spec fn coordinate(x: u32) -> bool {
    finite(x) && size(scaled(x)) <= 250 * one()
}

/// A sum, or else a difference, of two products, of which the first factors are sines or
/// cosines and the second numbers up to `m` and `n`.
proof fn lemma_turn<F: Fn(Operation) -> u32>(fpu: F, a: u32, x: u32, b: u32, y: u32, m: int, n: int, c: int, d: int)
    requires
        accurate(fpu),
        trigonometric(a) && trigonometric(b),
        finite(x) && size(scaled(x)) <= m * one(),
        finite(y) && size(scaled(y)) <= n * one(),
        2 * m == c,
        2 * n == d,
        0 <= c <= 3000,
        0 <= d <= 3000,
    ensures
        ({
            let k = one();
            let (r, q) = (sum_of_products(fpu, a, x, b, y), difference_of_products(fpu, a, x, b, y));
            let (u, v) = (scaled(a) * scaled(x), scaled(b) * scaled(y));
            &&& finite(r) && size(scaled(r)) <= (c + d + 3) * k
            &&& finite(q) && size(scaled(q)) <= (c + d + 3) * k
            &&& INTEGERS * size(scaled(r) * k - (u + v)) <= (2 * (c + d) + 4) * (k * k)
            &&& INTEGERS * size(scaled(q) * k - (u - v)) <= (2 * (c + d) + 4) * (k * k)
        }),
{
    let k = one();
    let p2 = k * k;
    lemma_one_is_large();
    lemma_times(fpu, a, x, 2, m, c);
    lemma_times(fpu, b, y, 2, n, d);
    let (p, q) = (product(fpu, a, x), product(fpu, b, y));
    let (g, h) = (scaled(p), scaled(q));
    let (u, v) = (scaled(a) * scaled(x), scaled(b) * scaled(y));
    assert(0 <= c * k <= 3000 * k && 0 <= d * k <= 3000 * k) by (nonlinear_arith)
        requires
            0 <= c <= 3000,
            0 <= d <= 3000,
            0 < k,
    ;
    assert((c + 1) * k == c * k + k && (d + 1) * k == d * k + k) by (nonlinear_arith);
    assert((c + d + 3) * k == c * k + d * k + 3 * k && (c + d + 2) * k == c * k + d * k + 2 * k)
        by (nonlinear_arith);
    lemma_sum_error(fpu, p, q);
    lemma_difference_error(fpu, p, q);
    let (r, s) = (scaled(sum(fpu, p, q)), scaled(difference(fpu, p, q)));
    let (e, f) = (r - (g + h), s - (g - h));
    lemma_error_times(e, k, c + d + 2, 1, k, k);
    lemma_error_times(f, k, c + d + 2, 1, k, k);
    assert(r * k == e * k + g * k + h * k && s * k == f * k + g * k - h * k) by (nonlinear_arith)
        requires
            e == r - (g + h),
            f == s - (g - h),
    ;
    assert((c + 1) * p2 + (d + 1) * p2 + (c + d + 2) * p2 == (2 * (c + d) + 4) * p2) by (nonlinear_arith);
}

/// A coordinate after two turns. `z` is one after the first, in exact arithmetic `w`.
proof fn lemma_two_turns(k: int, r: int, u: int, b: int, z: int, w: int)
    requires
        0 < k,
        size(b) <= 2 * k,
        INTEGERS * size(r * k - (u + b * z)) <= 5020 * (k * k),
        INTEGERS * size(z * k - w) <= 2004 * (k * k),
    ensures
        INTEGERS * size(r * (k * k) - (u * k + b * w)) <= 9100 * (k * (k * k)),
{
    let p2 = k * k;
    let (e, f) = (r * k - (u + b * z), z * k - w);
    lemma_error_times(e, k, 5020, 1, p2, k);
    lemma_error_times(f, b, 2004, 2, p2, k);
    assert(p2 * k == k * p2) by (nonlinear_arith);
    assert(r * p2 - (u * k + b * w) == e * k + f * b) by (nonlinear_arith)
        requires
            p2 == k * k,
            e == r * k - (u + b * z),
            f == z * k - w,
    ;
    assert(0 < k * p2) by (nonlinear_arith)
        requires
            0 < k,
            p2 == k * k,
    ;
}

/// A coordinate along the x or the z axis after both turns.
proof fn lemma_second_turn<F: Fn(Operation) -> u32>(fpu: F, a: u32, x: u32, b: u32, z: u32, w: int)
    requires
        accurate(fpu),
        trigonometric(a) && trigonometric(b),
        coordinate(x),
        finite(z) && size(scaled(z)) <= 1003 * one(),
        INTEGERS * size(scaled(z) * one() - w) <= 2004 * (one() * one()),
    ensures
        ({
            let (k, r) = (one(), sum_of_products(fpu, a, x, b, z));
            &&& finite(r)
            &&& INTEGERS * size(scaled(r) * (k * k) - ((scaled(a) * scaled(x)) * k + scaled(b) * w)) <= 9100
                * (k * (k * k))
        }),
{
    let (k, r) = (one(), sum_of_products(fpu, a, x, b, z));
    lemma_one_is_large();
    lemma_turn(fpu, a, x, b, z, 250, 1003, 500, 2006);
    assert(0 < k * k) by (nonlinear_arith)
        requires
            0 < k,
    ;
    let p2 = k * k;
    let n = 2 * (500int + 2006int) + 4;
    assert(n * p2 <= 5020 * p2) by (nonlinear_arith)
        requires
            n == 5016,
            0 < p2,
    ;
    lemma_two_turns(k, scaled(r), scaled(a) * scaled(x), scaled(b), scaled(z), w);
}

/// The coordinates after both turns.
#[verifier::spinoff_prover]
#[verifier::rlimit(60)]
proof fn lemma_turned<F: Fn(Operation) -> u32>(fpu: F, cp: u32, sp: u32, cr: u32, sr: u32, x: u32, y: u32, z: u32)
    requires
        accurate(fpu),
        trigonometric(cp) && trigonometric(sp) && trigonometric(cr) && trigonometric(sr),
        coordinate(x) && coordinate(y) && coordinate(z),
    ensures
        ({
            let k = one();
            let h = sum_of_products(fpu, sr, y, cr, z);
            let w = scaled(sr) * scaled(y) + scaled(cr) * scaled(z);
            let (a, b) = (scaled(cp), scaled(sp));
            let r = sum_of_products(fpu, cp, x, sp, h);
            let s = difference_of_products(fpu, cr, y, sr, z);
            let t = sum_of_products(fpu, negated(sp), x, cp, h);
            &&& finite(r) && finite(s) && finite(t)
            &&& INTEGERS * size(scaled(r) * (k * k) - ((a * scaled(x)) * k + b * w)) <= 9100 * (k * (k * k))
            &&& INTEGERS * size(scaled(s) * k - (scaled(cr) * scaled(y) - scaled(sr) * scaled(z))) <= 2004
                * (k * k)
            &&& INTEGERS * size(scaled(t) * (k * k) - (a * w - (b * scaled(x)) * k)) <= 9100 * (k * (k * k))
        }),
{
    let k = one();
    let h = sum_of_products(fpu, sr, y, cr, z);
    let w = scaled(sr) * scaled(y) + scaled(cr) * scaled(z);
    lemma_turn(fpu, cr, y, sr, z, 250, 250, 500, 500);
    lemma_turn(fpu, sr, y, cr, z, 250, 250, 500, 500);
    negation_undoes_itself(sp);
    lemma_second_turn(fpu, cp, x, sp, h, w);
    lemma_negated_finite(sp);
    lemma_second_turn(fpu, negated(sp), x, cp, h, w);
    let (b, v) = (scaled(sp), scaled(x));
    assert((-b) * v == -(b * v) && (-(b * v)) * k == -((b * v) * k)) by (nonlinear_arith);
}

/// A number stays one when its sign is flipped.
proof fn lemma_negated_finite(x: u32)
    requires
        finite(x),
    ensures
        finite(negated(x)),
{
}

/// A point of the foot that was at `c`, turned by the roll about the x axis first and by
/// the pitch about the y axis then.
#[verifier::spinoff_prover]
#[verifier::rlimit(60)]
proof fn lemma_turned_foot<F: Fn(Operation) -> u32>(fpu: F, at: Attitude, c: [u32; 3])
    requires
        accurate(fpu),
        trigonometric(at.cos_pitch) && trigonometric(at.sin_pitch),
        trigonometric(at.cos_roll) && trigonometric(at.sin_roll),
        coordinate(c@[0]) && coordinate(c@[1]) && coordinate(c@[2]),
    ensures
        is_turned(
            turned_foot(fpu, at, c),
            c,
            scaled(at.cos_pitch),
            scaled(at.sin_pitch),
            scaled(at.cos_roll),
            scaled(at.sin_roll),
        ),
{
    lemma_turned(fpu, at.cos_pitch, at.sin_pitch, at.cos_roll, at.sin_roll, c@[0], c@[1], c@[2]);
}

/// `r` is `c`, turned about the x axis by an angle of the cosine `cr` and the sine `sr`,
/// and then about the y axis by one of the cosine `cp` and the sine `sp`: within 0.0006,
/// for points up to 250 away along each axis.
pub open spec fn is_turned(r: [u32; 3], c: [u32; 3], cp: int, sp: int, cr: int, sr: int) -> bool {
    let k = one();
    let (x, y, z) = (scaled(c@[0]), scaled(c@[1]), scaled(c@[2]));
    &&& finite(r@[0]) && finite(r@[1]) && finite(r@[2])
    &&& INTEGERS * size(scaled(r@[0]) * (k * k) - ((cp * x) * k + sp * (sr * y + cr * z))) <= 9100 * (k * (k
        * k))
    &&& INTEGERS * size(scaled(r@[1]) * k - (cr * y - sr * z)) <= 2004 * (k * k)
    &&& INTEGERS * size(scaled(r@[2]) * (k * k) - (cp * (sr * y + cr * z) - (sp * x) * k)) <= 9100 * (k * (k
        * k))
}

/// Inverse kinematics turns the pivots at the foot by the roll about the x axis, and then
/// by the pitch about the y axis.
#[verifier::spinoff_prover]
#[verifier::rlimit(60)]
pub proof fn feet_roll_then_pitch<F: Fn(Operation) -> u32>(
    fpu: F,
    links: [LinkParamsAtom01; 2],
    pitch: u32,
    roll: u32,
    i: int,
)
    requires
        accurate(fpu),
        0 <= i < 2,
        trigonometric(cosine(fpu, pitch)) && trigonometric(sine(fpu, pitch)),
        trigonometric(cosine(fpu, roll)) && trigonometric(sine(fpu, roll)),
        coordinate(links@[i].r_c_0@[0]) && coordinate(links@[i].r_c_0@[1]) && coordinate(
            links@[i].r_c_0@[2],
        ),
    ensures
        is_turned(
            linkage_pose(fpu, links, pitch, roll).r_c@[i],
            links@[i].r_c_0,
            scaled(cosine(fpu, pitch)),
            scaled(sine(fpu, pitch)),
            scaled(cosine(fpu, roll)),
            scaled(sine(fpu, roll)),
        ),
{
    assert(i == 0 || i == 1);
    let at = Attitude {
        cos_pitch: cosine(fpu, pitch),
        sin_pitch: sine(fpu, pitch),
        cos_roll: cosine(fpu, roll),
        sin_roll: sine(fpu, roll),
    };
    lemma_turned_foot(fpu, at, links@[i].r_c_0);
    assert(linkage_pose(fpu, links, pitch, roll).r_c@[i] == turned_foot(fpu, at, links@[i].r_c_0));
}

} // verus!
