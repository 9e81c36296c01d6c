//! Accuracy of the ankle kinematics.
//!
//! What holds of the linkage in exact arithmetic holds of what is computed up to
//! rounding, with a unit that is accurate (see [`crate::arithmetic::accurate`]).
//! Numbers are counted in smallest positive steps, products of two numbers in
//! squares of those, and so on; [`one`] is the number one.
use crate::ankle::{
    apart, inverted, jacobian_at, joint_gains, link_pose, matrix_product, motor_gains, turned_bar,
    motor_angle, IkResultAtom01, LinkParamsAtom01, SINGULAR,
};
use crate::arithmetic::{
    accurate, difference, difference_of_products, inner_product, lemma_difference_error,
    lemma_one_is_large, lemma_product_error, lemma_size_of_product, lemma_sum_error, product,
    quotient, reach, size, sum, Operation, INTEGERS, ONE,
};
use crate::binary32::{absolute, below, finite, lemma_absolute, lemma_magnitude_order, negated};
use crate::binary32::{negation_undoes_itself, one, scaled};
use vstd::arithmetic::power2::{lemma2_to64, lemma_pow2_adds};
use vstd::prelude::*;

verus! {

/// A point within a metre of the origin, in millimetres.
pub open spec fn nearby(p: [u32; 3]) -> bool {
    forall|i: int|
        0 <= i < 3 ==> finite(#[trigger] p@[i]) && size(scaled(p@[i])) <= 1000 * one()
}

/// The loop of a linkage closes: from the motor along the bar and the rod one comes
/// to the pivot at the foot, within a thousandth of a millimetre.
#[verifier::spinoff_prover]
#[verifier::rlimit(60)]
pub proof fn the_loop_closes<F: Fn(Operation) -> u32>(fpu: F, link: LinkParamsAtom01, c: [u32; 3], i: int)
    requires
        accurate(fpu),
        nearby(link.r_a_0),
        nearby(c),
        nearby(turned_bar(fpu, link, motor_angle(fpu, link, c))),
        0 <= i < 3,
    ensures
        ({
            let pose = link_pose(fpu, link, c);
            1000 * size(
                scaled(link.r_a_0@[i]) + scaled(pose.r_bar@[i]) + scaled(pose.r_rod@[i]) - scaled(
                    pose.r_c@[i],
                ),
            ) <= one()
        }),
{
    let b = turned_bar(fpu, link, motor_angle(fpu, link, c));
    lemma_one_is_large();
    assert(i == 0 || i == 1 || i == 2);
    lemma_difference_error(fpu, b@[i], link.r_a_0@[i]);
    lemma_difference_error(fpu, c@[i], b@[i]);
    assert(apart(fpu, b, link.r_a_0)@[i] == difference(fpu, b@[i], link.r_a_0@[i]));
    assert(apart(fpu, c, b)@[i] == difference(fpu, c@[i], b@[i]));
}

/// A number up to 10000, in absolute value.
pub open spec fn moderate(x: u32) -> bool {
    finite(x) && size(scaled(x)) <= 10000 * one()
}

/// The number one.
pub proof fn lemma_unit()
    ensures
        scaled(ONE) == one(),
        scaled(0) == 0,
{
    lemma2_to64();
    lemma_pow2_adds(23, 126);
}

/// The product of moderate numbers.
proof fn lemma_moderate_product<F: Fn(Operation) -> u32>(fpu: F, a: u32, b: u32)
    requires
        accurate(fpu),
        moderate(a),
        moderate(b),
    ensures
        ({
            let p = product(fpu, a, b);
            &&& finite(p) && size(scaled(p)) <= 100100000 * one()
            &&& INTEGERS * size(scaled(p) * one() - scaled(a) * scaled(b)) <= size(
                scaled(a) * scaled(b),
            ) + INTEGERS * one()
            &&& size(scaled(a) * scaled(b)) <= 100000000 * (one() * one())
        }),
{
    let k = one();
    lemma_one_is_large();
    lemma_size_of_product(scaled(a), scaled(b), 10000 * k, 10000 * k);
    assert((10000 * k) * (10000 * k) == 100000000 * (k * k)) by (nonlinear_arith);
    assert(reach() * k == 0x1_0000_0000_0000_0000 * (k * k)) by (nonlinear_arith)
        requires
            reach() == 0x1_0000_0000_0000_0000 * k,
    ;
    assert(k * k >= 0x1_0000_0000_0000_0000 * k) by (nonlinear_arith)
        requires
            k >= 0x1_0000_0000_0000_0000,
    ;
    lemma_product_error(fpu, a, b);
    let p = scaled(product(fpu, a, b));
    assert(size(p * k) <= 100100000 * (k * k));
    assert(size(p) <= 100100000 * k) by (nonlinear_arith)
        requires
            size(p * k) <= 100100000 * (k * k),
            k > 0,
    ;
}

/// The determinant of a matrix of moderate numbers.
proof fn lemma_determinant<F: Fn(Operation) -> u32>(fpu: F, a: u32, b: u32, c: u32, d: u32)
    requires
        accurate(fpu),
        moderate(a) && moderate(b) && moderate(c) && moderate(d),
    ensures
        ({
            let r = difference_of_products(fpu, a, b, c, d);
            &&& finite(r) && size(scaled(r)) <= 210000000 * one()
            &&& INTEGERS * size(scaled(r) * one() - (scaled(a) * scaled(b) - scaled(c) * scaled(d)))
                <= 500000000 * (one() * one())
        }),
{
    let k = one();
    lemma_one_is_large();
    lemma_moderate_product(fpu, a, b);
    lemma_moderate_product(fpu, c, d);
    let (x, y) = (scaled(product(fpu, a, b)), scaled(product(fpu, c, d)));
    lemma_difference_error(fpu, product(fpu, a, b), product(fpu, c, d));
    let r = scaled(difference_of_products(fpu, a, b, c, d));
    let e = r - (x - y);
    assert(INTEGERS * size(e * k) <= 200200000 * (k * k)) by (nonlinear_arith)
        requires
            INTEGERS * size(e) <= 200200000 * k,
            k > 0,
    ;
    let (p, q) = (scaled(a) * scaled(b), scaled(c) * scaled(d));
    assert(r * k - (p - q) == e * k + (x * k - p) - (y * k - q)) by (nonlinear_arith)
        requires
            e == r - (x - y),
    ;
    assert(k * k >= 0x1_0000_0000_0000_0000 * k) by (nonlinear_arith)
        requires
            k >= 0x1_0000_0000_0000_0000,
    ;
}

/// The reciprocal of a number from one to 210000000.
proof fn lemma_reciprocal<F: Fn(Operation) -> u32>(fpu: F, det: u32)
    requires
        accurate(fpu),
        finite(det),
        one() <= size(scaled(det)) <= 210000000 * one(),
    ensures
        ({
            let d = quotient(fpu, ONE, det);
            &&& finite(d)
            &&& size(scaled(d)) <= 2 * one()
            &&& 1000 * (INTEGERS * size(scaled(d) * scaled(det) - one() * one())) <= 1001 * (one()
                * one())
        }),
{
    let (k, x) = (one(), scaled(det));
    let d = scaled(quotient(fpu, ONE, det));
    lemma_one_is_large();
    lemma_unit();
    assert(size(k * k) == k * k && k * k <= reach() * size(x)) by (nonlinear_arith)
        requires
            reach() == 0x1_0000_0000_0000_0000 * k,
            k <= size(x),
            k > 0,
    ;
    assert(finite(quotient(fpu, ONE, det)) && INTEGERS * size(d * x - k * k) <= k * k + INTEGERS
        * size(x)) by {
        reveal(accurate);
    }
    assert(k * k >= 0x1_0000_0000_0000_0000 * k) by (nonlinear_arith)
        requires
            k >= 0x1_0000_0000_0000_0000,
    ;
    assert(size(d * x) <= 2 * (k * k));
    assert(size(d) <= 2 * k) by (nonlinear_arith)
        requires
            size(d * x) <= 2 * (k * k),
            k <= size(x),
            k > 0,
    ;
}

/// From an error in cubes of steps to one in squares.
proof fn lemma_scaled_down(e: int, n: int)
    requires
        INTEGERS * size(e * one()) <= n * (one() * (one() * one())),
    ensures
        INTEGERS * size(e) <= n * (one() * one()),
{
    let k = one();
    lemma_one_is_large();
    assert(size(e * k) == size(e) * k) by (nonlinear_arith)
        requires
            k > 0,
    ;
    assert(INTEGERS * size(e) <= n * (k * k)) by (nonlinear_arith)
        requires
            INTEGERS * (size(e) * k) <= n * (k * (k * k)),
            k > 0,
    ;
}

/// A few steps for each step of a moderate determinant are next to nothing.
proof fn lemma_negligible(det: int)
    requires
        size(det) <= 210000000 * one(),
    ensures
        1000 * (INTEGERS * (one() * size(det))) <= one() * (one() * one()),
        1000 * (INTEGERS * (20000 * size(det))) <= one() * one(),
{
    let k = one();
    lemma_one_is_large();
    assert(1000 * (INTEGERS * (20000 * size(det))) <= k * k) by (nonlinear_arith)
        requires
            size(det) <= 210000000 * k,
            k >= 0x1_0000_0000_0000_0000 * 0x1_0000_0000_0000_0000,
    ;
    assert(1000 * (INTEGERS * (k * size(det))) <= k * (k * k)) by (nonlinear_arith)
        requires
            1000 * (INTEGERS * (20000 * size(det))) <= k * k,
            0 <= size(det),
            k > 0,
    ;
}

/// An entry of an inverse: a reciprocal `d` of the determinant `det`, up to the sign
/// `s`, times a moderate number.
proof fn lemma_inverse_entry<F: Fn(Operation) -> u32>(fpu: F, d: u32, det: int, s: int, t: u32)
    requires
        accurate(fpu),
        s == 1 || s == -1,
        finite(d),
        size(scaled(d)) <= 2 * one(),
        size(det) <= 210000000 * one(),
        1000 * (INTEGERS * size(scaled(d) * det - s * (one() * one()))) <= 1001 * (one() * one()),
        moderate(t),
    ensures
        ({
            let i = product(fpu, d, t);
            &&& finite(i) && size(scaled(i)) <= 100100000 * one()
            &&& INTEGERS * size(scaled(i) * det - s * (one() * scaled(t))) <= 30000 * (one() * one())
        }),
{
    let k = one();
    let k2 = k * k;
    let (x, y, i) = (scaled(d), scaled(t), scaled(product(fpu, d, t)));
    lemma_one_is_large();
    lemma_moderate_product(fpu, d, t);
    lemma_negligible(det);
    let e = i * k - x * y;
    let f = x * det - s * k2;
    lemma_size_of_product(INTEGERS * e, det, INTEGERS * size(e), size(det));
    assert((INTEGERS * size(e)) * size(det) <= size(x * y) * size(det) + INTEGERS * (k * size(det)))
        by (nonlinear_arith)
        requires
            INTEGERS * size(e) <= size(x * y) + INTEGERS * k,
            0 <= size(det),
    ;
    assert(s * k2 == k2 || s * k2 == -k2) by (nonlinear_arith)
        requires
            s == 1 || s == -1,
    ;
    assert(0 < k2) by (nonlinear_arith)
        requires
            k2 == k * k,
            0 < k,
    ;
    lemma_size_of_product(x, y, size(x), size(y));
    lemma_size_of_product(x, det, size(x), size(det));
    assert((size(x) * size(y)) * size(det) == (size(x) * size(det)) * size(y)) by (nonlinear_arith);
    assert(1000 * size(x * det) <= 1001 * k2);
    assert(1000 * (size(x * det) * size(y)) <= 1001 * (10000 * (k * k2))) by (nonlinear_arith)
        requires
            1000 * size(x * det) <= 1001 * k2,
            0 <= size(x * det),
            0 <= size(y) <= 10000 * k,
    ;
    lemma_size_of_product(1000 * (INTEGERS * f), y, 1001 * k2, 10000 * k);
    assert((1001 * k2) * (10000 * k) == 1001 * (10000 * (k * k2))) by (nonlinear_arith);
    assert((1000 * (INTEGERS * f)) * y == 1000 * (INTEGERS * (f * y))) by (nonlinear_arith);
    assert((INTEGERS * e) * det == INTEGERS * (e * det)) by (nonlinear_arith);
    let r = i * det - s * (k * y);
    assert(e * det == (i * k) * det - (x * y) * det) by (nonlinear_arith)
        requires
            e == i * k - x * y,
    ;
    assert(f * y == (x * det) * y - (s * k2) * y) by (nonlinear_arith)
        requires
            f == x * det - s * k2,
    ;
    assert(r * k == (i * det) * k - (s * (k * y)) * k) by (nonlinear_arith)
        requires
            r == i * det - s * (k * y),
    ;
    assert((i * k) * det == (i * det) * k) by (nonlinear_arith);
    assert((x * y) * det == (x * det) * y) by (nonlinear_arith);
    assert((s * k2) * y == (s * (k * y)) * k) by (nonlinear_arith)
        requires
            k2 == k * k,
    ;
    lemma_scaled_down(r, 30000);
}

/// The product of an entry of an inverse and a moderate number.
proof fn lemma_inverse_times<F: Fn(Operation) -> u32>(fpu: F, i: u32, det: int, s: int, t: int, v: u32)
    requires
        accurate(fpu),
        s == 1 || s == -1,
        finite(i),
        size(scaled(i)) <= 100100000 * one(),
        size(det) <= 210000000 * one(),
        size(t) <= 10000 * one(),
        INTEGERS * size(scaled(i) * det - s * (one() * t)) <= 30000 * (one() * one()),
        moderate(v),
    ensures
        ({
            let p = product(fpu, i, v);
            &&& finite(p) && size(scaled(p)) <= 2000000000000 * one()
            &&& INTEGERS * size(scaled(p) * det - s * (t * scaled(v))) <= 410000000 * (one() * one())
        }),
{
    let k = one();
    let k2 = k * k;
    let (x, y, p) = (scaled(i), scaled(v), scaled(product(fpu, i, v)));
    lemma_one_is_large();
    lemma_size_of_product(x, y, 100100000 * k, 10000 * k);
    assert((100100000 * k) * (10000 * k) == 1001000000000 * k2) by (nonlinear_arith)
        requires
            k2 == k * k,
    ;
    assert(reach() * k == 0x1_0000_0000_0000_0000 * k2) by (nonlinear_arith)
        requires
            reach() == 0x1_0000_0000_0000_0000 * k,
            k2 == k * k,
    ;
    assert(k2 >= 0x1_0000_0000_0000_0000 * k) by (nonlinear_arith)
        requires
            k >= 0x1_0000_0000_0000_0000,
            k2 == k * k,
    ;
    lemma_product_error(fpu, i, v);
    lemma_negligible(det);
    assert(size(p * k) <= 2000000000000 * k2);
    assert(size(p) <= 2000000000000 * k) by (nonlinear_arith)
        requires
            size(p * k) <= 2000000000000 * k2,
            k2 == k * k,
            k > 0,
    ;
    let e = p * k - x * y;
    let f = x * det - s * (k * t);
    lemma_size_of_product(INTEGERS * e, det, INTEGERS * size(e), size(det));
    assert((INTEGERS * size(e)) * size(det) <= size(x * y) * size(det) + INTEGERS * (k * size(det)))
        by (nonlinear_arith)
        requires
            INTEGERS * size(e) <= size(x * y) + INTEGERS * k,
            0 <= size(det),
    ;
    lemma_size_of_product(x, y, size(x), size(y));
    lemma_size_of_product(x, det, size(x), size(det));
    assert((size(x) * size(y)) * size(det) == (size(x) * size(det)) * size(y)) by (nonlinear_arith);
    lemma_size_of_product(k, t, k, 10000 * k);
    assert(k * (10000 * k) == 10000 * k2) by (nonlinear_arith)
        requires
            k2 == k * k,
    ;
    assert(s * (k * t) == k * t || s * (k * t) == -(k * t)) by (nonlinear_arith)
        requires
            s == 1 || s == -1,
    ;
    assert(size(x * det) <= 10001 * k2);
    assert(size(x * det) * size(y) <= 10001 * (10000 * (k * k2))) by (nonlinear_arith)
        requires
            0 <= size(x * det) <= 10001 * k2,
            0 <= size(y) <= 10000 * k,
    ;
    lemma_size_of_product(INTEGERS * f, y, 30000 * k2, 10000 * k);
    assert((30000 * k2) * (10000 * k) == 30000 * (10000 * (k * k2))) by (nonlinear_arith);
    assert((INTEGERS * f) * y == INTEGERS * (f * y)) by (nonlinear_arith);
    assert((INTEGERS * e) * det == INTEGERS * (e * det)) by (nonlinear_arith);
    let r = p * det - s * (t * y);
    assert(e * det == (p * k) * det - (x * y) * det) by (nonlinear_arith)
        requires
            e == p * k - x * y,
    ;
    assert(f * y == (x * det) * y - (s * (k * t)) * y) by (nonlinear_arith)
        requires
            f == x * det - s * (k * t),
    ;
    assert(r * k == (p * det) * k - (s * (t * y)) * k) by (nonlinear_arith)
        requires
            r == p * det - s * (t * y),
    ;
    assert((p * k) * det == (p * det) * k) by (nonlinear_arith);
    assert((x * y) * det == (x * det) * y) by (nonlinear_arith);
    assert((s * (k * t)) * y == (s * (t * y)) * k) by (nonlinear_arith);
    lemma_scaled_down(r, 410000000);
}

/// The product with zero is at most one smallest step.
proof fn lemma_times_zero<F: Fn(Operation) -> u32>(fpu: F, a: u32)
    requires
        accurate(fpu),
        finite(a),
    ensures
        finite(product(fpu, a, 0)),
        size(scaled(product(fpu, a, 0))) <= 1,
        finite(product(fpu, 0, a)),
        size(scaled(product(fpu, 0, a))) <= 1,
{
    lemma_unit();
    lemma_one_is_large();
    let k = one();
    assert(scaled(a) * 0 == 0 && 0 * scaled(a) == 0);
    assert(0 <= reach() * k) by (nonlinear_arith)
        requires
            reach() == 0x1_0000_0000_0000_0000 * k,
            k > 0,
    ;
    lemma_product_error(fpu, a, 0);
    lemma_product_error(fpu, 0, a);
    let (p, q) = (scaled(product(fpu, a, 0)), scaled(product(fpu, 0, a)));
    assert(size(p) <= 1 && size(q) <= 1) by (nonlinear_arith)
        requires
            INTEGERS * size(p * k) <= INTEGERS * k,
            INTEGERS * size(q * k) <= INTEGERS * k,
            k > 0,
    ;
}

/// An entry of a product of an inverse and a matrix where one of the two terms is
/// next to nothing, whichever comes first.
proof fn lemma_entry<F: Fn(Operation) -> u32>(fpu: F, p: u32, z: u32, det: int, e: int)
    requires
        accurate(fpu),
        finite(p) && finite(z),
        size(scaled(p)) <= 2000000000000 * one(),
        size(scaled(z)) <= 20000,
        size(det) <= 210000000 * one(),
        size(e) <= 100000000 * (one() * one()),
        INTEGERS * size(scaled(p) * det - e) <= 410000000 * (one() * one()),
    ensures
        ({
            let a = sum(fpu, sum(fpu, 0, p), z);
            let b = sum(fpu, sum(fpu, 0, z), p);
            &&& finite(a) && size(scaled(a)) <= 3000000000000 * one()
            &&& finite(b) && size(scaled(b)) <= 3000000000000 * one()
            &&& INTEGERS * size(scaled(a) * det - e) <= 520000000 * (one() * one())
            &&& INTEGERS * size(scaled(b) * det - e) <= 520000000 * (one() * one())
        }),
{
    let k = one();
    let k2 = k * k;
    lemma_unit();
    lemma_one_is_large();
    lemma_negligible(det);
    assert(k2 >= 0x1_0000_0000_0000_0000 * k) by (nonlinear_arith)
        requires
            k >= 0x1_0000_0000_0000_0000,
            k2 == k * k,
    ;
    lemma_sum_error(fpu, 0, p);
    lemma_sum_error(fpu, 0, z);
    lemma_sum_error(fpu, sum(fpu, 0, p), z);
    lemma_sum_error(fpu, sum(fpu, 0, z), p);
    let a = scaled(sum(fpu, sum(fpu, 0, p), z));
    let b = scaled(sum(fpu, sum(fpu, 0, z), p));
    lemma_last_sum(scaled(p), scaled(z), a, det, e);
    lemma_last_sum(scaled(p), scaled(z), b, det, e);
}

proof fn lemma_last_sum(p: int, z: int, a: int, det: int, e: int)
    requires
        size(z) <= 20000,
        size(det) <= 210000000 * one(),
        size(e) <= 100000000 * (one() * one()),
        INTEGERS * size(p * det - e) <= 410000000 * (one() * one()),
        INTEGERS * size(a - (p + z)) <= size(p + z),
    ensures
        INTEGERS * size(a * det - e) <= 520000000 * (one() * one()),
{
    let k2 = one() * one();
    lemma_negligible(det);
    let g = a - (p + z);
    lemma_size_of_product(INTEGERS * g, det, size(p + z), size(det));
    assert((INTEGERS * g) * det == INTEGERS * (g * det)) by (nonlinear_arith);
    lemma_size_of_product(p + z, det, size(p + z), size(det));
    lemma_size_of_product(z, det, 20000, size(det));
    assert((p + z) * det == p * det + z * det) by (nonlinear_arith);
    assert(a * det == g * det + p * det + z * det) by (nonlinear_arith)
        requires
            g == a - (p + z),
    ;
    assert(0 <= k2) by (nonlinear_arith)
        requires
            k2 == one() * one(),
    ;
}

/// The product with a number of at most one step is a few steps.
proof fn lemma_times_nothing<F: Fn(Operation) -> u32>(fpu: F, z: u32, t: u32)
    requires
        accurate(fpu),
        finite(z),
        size(scaled(z)) <= 1,
        moderate(t),
    ensures
        finite(product(fpu, z, t)),
        size(scaled(product(fpu, z, t))) <= 20000,
{
    let k = one();
    lemma_one_is_large();
    lemma_size_of_product(scaled(z), scaled(t), 1, 10000 * k);
    assert(10000 * k <= reach() * k) by (nonlinear_arith)
        requires
            reach() == 0x1_0000_0000_0000_0000 * k,
            k >= 0x1_0000_0000_0000_0000,
    ;
    lemma_product_error(fpu, z, t);
    let p = scaled(product(fpu, z, t));
    assert(size(p * k) <= 20000 * k);
    assert(size(p) <= 20000) by (nonlinear_arith)
        requires
            size(p * k) <= 20000 * k,
            k > 0,
    ;
}

/// A moderate number that is not small: at least 1000.
pub open spec fn sizable(x: u32) -> bool {
    moderate(x) && 1000 * one() <= size(scaled(x))
}

/// Where `m` times the product of `u` and `v` is `v t`, `m` is `t` over `u`.
proof fn lemma_divided(m: int, det: int, u: int, v: int, t: int)
    requires
        INTEGERS * size(m * det - v * t) <= 520000000 * (one() * one()),
        INTEGERS * size(det * one() - u * v) <= 500000000 * (one() * one()),
        1000 * one() <= size(u) <= 10000 * one(),
        1000 * one() <= size(v) <= 10000 * one(),
        size(t) <= 10000 * one(),
    ensures
        size(m * u - t * one()) <= 4 * (one() * one()),
{
    let k = one();
    let k2 = k * k;
    let k3 = k * k2;
    lemma_one_is_large();
    lemma_size_of_product(u, v, size(u), size(v));
    lemma_size_of_product(v, t, 10000 * k, 10000 * k);
    assert((10000 * k) * (10000 * k) == 100000000 * k2) by (nonlinear_arith)
        requires
            k2 == k * k,
    ;
    assert(size(u) * size(v) >= 1000000 * k2) by (nonlinear_arith)
        requires
            1000 * k <= size(u),
            1000 * k <= size(v),
            k2 == k * k,
            k > 0,
    ;
    assert(0 < k2) by (nonlinear_arith)
        requires
            k2 == k * k,
            k > 0,
    ;
    assert(size(det * k) >= 999000 * k2);
    assert(size(det) >= 999000 * k) by (nonlinear_arith)
        requires
            size(det * k) >= 999000 * k2,
            k2 == k * k,
            k > 0,
    ;
    assert(size(m * det) <= 100000100 * k2);
    lemma_size_of_product(m, det, size(m), size(det));
    assert(size(m) <= 101 * k) by (nonlinear_arith)
        requires
            size(m) * size(det) <= 100000100 * k2,
            size(det) >= 999000 * k,
            0 <= size(m),
            k2 == k * k,
            k > 0,
    ;
    let f = u * v - det * k;
    let e = m * det - v * t;
    let r = m * u - t * k;
    assert(r * v == m * f + k * e) by {
        assert(r * v == (m * u) * v - (t * k) * v) by (nonlinear_arith)
            requires
                r == m * u - t * k,
        ;
        assert(m * f == m * (u * v) - m * (det * k)) by (nonlinear_arith)
            requires
                f == u * v - det * k,
        ;
        assert(k * e == k * (m * det) - k * (v * t)) by (nonlinear_arith)
            requires
                e == m * det - v * t,
        ;
        assert((m * u) * v == m * (u * v)) by (nonlinear_arith);
        assert(m * (det * k) == k * (m * det)) by (nonlinear_arith);
        assert((t * k) * v == k * (v * t)) by (nonlinear_arith);
    }
    lemma_size_of_product(m, INTEGERS * f, 101 * k, 500000000 * k2);
    assert((101 * k) * (500000000 * k2) == 50500000000 * k3) by (nonlinear_arith)
        requires
            k3 == k * k2,
    ;
    assert(m * (INTEGERS * f) == INTEGERS * (m * f)) by (nonlinear_arith);
    lemma_size_of_product(k, INTEGERS * e, k, 520000000 * k2);
    assert(k * (520000000 * k2) == 520000000 * k3) by (nonlinear_arith)
        requires
            k3 == k * k2,
    ;
    assert(k * (INTEGERS * e) == INTEGERS * (k * e)) by (nonlinear_arith);
    assert(0 < k3) by (nonlinear_arith)
        requires
            k3 == k * k2,
            k > 0,
            k2 > 0,
    ;
    assert(size(r * v) <= 4000 * k3);
    lemma_size_of_product(r, v, size(r), size(v));
    assert(size(r) <= 4 * k2) by (nonlinear_arith)
        requires
            size(r) * size(v) <= 4000 * k3,
            size(v) >= 1000 * k,
            0 <= size(r),
            k3 == k * k2,
            k > 0,
    ;
}

/// One term of a product of both matrices, times the determinant.
proof fn lemma_term(j: int, m: int, det: int, u: int, s: int, a: int, b: int)
    requires
        s == 1 || s == -1,
        INTEGERS * size(j * det - s * (a * u)) <= 520000000 * (one() * one()),
        size(m * u - b * one()) <= 4 * (one() * one()),
        1000 * one() <= size(u) <= 10000 * one(),
        size(a) <= 10000 * one(),
        size(b) <= 10000 * one(),
    ensures
        size(det * (j * m) - s * (a * b) * one()) <= 40400 * (one() * (one() * one())),
{
    let k = one();
    let k2 = k * k;
    let k3 = k * k2;
    lemma_one_is_large();
    assert(0 < k2 && 0 < k3) by (nonlinear_arith)
        requires
            k2 == k * k,
            k3 == k * k2,
            k > 0,
    ;
    let e = j * det - s * (a * u);
    let f = m * u - b * k;
    let r = det * (j * m) - s * (a * b) * k;
    assert(size(e) <= 31 * k2);
    assert(u * r == (s * (a * u)) * f + e * (b * k) + e * f) by {
        let g = s * (a * u);
        assert((j * det) * (m * u) == (g + e) * (b * k + f)) by (nonlinear_arith)
            requires
                j * det == g + e,
                m * u == b * k + f,
        ;
        assert((g + e) * (b * k + f) == g * (b * k) + g * f + e * (b * k) + e * f)
            by (nonlinear_arith);
        assert(u * r == u * (det * (j * m)) - u * (s * (a * b) * k)) by (nonlinear_arith)
            requires
                r == det * (j * m) - s * (a * b) * k,
        ;
        assert(u * (det * (j * m)) == (j * det) * (m * u)) by (nonlinear_arith);
        assert(u * (s * (a * b) * k) == (s * (a * u)) * (b * k)) by (nonlinear_arith);
    }
    lemma_size_of_product(a, u, 10000 * k, size(u));
    assert(s * (a * u) == a * u || s * (a * u) == -(a * u)) by (nonlinear_arith)
        requires
            s == 1 || s == -1,
    ;
    lemma_size_of_product(s * (a * u), f, (10000 * k) * size(u), 4 * k2);
    assert(((10000 * k) * size(u)) * (4 * k2) == (40000 * k3) * size(u)) by (nonlinear_arith)
        requires
            k3 == k * k2,
    ;
    lemma_size_of_product(b, k, 10000 * k, k);
    assert((10000 * k) * k == 10000 * k2) by (nonlinear_arith)
        requires
            k2 == k * k,
    ;
    lemma_size_of_product(e, b * k, 31 * k2, 10000 * k2);
    lemma_size_of_product(e, f, 31 * k2, 4 * k2);
    assert((31 * k2) * (10000 * k2) + (31 * k2) * (4 * k2) <= (400 * k3) * (1000 * k))
        by (nonlinear_arith)
        requires
            k3 == k * k2,
            k2 == k * k,
            k > 0,
    ;
    assert((400 * k3) * (1000 * k) <= (400 * k3) * size(u)) by (nonlinear_arith)
        requires
            1000 * k <= size(u),
            0 < k3,
    ;
    lemma_size_of_product(u, r, size(u), size(r));
    assert(size(u * r) <= (40000 * k3) * size(u) + (400 * k3) * size(u));
    assert(size(r) <= 40400 * k3) by (nonlinear_arith)
        requires
            size(u) * size(r) <= (40000 * k3) * size(u) + (400 * k3) * size(u),
            size(u) > 0,
    ;
}

/// A product of both matrices at one place: two terms that add up to `whole` times
/// the determinant.
proof fn lemma_place(x: int, y: int, det: int, exact: int, p: int, q: int, w: int)
    requires
        w == 0 || w == 1,
        size(det * x - p * one()) <= 40400 * (one() * (one() * one())),
        size(det * y - q * one()) <= 40400 * (one() * (one() * one())),
        p + q == w * exact,
        INTEGERS * size(det * one() - exact) <= 500000000 * (one() * one()),
        10000000 * (one() * one()) <= size(exact),
    ensures
        100 * size(x + y - w * (one() * one())) <= one() * one(),
{
    let k = one();
    let k2 = k * k;
    let k3 = k * k2;
    lemma_one_is_large();
    assert(0 < k2 && 0 < k3) by (nonlinear_arith)
        requires
            k2 == k * k,
            k3 == k * k2,
            k > 0,
    ;
    assert(size(det * k) >= 9999000 * k2);
    assert(size(det) >= 9999000 * k) by (nonlinear_arith)
        requires
            size(det * k) >= 9999000 * k2,
            k2 == k * k,
            k > 0,
    ;
    let g = det * k - exact;
    assert(size(g * k) <= 30 * k3) by (nonlinear_arith)
        requires
            size(g) <= 30 * k2,
            k3 == k * k2,
            k > 0,
    ;
    let r = x + y - w * k2;
    assert(det * r == (det * x - p * k) + (det * y - q * k) - w * (g * k)) by {
        assert(det * r == det * x + det * y - det * (w * k2)) by (nonlinear_arith)
            requires
                r == x + y - w * k2,
        ;
        assert(g * k == (det * k) * k - exact * k) by (nonlinear_arith)
            requires
                g == det * k - exact,
        ;
        assert((det * k) * k == det * k2) by (nonlinear_arith)
            requires
                k2 == k * k,
        ;
        assert(p * k + q * k == (w * exact) * k) by (nonlinear_arith)
            requires
                p + q == w * exact,
        ;
        if w == 0 {
            assert(det * (0 * k2) == 0 && (0 * exact) * k == 0) by (nonlinear_arith);
        } else {
            assert(1 * k2 == k2 && 1 * exact == exact && 1 * (g * k) == g * k);
        }
    }
    assert(w * (g * k) == 0 || w * (g * k) == g * k) by (nonlinear_arith)
        requires
            w == 0 || w == 1,
    ;
    assert(size(det * r) <= 81000 * k3);
    lemma_size_of_product(det, r, size(det), size(r));
    assert(100 * size(r) <= k2) by (nonlinear_arith)
        requires
            size(det) * size(r) <= 81000 * k3,
            size(det) >= 9999000 * k,
            0 <= size(r),
            k3 == k * k2,
            k > 0,
    ;
}

/// A matrix of moderate numbers.
pub open spec fn moderate_matrix(m: [[u32; 2]; 2]) -> bool {
    moderate(m@[0]@[0]) && moderate(m@[0]@[1]) && moderate(m@[1]@[0]) && moderate(m@[1]@[1])
}

/// The exact determinant of a matrix.
pub open spec fn determinant(m: [[u32; 2]; 2]) -> int {
    scaled(m@[0]@[0]) * scaled(m@[1]@[1]) - scaled(m@[0]@[1]) * scaled(m@[1]@[0])
}

/// An entry of the exact product of two matrices.
pub open spec fn exact_entry(a: [[u32; 2]; 2], b: [[u32; 2]; 2], r: int, c: int) -> int {
    scaled(a@[r]@[0]) * scaled(b@[0]@[c]) + scaled(a@[r]@[1]) * scaled(b@[1]@[c])
}

/// A determinant that is at least one is not singular.
proof fn lemma_regular(det: u32)
    requires
        finite(det),
        one() <= size(scaled(det)),
    ensures
        !below(absolute(det), SINGULAR),
{
    lemma_unit();
    lemma_absolute(det);
    lemma_magnitude_order(SINGULAR as int, ONE as int);
}

/// The determinant as it is computed, and its reciprocal, of both signs.
proof fn lemma_inverse<F: Fn(Operation) -> u32>(fpu: F, m: [[u32; 2]; 2])
    requires
        accurate(fpu),
        moderate_matrix(m),
        1000000 * (one() * one()) <= size(determinant(m)),
    ensures
        ({
            let det = difference_of_products(fpu, m@[0]@[0], m@[1]@[1], m@[0]@[1], m@[1]@[0]);
            let d = quotient(fpu, ONE, det);
            let (k2, n) = (one() * one(), negated(d));
            &&& finite(det) && one() <= size(scaled(det)) <= 210000000 * one()
            &&& INTEGERS * size(scaled(det) * one() - determinant(m)) <= 500000000 * k2
            &&& finite(d) && size(scaled(d)) <= 2 * one()
            &&& finite(n) && size(scaled(n)) <= 2 * one()
            &&& 1000 * (INTEGERS * size(scaled(d) * scaled(det) - 1 * k2)) <= 1001 * k2
            &&& 1000 * (INTEGERS * size(scaled(n) * scaled(det) - (-1) * k2)) <= 1001 * k2
            &&& inverted(fpu, m)@[0]@[0] == product(fpu, d, m@[1]@[1])
            &&& inverted(fpu, m)@[0]@[1] == product(fpu, n, m@[0]@[1])
            &&& inverted(fpu, m)@[1]@[0] == product(fpu, n, m@[1]@[0])
            &&& inverted(fpu, m)@[1]@[1] == product(fpu, d, m@[0]@[0])
        }),
{
    let det = difference_of_products(fpu, m@[0]@[0], m@[1]@[1], m@[0]@[1], m@[1]@[0]);
    let (k, x) = (one(), scaled(det));
    lemma_one_is_large();
    lemma_determinant(fpu, m@[0]@[0], m@[1]@[1], m@[0]@[1], m@[1]@[0]);
    assert(0 < k * k) by (nonlinear_arith)
        requires
            0 < k,
    ;
    assert(size(x * k) >= k * k);
    assert(size(x) >= k) by (nonlinear_arith)
        requires
            size(x * k) >= k * k,
            k > 0,
    ;
    lemma_regular(det);
    lemma_reciprocal(fpu, det);
    let d = quotient(fpu, ONE, det);
    negation_undoes_itself(d);
    let y = scaled(d);
    assert((-y) * x == -(y * x)) by (nonlinear_arith);
    assert((-1) * (k * k) == -(k * k) && 1 * (k * k) == k * k);
}

/// The matrix from motors to joints, times the determinant of the joint gains.
#[verifier::spinoff_prover]
#[verifier::rlimit(60)]
proof fn lemma_motor2joint<F: Fn(Operation) -> u32>(fpu: F, t: [[u32; 2]; 2], v: [[u32; 2]; 2])
    requires
        accurate(fpu),
        moderate_matrix(t),
        moderate_matrix(v),
        v@[0]@[1] == 0 && v@[1]@[0] == 0,
        1000000 * (one() * one()) <= size(determinant(t)),
    ensures
        ({
            let j = matrix_product(fpu, inverted(fpu, t), v);
            let det = scaled(
                difference_of_products(fpu, t@[0]@[0], t@[1]@[1], t@[0]@[1], t@[1]@[0]),
            );
            let (a, b) = (scaled(v@[0]@[0]), scaled(v@[1]@[1]));
            let k2 = one() * one();
            &&& INTEGERS * size(scaled(j@[0]@[0]) * det - 1 * (scaled(t@[1]@[1]) * a)) <= 520000000
                * k2
            &&& INTEGERS * size(scaled(j@[0]@[1]) * det - (-1) * (scaled(t@[0]@[1]) * b))
                <= 520000000 * k2
            &&& INTEGERS * size(scaled(j@[1]@[0]) * det - (-1) * (scaled(t@[1]@[0]) * a))
                <= 520000000 * k2
            &&& INTEGERS * size(scaled(j@[1]@[1]) * det - 1 * (scaled(t@[0]@[0]) * b)) <= 520000000
                * k2
        }),
{
    let det = difference_of_products(fpu, t@[0]@[0], t@[1]@[1], t@[0]@[1], t@[1]@[0]);
    let d = quotient(fpu, ONE, det);
    let (x, n) = (scaled(det), negated(d));
    let i = inverted(fpu, t);
    let (a, b) = (v@[0]@[0], v@[1]@[1]);
    lemma_inverse(fpu, t);
    lemma_inverse_entry(fpu, d, x, 1, t@[1]@[1]);
    lemma_inverse_entry(fpu, n, x, -1, t@[0]@[1]);
    lemma_inverse_entry(fpu, n, x, -1, t@[1]@[0]);
    lemma_inverse_entry(fpu, d, x, 1, t@[0]@[0]);
    lemma_inverse_times(fpu, i@[0]@[0], x, 1, scaled(t@[1]@[1]), a);
    lemma_inverse_times(fpu, i@[0]@[1], x, -1, scaled(t@[0]@[1]), b);
    lemma_inverse_times(fpu, i@[1]@[0], x, -1, scaled(t@[1]@[0]), a);
    lemma_inverse_times(fpu, i@[1]@[1], x, 1, scaled(t@[0]@[0]), b);
    lemma_times_zero(fpu, i@[0]@[0]);
    lemma_times_zero(fpu, i@[0]@[1]);
    lemma_times_zero(fpu, i@[1]@[0]);
    lemma_times_zero(fpu, i@[1]@[1]);
    lemma_moderate_size(t@[1]@[1], a);
    lemma_moderate_size(t@[0]@[1], b);
    lemma_moderate_size(t@[1]@[0], a);
    lemma_moderate_size(t@[0]@[0], b);
    lemma_entry(
        fpu,
        product(fpu, i@[0]@[0], a),
        product(fpu, i@[0]@[1], 0),
        x,
        1 * (scaled(t@[1]@[1]) * scaled(a)),
    );
    lemma_entry(
        fpu,
        product(fpu, i@[0]@[1], b),
        product(fpu, i@[0]@[0], 0),
        x,
        (-1) * (scaled(t@[0]@[1]) * scaled(b)),
    );
    lemma_entry(
        fpu,
        product(fpu, i@[1]@[0], a),
        product(fpu, i@[1]@[1], 0),
        x,
        (-1) * (scaled(t@[1]@[0]) * scaled(a)),
    );
    lemma_entry(
        fpu,
        product(fpu, i@[1]@[1], b),
        product(fpu, i@[1]@[0], 0),
        x,
        1 * (scaled(t@[0]@[0]) * scaled(b)),
    );
    lemma_matrix_product(fpu, i, v);
}

/// The product of two moderate numbers, exactly.
proof fn lemma_moderate_size(a: u32, b: u32)
    requires
        moderate(a),
        moderate(b),
    ensures
        size(1 * (scaled(a) * scaled(b))) <= 100000000 * (one() * one()),
        size((-1) * (scaled(a) * scaled(b))) <= 100000000 * (one() * one()),
{
    let k = one();
    lemma_size_of_product(scaled(a), scaled(b), 10000 * k, 10000 * k);
    assert((10000 * k) * (10000 * k) == 100000000 * (k * k)) by (nonlinear_arith);
}

/// The entries of a matrix product, term by term.
proof fn lemma_matrix_product<F: Fn(Operation) -> u32>(fpu: F, a: [[u32; 2]; 2], b: [[u32; 2]; 2])
    ensures
        forall|r: int, c: int|
            0 <= r < 2 && 0 <= c < 2 ==> #[trigger] matrix_product(fpu, a, b)@[r]@[c] == sum(
                fpu,
                sum(fpu, 0, product(fpu, a@[r]@[0], b@[0]@[c])),
                product(fpu, a@[r]@[1], b@[1]@[c]),
            ),
{
    reveal_with_fuel(inner_product, 3);
    assert forall|r: int, c: int| 0 <= r < 2 && 0 <= c < 2 implies #[trigger] matrix_product(
        fpu,
        a,
        b,
    )@[r]@[c] == sum(
        fpu,
        sum(fpu, 0, product(fpu, a@[r]@[0], b@[0]@[c])),
        product(fpu, a@[r]@[1], b@[1]@[c]),
    ) by {
        assert(r == 0 || r == 1);
        assert(c == 0 || c == 1);
    }
}

/// The matrix from joints to motors, times the motor gains.
#[verifier::spinoff_prover]
#[verifier::rlimit(60)]
pub proof fn lemma_joint2motor<F: Fn(Operation) -> u32>(fpu: F, t: [[u32; 2]; 2], v: [[u32; 2]; 2])
    requires
        accurate(fpu),
        moderate_matrix(t),
        sizable(v@[0]@[0]) && sizable(v@[1]@[1]),
        v@[0]@[1] == 0 && v@[1]@[0] == 0,
    ensures
        ({
            let m = matrix_product(fpu, inverted(fpu, v), t);
            let (a, b) = (scaled(v@[0]@[0]), scaled(v@[1]@[1]));
            let (k, k2) = (one(), one() * one());
            &&& size(scaled(m@[0]@[0]) * a - scaled(t@[0]@[0]) * k) <= 4 * k2
            &&& size(scaled(m@[0]@[1]) * a - scaled(t@[0]@[1]) * k) <= 4 * k2
            &&& size(scaled(m@[1]@[0]) * b - scaled(t@[1]@[0]) * k) <= 4 * k2
            &&& size(scaled(m@[1]@[1]) * b - scaled(t@[1]@[1]) * k) <= 4 * k2
        }),
{
    let (k, a, b) = (one(), v@[0]@[0], v@[1]@[1]);
    let (x, y) = (scaled(a), scaled(b));
    lemma_one_is_large();
    lemma_unit();
    assert(moderate(0));
    lemma_size_of_product(x, y, size(x), size(y));
    assert(size(x) * size(y) >= 1000000 * (k * k)) by (nonlinear_arith)
        requires
            1000 * k <= size(x),
            1000 * k <= size(y),
            k > 0,
    ;
    assert(determinant(v) == x * y);
    lemma_inverse(fpu, v);
    let det = difference_of_products(fpu, a, b, 0, 0);
    let d = quotient(fpu, ONE, det);
    let (e, n) = (scaled(det), negated(d));
    let i = inverted(fpu, v);
    let m = matrix_product(fpu, i, t);
    lemma_inverse_entry(fpu, d, e, 1, b);
    lemma_inverse_entry(fpu, d, e, 1, a);
    lemma_times_zero(fpu, n);
    lemma_matrix_product(fpu, i, t);
    assert(y * x == x * y) by (nonlinear_arith);
    lemma_joint2motor_entry(fpu, i@[0]@[0], n, e, a, b, t@[0]@[0], t@[1]@[0]);
    lemma_joint2motor_entry(fpu, i@[0]@[0], n, e, a, b, t@[0]@[1], t@[1]@[1]);
    lemma_joint2motor_entry(fpu, i@[1]@[1], n, e, b, a, t@[1]@[0], t@[0]@[0]);
    lemma_joint2motor_entry(fpu, i@[1]@[1], n, e, b, a, t@[1]@[1], t@[0]@[1]);
}

proof fn lemma_joint2motor_entry<F: Fn(Operation) -> u32>(
    fpu: F,
    i: u32,
    n: u32,
    det: int,
    a: u32,
    b: u32,
    t: u32,
    other: u32,
)
    requires
        accurate(fpu),
        sizable(a) && sizable(b) && moderate(t) && moderate(other),
        finite(i) && finite(n),
        size(scaled(i)) <= 100100000 * one(),
        size(det) <= 210000000 * one(),
        INTEGERS * size(scaled(i) * det - 1 * (one() * scaled(b))) <= 30000 * (one() * one()),
        INTEGERS * size(det * one() - scaled(a) * scaled(b)) <= 500000000 * (one() * one()),
    ensures
        ({
            let z = product(fpu, product(fpu, n, 0), other);
            let p = product(fpu, i, t);
            let (f, g) = (sum(fpu, sum(fpu, 0, p), z), sum(fpu, sum(fpu, 0, z), p));
            &&& size(scaled(f) * scaled(a) - scaled(t) * one()) <= 4 * (one() * one())
            &&& size(scaled(g) * scaled(a) - scaled(t) * one()) <= 4 * (one() * one())
        }),
{
    let z = product(fpu, product(fpu, n, 0), other);
    let p = product(fpu, i, t);
    lemma_inverse_times(fpu, i, det, 1, scaled(b), t);
    lemma_times_zero(fpu, n);
    lemma_times_nothing(fpu, product(fpu, n, 0), other);
    lemma_moderate_size(b, t);
    lemma_entry(fpu, p, z, det, 1 * (scaled(b) * scaled(t)));
    let (f, g) = (sum(fpu, sum(fpu, 0, p), z), sum(fpu, sum(fpu, 0, z), p));
    lemma_divided(scaled(f), det, scaled(a), scaled(b), scaled(t));
    lemma_divided(scaled(g), det, scaled(a), scaled(b), scaled(t));
}

/// The two Jacobians undo each other: their product is the identity, each entry
/// within a hundredth. The gains are those of a pose in reach: at most 10000 in
/// absolute value, those of the motors at least 1000, with a determinant of those
/// of the joints of at least 10000000. In the zero pose they are 7623 at most, 2200
/// at least, and 33000000.
#[verifier::spinoff_prover]
#[verifier::rlimit(60)]
pub proof fn jacobians_undo_each_other<F: Fn(Operation) -> u32>(fpu: F, ik: IkResultAtom01, pitch: u32, r: int, c: int)
    requires
        accurate(fpu),
        moderate_matrix(joint_gains(fpu, ik, pitch)),
        10000000 * (one() * one()) <= size(determinant(joint_gains(fpu, ik, pitch))),
        sizable(motor_gains(fpu, ik)@[0]@[0]),
        sizable(motor_gains(fpu, ik)@[1]@[1]),
        0 <= r < 2,
        0 <= c < 2,
    ensures
        ({
            let j = jacobian_at(fpu, ik, pitch);
            let identity: int = if r == c {
                one() * one()
            } else {
                0
            };
            100 * size(exact_entry(j.j_motor2joint, j.j_joint2motor, r, c) - identity) <= one()
                * one()
        }),
{
    let (t, v) = (joint_gains(fpu, ik, pitch), motor_gains(fpu, ik));
    let (k, k2) = (one(), one() * one());
    lemma_one_is_large();
    lemma_unit();
    assert(v@[0]@[1] == 0 && v@[1]@[0] == 0);
    assert(moderate(0));
    assert(0 < k2) by (nonlinear_arith)
        requires
            k2 == k * k,
            k > 0,
    ;
    lemma_motor2joint(fpu, t, v);
    lemma_joint2motor(fpu, t, v);
    lemma_inverse(fpu, t);
    let det = scaled(difference_of_products(fpu, t@[0]@[0], t@[1]@[1], t@[0]@[1], t@[1]@[0]));
    let j = matrix_product(fpu, inverted(fpu, t), v);
    let m = matrix_product(fpu, inverted(fpu, v), t);
    let (a, b) = (scaled(v@[0]@[0]), scaled(v@[1]@[1]));
    let (t00, t01) = (scaled(t@[0]@[0]), scaled(t@[0]@[1]));
    let (t10, t11) = (scaled(t@[1]@[0]), scaled(t@[1]@[1]));
    let (m0c, m1c) = (scaled(m@[0]@[c]), scaled(m@[1]@[c]));
    let (t0c, t1c) = (scaled(t@[0]@[c]), scaled(t@[1]@[c]));
    assert(c == 0 || c == 1);
    assert(t11 * t00 == t00 * t11 && t10 * t01 == t01 * t10 && t11 * t01 == t01 * t11 && t10 * t00
        == t00 * t10) by (nonlinear_arith);
    let exact = determinant(t);
    if r == 0 {
        let (j0, j1) = (scaled(j@[0]@[0]), scaled(j@[0]@[1]));
        lemma_term(j0, m0c, det, a, 1, t11, t0c);
        lemma_term(j1, m1c, det, b, -1, t01, t1c);
        lemma_place(
            j0 * m0c,
            j1 * m1c,
            det,
            exact,
            1 * (t11 * t0c),
            (-1) * (t01 * t1c),
            if c == 0 {
                1
            } else {
                0
            },
        );
    } else {
        let (j0, j1) = (scaled(j@[1]@[0]), scaled(j@[1]@[1]));
        lemma_term(j0, m0c, det, a, -1, t10, t0c);
        lemma_term(j1, m1c, det, b, 1, t00, t1c);
        lemma_place(
            j0 * m0c,
            j1 * m1c,
            det,
            exact,
            (-1) * (t10 * t0c),
            1 * (t00 * t1c),
            if c == 1 {
                1
            } else {
                0
            },
        );
    }
}

} // verus!
