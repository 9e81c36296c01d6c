//! What the solver's result stands for.
use crate::ankle::accuracy::lemma_unit;
use crate::ankle::rods::lemma_bounded;
use crate::ankle::{
    diverges, finite_matrix, gave_up, jacobian_at, linkage_pose, newton_step, solution, stopped_at, unusable,
    within_tolerance, FkResult, LinkParamsAtom01, JOINT_LIMIT, MAX_ITER, TOLERANCE,
};
use crate::arithmetic::{
    accurate, difference, lemma_difference_error, lemma_one_is_large, lemma_product_error, lemma_sum_error,
    product, reach, size, sum, sum_of_products, Operation, INTEGERS,
};
use crate::binary32::{absolute, below, finite, lemma_absolute, lemma_between_finite, one, scaled};
use vstd::arithmetic::power2::{lemma2_to64, lemma_pow2_adds, pow2};
use vstd::prelude::*;

verus! {

/// A number up to 1000, either way.
pub open spec fn tame(x: u32) -> bool {
    finite(x) && size(scaled(x)) <= 1000 * one()
}

/// `r` is the joint angle `p`, corrected by `a` times `d` and `b` times `e`, up to
/// rounding: the corrections within ten parts in 2^24, the angle within two.
pub open spec fn is_corrected(r: u32, p: u32, a: u32, d: int, b: u32, e: int) -> bool {
    let (x, y) = (scaled(a) * d, scaled(b) * e);
    &&& finite(r)
    &&& INTEGERS * size((scaled(r) - scaled(p)) * one() - (x + y)) <= 10 * (size(x) + size(y)) + 2 * (size(
        scaled(r),
    ) * one()) + one() * one()
}

/// A difference that is a number is one of two numbers and off by at most one part in
/// 2^24, as with every unit that rounds to nearest.
pub open spec fn differences_are_honest<F: Fn(Operation) -> u32>(fpu: F) -> bool {
    forall|a: u32, b: u32|
        finite(#[trigger] difference(fpu, a, b)) ==> finite(a) && finite(b) && INTEGERS * size(
            scaled(difference(fpu, a, b)) - (scaled(a) - scaled(b)),
        ) <= size(scaled(a) - scaled(b))
}

/// No entry of a matrix is larger than `n`, either way.
pub open spec fn entries_within(m: [[u32; 2]; 2], n: int) -> bool {
    &&& finite(m@[0]@[0]) && size(scaled(m@[0]@[0])) <= n * one()
    &&& finite(m@[0]@[1]) && size(scaled(m@[0]@[1])) <= n * one()
    &&& finite(m@[1]@[0]) && size(scaled(m@[1]@[0])) <= n * one()
    &&& finite(m@[1]@[1]) && size(scaled(m@[1]@[1])) <= n * one()
}

/// The result was found at the joint angles `p` and `q`. Inverse kinematics gives there
/// motor angles that are less than 0.00101 off those that were asked for, and a
/// Jacobian, which is the one of the result. The result's pitch and roll are `p` and
/// `q`, corrected by the Jacobian times what the motor angles are off. While no entry of
/// the Jacobian is larger than 4, that moves them by less than 0.009.
#[verifier::opaque]
pub open spec fn found_at<F: Fn(Operation) -> u32>(
    fpu: F,
    links: [LinkParamsAtom01; 2],
    motor_angles: [u32; 2],
    p: u32,
    q: u32,
    r: FkResult,
) -> bool {
    let ik = linkage_pose(fpu, links, p, q);
    let j = r.jacobian;
    let d = scaled(motor_angles@[0]) - scaled(ik.theta@[0]);
    let e = scaled(motor_angles@[1]) - scaled(ik.theta@[1]);
    &&& finite(p) && size(scaled(p)) <= 200 * one()
    &&& finite(q) && size(scaled(q)) <= 200 * one()
    &&& j == jacobian_at(fpu, ik, p).j_motor2joint
    &&& finite(ik.theta@[0]) && 100000 * size(d) <= 101 * one()
    &&& finite(ik.theta@[1]) && 100000 * size(e) <= 101 * one()
    &&& is_corrected(r.pitch, p, j@[0]@[0], d, j@[0]@[1], e)
    &&& is_corrected(r.roll, q, j@[1]@[0], d, j@[1]@[1], e)
    &&& entries_within(j, 4) ==> {
        &&& 1000 * size(scaled(r.pitch) - scaled(p)) <= 9 * one()
        &&& 1000 * size(scaled(r.roll) - scaled(q)) <= 9 * one()
    }
}

/// The tolerance, a thousandth, and the limit of a change, 1.5.
proof fn lemma_limits()
    ensures
        finite(TOLERANCE) && finite(JOINT_LIMIT),
        99990 * one() <= 100000000 * scaled(TOLERANCE) <= 100010 * one(),
        2 * scaled(JOINT_LIMIT) == 3 * one(),
{
    lemma2_to64();
    lemma_pow2_adds(32, 1);
    assert(pow2(33) == 0x2_0000_0000);
    lemma_pow2_adds(116, 33);
    lemma_pow2_adds(126, 23);
    assert(one() == 0x2_0000_0000 * pow2(116));
    assert(scaled(TOLERANCE) == 0x83_126F * pow2(116));
    assert(scaled(JOINT_LIMIT) == 0xC0_0000 * pow2(126));
}

/// A motor angle that is off by less than the tolerance.
proof fn lemma_offset<F: Fn(Operation) -> u32>(fpu: F, m: u32, t: u32)
    requires
        differences_are_honest(fpu),
        below(absolute(difference(fpu, m, t)), TOLERANCE),
    ensures
        ({
            let (e, d) = (scaled(difference(fpu, m, t)), scaled(m) - scaled(t));
            &&& finite(difference(fpu, m, t)) && finite(t)
            &&& INTEGERS * size(e - d) <= size(d)
            &&& 100000 * size(d) <= 101 * one()
        }),
{
    lemma_one_is_large();
    lemma_limits();
    lemma_absolute(difference(fpu, m, t));
    lemma_between_finite(0, absolute(difference(fpu, m, t)), TOLERANCE);
}

/// The product of an entry of the Jacobian and what a motor angle is off.
proof fn lemma_correction<F: Fn(Operation) -> u32>(fpu: F, a: u32, b: u32, d: int)
    requires
        accurate(fpu),
        tame(a),
        finite(b),
        INTEGERS * size(scaled(b) - d) <= size(d),
        100000 * size(d) <= 101 * one(),
    ensures
        ({
            let (p, x) = (product(fpu, a, b), scaled(a) * d);
            &&& finite(p)
            &&& INTEGERS * size(scaled(p) * one() - x) <= 3 * size(x) + INTEGERS * one()
            &&& size(x) <= 2 * (one() * one())
            &&& size(scaled(p)) <= 3 * one()
        }),
{
    let (k, u, v) = (one(), scaled(a), scaled(b));
    let p2 = k * k;
    lemma_one_is_large();
    let x = u * d;
    let f = v - d;
    assert(size(x) == size(u) * size(d)) by (nonlinear_arith)
        requires
            x == u * d,
    ;
    assert(u * v == x + u * f) by (nonlinear_arith)
        requires
            x == u * d,
            f == v - d,
    ;
    assert(INTEGERS * size(u * f) <= size(x)) by {
        assert(size(u * f) == size(u) * size(f)) by (nonlinear_arith);
        assert(INTEGERS * (size(u) * size(f)) <= size(u) * size(d)) by (nonlinear_arith)
            requires
                INTEGERS * size(f) <= size(d),
                0 <= size(u),
        ;
    }
    assert(100000 * size(x) <= 101000 * p2) by {
        lemma_bounded(u, 100000 * d, 1000, 101, k, k);
        assert(u * (100000 * d) == 100000 * (u * d)) by (nonlinear_arith);
    }
    assert(2 * p2 <= reach() * k && INTEGERS * k <= p2) by (nonlinear_arith)
        requires
            reach() == 0x1_0000_0000_0000_0000 * k,
            p2 == k * k,
            k >= 0x1_0000_0000_0000_0000,
    ;
    lemma_product_error(fpu, a, b);
    let p = scaled(product(fpu, a, b));
    assert(size(p) <= 3 * k) by (nonlinear_arith)
        requires
            size(p * k) <= 3 * p2,
            p2 == k * k,
            0 < k,
    ;
}

/// A joint angle and its corrections.
proof fn lemma_corrected<F: Fn(Operation) -> u32>(
    fpu: F,
    p: u32,
    a: u32,
    b: u32,
    c: u32,
    f: u32,
    d: int,
    e: int,
)
    requires
        accurate(fpu),
        finite(p),
        size(scaled(p)) <= 200 * one(),
        tame(a) && tame(c),
        finite(b) && finite(f),
        INTEGERS * size(scaled(b) - d) <= size(d),
        100000 * size(d) <= 101 * one(),
        INTEGERS * size(scaled(f) - e) <= size(e),
        100000 * size(e) <= 101 * one(),
    ensures
        is_corrected(sum(fpu, p, sum_of_products(fpu, a, b, c, f)), p, a, d, c, e),
{
    let k = one();
    let p2 = k * k;
    lemma_one_is_large();
    lemma_correction(fpu, a, b, d);
    lemma_correction(fpu, c, f, e);
    let (x, y) = (scaled(a) * d, scaled(c) * e);
    let (g, h) = (product(fpu, a, b), product(fpu, c, f));
    lemma_sum_error(fpu, g, h);
    let u = sum(fpu, g, h);
    lemma_sum_error(fpu, p, u);
    let r = sum(fpu, p, u);
    lemma_corrections(k, scaled(p), x, y, scaled(g), scaled(h), scaled(u), scaled(r));
}

/// The roundings of a correction.
proof fn lemma_corrections(k: int, p: int, x: int, y: int, g: int, h: int, u: int, r: int)
    requires
        k >= 0x1_0000_0000_0000_0000,
        INTEGERS * size(g * k - x) <= 3 * size(x) + INTEGERS * k,
        INTEGERS * size(h * k - y) <= 3 * size(y) + INTEGERS * k,
        INTEGERS * size(u - (g + h)) <= size(g + h),
        INTEGERS * size(r - (p + u)) <= size(p + u),
    ensures
        INTEGERS * size((r - p) * k - (x + y)) <= 10 * (size(x) + size(y)) + 2 * (size(r) * k) + k * k,
{
    let p2 = k * k;
    assert(1000 * (INTEGERS * k) <= p2) by (nonlinear_arith)
        requires
            p2 == k * k,
            k >= 0x1_0000_0000_0000_0000,
    ;
    let (e, f) = (u - (g + h), r - (p + u));
    assert(size(f) <= size(r));
    assert(INTEGERS * size(f) <= 2 * size(r));
    assert(INTEGERS * size(f * k) <= 2 * (size(r) * k)) by {
        assert(size(f * k) == size(f) * k) by (nonlinear_arith)
            requires
                0 < k,
        ;
        assert(INTEGERS * (size(f) * k) <= 2 * (size(r) * k)) by (nonlinear_arith)
            requires
                INTEGERS * size(f) <= 2 * size(r),
                0 < k,
        ;
    }
    let s = g + h;
    assert(s * k == g * k + h * k) by (nonlinear_arith)
        requires
            s == g + h,
    ;
    assert(size(s * k) == size(s) * k && size(e * k) == size(e) * k) by (nonlinear_arith)
        requires
            0 < k,
    ;
    assert(INTEGERS * (size(e) * k) <= size(s) * k) by (nonlinear_arith)
        requires
            INTEGERS * size(e) <= size(s),
            0 < k,
    ;
    assert(size(s * k) <= 2 * (size(x) + size(y)) + 2 * k);
    assert((r - p) * k - (x + y) == f * k + e * k + (g * k - x) + (h * k - y)) by (nonlinear_arith)
        requires
            e == u - (g + h),
            f == r - (p + u),
    ;
}

/// A correction by small entries of the Jacobian is small.
proof fn lemma_small_correction(k: int, p: int, r: int, a: int, d: int, b: int, e: int)
    requires
        0 < k,
        size(p) <= 200 * k,
        size(a) <= 4 * k,
        size(b) <= 4 * k,
        100000 * size(d) <= 101 * k,
        100000 * size(e) <= 101 * k,
        INTEGERS * size((r - p) * k - (a * d + b * e)) <= 10 * (size(a * d) + size(b * e)) + 2 * (size(r)
            * k) + k * k,
    ensures
        1000 * size(r - p) <= 9 * k,
{
    let (p2, m) = (k * k, r - p);
    lemma_bounded(a, 100000 * d, 4, 101, k, k);
    lemma_bounded(b, 100000 * e, 4, 101, k, k);
    assert(a * (100000 * d) == 100000 * (a * d) && b * (100000 * e) == 100000 * (b * e))
        by (nonlinear_arith);
    assert(size(m * k) == size(m) * k) by (nonlinear_arith)
        requires
            0 < k,
    ;
    assert(size(r) * k <= size(m) * k + 200 * p2) by (nonlinear_arith)
        requires
            size(r) <= size(m) + 200 * k,
            p2 == k * k,
            0 < k,
    ;
    assert(1000 * (size(m) * k) <= 9 * p2);
    assert(1000 * size(m) <= 9 * k) by (nonlinear_arith)
        requires
            1000 * (size(m) * k) <= 9 * p2,
            p2 == k * k,
            0 < k,
    ;
}

/// An evaluation that is within the tolerance.
#[verifier::spinoff_prover]
#[verifier::rlimit(60)]
proof fn lemma_stop<F: Fn(Operation) -> u32>(
    fpu: F,
    links: [LinkParamsAtom01; 2],
    motor_angles: [u32; 2],
    pitch: u32,
    roll: u32,
    n: int,
)
    requires
        accurate(fpu),
        differences_are_honest(fpu),
        tame(motor_angles@[0]) && tame(motor_angles@[1]),
        finite(pitch) && size(scaled(pitch)) <= 200 * one(),
        finite(roll) && size(scaled(roll)) <= 200 * one(),
        within_tolerance(newton_step(fpu, links, motor_angles, pitch, roll).error),
        entries_within(newton_step(fpu, links, motor_angles, pitch, roll).jacobian, 1000),
    ensures
        found_at(
            fpu,
            links,
            motor_angles,
            pitch,
            roll,
            stopped_at(newton_step(fpu, links, motor_angles, pitch, roll), n),
        ),
{
    reveal(found_at);
    let step = newton_step(fpu, links, motor_angles, pitch, roll);
    let ik = linkage_pose(fpu, links, pitch, roll);
    let j = jacobian_at(fpu, ik, pitch).j_motor2joint;
    let (m0, m1, t0, t1) = (motor_angles@[0], motor_angles@[1], ik.theta@[0], ik.theta@[1]);
    let (b, f) = (step.error@[0], step.error@[1]);
    assert(below(absolute(b), TOLERANCE) && below(absolute(f), TOLERANCE));
    assert(b == difference(fpu, m0, t0) && f == difference(fpu, m1, t1));
    lemma_offset(fpu, m0, t0);
    lemma_offset(fpu, m1, t1);
    let (d, e) = (scaled(m0) - scaled(t0), scaled(m1) - scaled(t1));
    lemma_corrected(fpu, pitch, j@[0]@[0], b, j@[0]@[1], f, d, e);
    lemma_corrected(fpu, roll, j@[1]@[0], b, j@[1]@[1], f, d, e);
    lemma_one_is_large();
    if entries_within(j, 4) {
        let (u, v) = (scaled(step.pose@[0]), scaled(step.pose@[1]));
        lemma_small_correction(one(), scaled(pitch), u, scaled(j@[0]@[0]), d, scaled(j@[0]@[1]), e);
        lemma_small_correction(one(), scaled(roll), v, scaled(j@[1]@[0]), d, scaled(j@[1]@[1]), e);
    }
}

/// A joint angle after a change within the limit.
proof fn lemma_change<F: Fn(Operation) -> u32>(fpu: F, p: u32, u: u32, n: int)
    requires
        accurate(fpu),
        finite(p) && finite(u),
        0 <= n <= 198,
        size(scaled(p)) <= n * one(),
        !below(JOINT_LIMIT, absolute(u)),
    ensures
        finite(sum(fpu, p, u)),
        size(scaled(sum(fpu, p, u))) <= (n + 2) * one(),
{
    let k = one();
    lemma_one_is_large();
    lemma_limits();
    lemma_absolute(u);
    assert(0 <= n * k <= 198 * k && (n + 2) * k == n * k + 2 * k) by (nonlinear_arith)
        requires
            0 <= n <= 198,
            0 < k,
    ;
    lemma_sum_error(fpu, p, u);
}

/// The joint angles after a usable evaluation.
#[verifier::spinoff_prover]
#[verifier::rlimit(60)]
proof fn lemma_next<F: Fn(Operation) -> u32>(
    fpu: F,
    links: [LinkParamsAtom01; 2],
    motor_angles: [u32; 2],
    pitch: u32,
    roll: u32,
    iterations: int,
)
    requires
        accurate(fpu),
        0 <= iterations < MAX_ITER,
        finite(pitch) && size(scaled(pitch)) <= (2 * iterations) * one(),
        finite(roll) && size(scaled(roll)) <= (2 * iterations) * one(),
        !unusable(newton_step(fpu, links, motor_angles, pitch, roll)),
    ensures
        ({
            let pose = newton_step(fpu, links, motor_angles, pitch, roll).pose;
            &&& finite(pose@[0]) && size(scaled(pose@[0])) <= (2 * (iterations + 1)) * one()
            &&& finite(pose@[1]) && size(scaled(pose@[1])) <= (2 * (iterations + 1)) * one()
        }),
{
    let update = newton_step(fpu, links, motor_angles, pitch, roll).update;
    assert(finite(update@[0]) && !below(JOINT_LIMIT, absolute(update@[0])));
    assert(finite(update@[1]) && !below(JOINT_LIMIT, absolute(update@[1])));
    lemma_change(fpu, pitch, update@[0], 2 * iterations);
    lemma_change(fpu, roll, update@[1], 2 * iterations);
}

/// Where the result of the iteration was found.
#[verifier::spinoff_prover]
#[verifier::rlimit(40)]
proof fn lemma_found<F: Fn(Operation) -> u32>(
    fpu: F,
    links: [LinkParamsAtom01; 2],
    motor_angles: [u32; 2],
    pitch: u32,
    roll: u32,
    iterations: int,
)
    requires
        accurate(fpu),
        differences_are_honest(fpu),
        tame(motor_angles@[0]) && tame(motor_angles@[1]),
        0 <= iterations < MAX_ITER,
        finite(pitch) && size(scaled(pitch)) <= (2 * iterations) * one(),
        finite(roll) && size(scaled(roll)) <= (2 * iterations) * one(),
    ensures
        ({
            let r = solution(fpu, links, motor_angles, pitch, roll, iterations);
            r.converged && entries_within(r.jacobian, 1000) ==> exists|p: u32, q: u32| #[trigger]
                found_at(fpu, links, motor_angles, p, q, r)
        }),
    decreases MAX_ITER - iterations,
{
    let step = newton_step(fpu, links, motor_angles, pitch, roll);
    let r = solution(fpu, links, motor_angles, pitch, roll, iterations);
    if unusable(step) {
        assert(!r.converged);
    } else if within_tolerance(step.error) {
        let (k, n) = (one(), 2 * iterations);
        lemma_one_is_large();
        assert(n * k <= 200 * k) by (nonlinear_arith)
            requires
                n <= 198,
                0 < k,
        ;
        assert(r == stopped_at(step, iterations + 1));
        if entries_within(r.jacobian, 1000) {
            lemma_stop(fpu, links, motor_angles, pitch, roll, iterations + 1);
            assert(found_at(fpu, links, motor_angles, pitch, roll, r));
        }
    } else if iterations + 1 < MAX_ITER {
        lemma_next(fpu, links, motor_angles, pitch, roll, iterations);
        lemma_found(fpu, links, motor_angles, step.pose@[0], step.pose@[1], iterations + 1);
        assert(r == solution(fpu, links, motor_angles, step.pose@[0], step.pose@[1], iterations + 1));
    } else {
        assert(r == stopped_at(step, iterations + 1));
        assert(!r.converged);
    }
}

/// What forward kinematics answers. It takes at most a hundred evaluations. When it
/// converges, some pose has nearly the motor angles that were asked for, and the answer
/// is that pose with one Newton correction. When it gives up before, the answer is the
/// zero pose and the identity.
#[verifier::spinoff_prover]
#[verifier::rlimit(60)]
pub proof fn answers_are_corrected_poses<F: Fn(Operation) -> u32>(
    fpu: F,
    links: [LinkParamsAtom01; 2],
    motor_angles: [u32; 2],
)
    requires
        accurate(fpu),
        differences_are_honest(fpu),
        tame(motor_angles@[0]) && tame(motor_angles@[1]),
    ensures
        ({
            let r = solution(fpu, links, motor_angles, 0, 0, 0);
            &&& r.iterations <= 100
            &&& r.converged ==> 1 <= r.iterations
            &&& r.converged && entries_within(r.jacobian, 1000) ==> exists|p: u32, q: u32| #[trigger]
                found_at(fpu, links, motor_angles, p, q, r)
            &&& !r.converged && r.iterations < 100 ==> {
                &&& r.pitch == 0 && r.roll == 0
                &&& r.jacobian@[0]@ == seq![0x3F80_0000u32, 0u32]
                &&& r.jacobian@[1]@ == seq![0u32, 0x3F80_0000u32]
            }
        }),
{
    lemma_unit();
    lemma_found(fpu, links, motor_angles, 0, 0, 0);
    lemma_count(fpu, links, motor_angles, 0, 0, 0);
    let r = solution(fpu, links, motor_angles, 0, 0, 0);
    if !r.converged && r.iterations < 100 {
        assert(r.jacobian@[0]@ =~= seq![0x3F80_0000u32, 0u32]);
        assert(r.jacobian@[1]@ =~= seq![0u32, 0x3F80_0000u32]);
    }
}

/// Motor angles that are less than 0.00099 off those of the zero pose are solved by the
/// first evaluation, while no entry of the Jacobian there is larger than 700.
#[verifier::spinoff_prover]
#[verifier::rlimit(60)]
pub proof fn rest_is_found_at_once<F: Fn(Operation) -> u32>(
    fpu: F,
    links: [LinkParamsAtom01; 2],
    motor_angles: [u32; 2],
)
    requires
        accurate(fpu),
        ({
            let ik = linkage_pose(fpu, links, 0, 0);
            &&& tame(ik.theta@[0]) && tame(ik.theta@[1])
            &&& entries_within(jacobian_at(fpu, ik, 0).j_motor2joint, 700)
            &&& finite(motor_angles@[0]) && 100000 * size(
                scaled(motor_angles@[0]) - scaled(ik.theta@[0]),
            ) <= 99 * one()
            &&& finite(motor_angles@[1]) && 100000 * size(
                scaled(motor_angles@[1]) - scaled(ik.theta@[1]),
            ) <= 99 * one()
        }),
    ensures
        ({
            let r = solution(fpu, links, motor_angles, 0, 0, 0);
            r.converged && r.iterations == 1
        }),
{
    let ik = linkage_pose(fpu, links, 0, 0);
    let j = jacobian_at(fpu, ik, 0).j_motor2joint;
    let step = newton_step(fpu, links, motor_angles, 0, 0);
    let (b, f) = (step.error@[0], step.error@[1]);
    lemma_near(fpu, motor_angles@[0], ik.theta@[0]);
    lemma_near(fpu, motor_angles@[1], ik.theta@[1]);
    assert(within_tolerance(step.error));
    lemma_small_change(fpu, j@[0]@[0], b, j@[0]@[1], f);
    lemma_small_change(fpu, j@[1]@[0], b, j@[1]@[1], f);
    assert(finite_matrix(step.jacobian));
    assert(!diverges(step.update));
}

/// A motor angle that is less than 0.00099 off.
proof fn lemma_near<F: Fn(Operation) -> u32>(fpu: F, m: u32, t: u32)
    requires
        accurate(fpu),
        finite(m),
        tame(t),
        100000 * size(scaled(m) - scaled(t)) <= 99 * one(),
    ensures
        finite(difference(fpu, m, t)),
        1000 * size(scaled(difference(fpu, m, t))) <= one(),
        below(absolute(difference(fpu, m, t)), TOLERANCE),
{
    lemma_one_is_large();
    lemma_limits();
    lemma_difference_error(fpu, m, t);
    lemma_absolute(difference(fpu, m, t));
}

/// A change by entries up to 700 and errors up to a thousandth is below the limit.
proof fn lemma_small_change<F: Fn(Operation) -> u32>(fpu: F, a: u32, b: u32, c: u32, f: u32)
    requires
        accurate(fpu),
        finite(a) && size(scaled(a)) <= 700 * one(),
        finite(c) && size(scaled(c)) <= 700 * one(),
        finite(b) && 1000 * size(scaled(b)) <= one(),
        finite(f) && 1000 * size(scaled(f)) <= one(),
    ensures
        finite(sum_of_products(fpu, a, b, c, f)),
        !below(JOINT_LIMIT, absolute(sum_of_products(fpu, a, b, c, f))),
{
    lemma_one_is_large();
    lemma_limits();
    lemma_small_product(fpu, a, b);
    lemma_small_product(fpu, c, f);
    lemma_sum_error(fpu, product(fpu, a, b), product(fpu, c, f));
    lemma_absolute(sum_of_products(fpu, a, b, c, f));
}

/// A product of up to 700 and up to a thousandth.
proof fn lemma_small_product<F: Fn(Operation) -> u32>(fpu: F, a: u32, b: u32)
    requires
        accurate(fpu),
        finite(a) && size(scaled(a)) <= 700 * one(),
        finite(b) && 1000 * size(scaled(b)) <= one(),
    ensures
        finite(product(fpu, a, b)),
        1000 * size(scaled(product(fpu, a, b))) <= 701 * one(),
{
    let (k, u, v) = (one(), scaled(a), scaled(b));
    let p2 = k * k;
    lemma_one_is_large();
    lemma_bounded(u, 1000 * v, 700, 1, k, k);
    assert(u * (1000 * v) == 1000 * (u * v)) by (nonlinear_arith);
    assert(2 * p2 <= reach() * k && INTEGERS * (2 * k) <= p2) by (nonlinear_arith)
        requires
            reach() == 0x1_0000_0000_0000_0000 * k,
            p2 == k * k,
            k >= 0x1_0000_0000_0000_0000,
    ;
    lemma_product_error(fpu, a, b);
    let p = scaled(product(fpu, a, b));
    assert(1000 * size(p) <= 701 * k) by (nonlinear_arith)
        requires
            1000 * size(p * k) <= 701 * p2,
            p2 == k * k,
            0 < k,
    ;
}

/// The number of evaluations.
#[verifier::spinoff_prover]
#[verifier::rlimit(60)]
proof fn lemma_count<F: Fn(Operation) -> u32>(
    fpu: F,
    links: [LinkParamsAtom01; 2],
    motor_angles: [u32; 2],
    pitch: u32,
    roll: u32,
    iterations: int,
)
    requires
        0 <= iterations < MAX_ITER,
    ensures
        ({
            let r = solution(fpu, links, motor_angles, pitch, roll, iterations);
            &&& iterations <= r.iterations <= 100
            &&& r.converged ==> iterations < r.iterations
            &&& !r.converged && r.iterations < 100 ==> r.pitch == 0 && r.roll == 0 && r.jacobian
                == gave_up(0).jacobian
        }),
    decreases MAX_ITER - iterations,
{
    let step = newton_step(fpu, links, motor_angles, pitch, roll);
    if !unusable(step) && !within_tolerance(step.error) && iterations + 1 < MAX_ITER {
        lemma_count(fpu, links, motor_angles, step.pose@[0], step.pose@[1], iterations + 1);
    }
}

} // verus!
