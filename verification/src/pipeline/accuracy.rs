//! What observations, targets and torques amount to.
//!
//! Numbers are counted in smallest positive steps; [`one`] is the number one.
use crate::ankle::{are_links, solution, AnkleDecoupler, LinkParamsAtom01, Side};
use crate::ankle::solver::tame;
use crate::arithmetic::{
    accurate, difference, difference_of_products, lemma_difference_error, lemma_one_is_large,
    lemma_product_error, lemma_products_error, lemma_scaled_up, lemma_sum_error, product, reach, size,
    sum, sum_of_products, Operation, INTEGERS, ONE, TWO,
};
use crate::binary32::{clamped_lies_between, finite, nan, negated, negation_undoes_itself};
use crate::ankle::accuracy::lemma_unit;
use crate::binary32::{
    lemma_absolute, lemma_between_finite, lemma_magnitude_order, magnitude, one, scaled,
};
use crate::canproto::{KD_MAX, KP_MAX};
use crate::config::{
    joints_are_permuted, ACTION_SCALE, CLIP_ACTIONS, CLIP_ACTIONS_LOW, DEFAULT_JOINT_ANGLES, KD, KP,
    MOTORS, MOTOR_SIGN, URDF2USD, USD2URDF,
};
use crate::pipeline::{
    are_targets, directed, gains_fit_their_codes, gravity_of, guarded, is_ankle, lemma_doubled,
    lemma_mean, lemma_two, limited, pd_torque, Pipeline,
};
use vstd::arithmetic::power2::{lemma2_to64, lemma_pow2_adds, pow2};
use vstd::prelude::*;

verus! {

/// The product of `a` and of a number `b` that is `d` up to one part in 2^24.
pub proof fn lemma_times<F: Fn(Operation) -> u32>(fpu: F, a: u32, b: u32, d: int)
    requires
        accurate(fpu),
        finite(a) && finite(b),
        size(scaled(a)) <= 1000000 * one(),
        size(d) <= 1000000 * one(),
        INTEGERS * size(scaled(b) - d) <= size(d),
    ensures
        ({
            let (p, x) = (product(fpu, a, b), scaled(a) * d);
            &&& finite(p)
            &&& INTEGERS * size(scaled(p) * one() - x) <= 3 * size(x) + INTEGERS * one()
            &&& size(scaled(p)) <= 2000000000000 * one()
        }),
{
    let (k, u, v) = (one(), scaled(a), scaled(b));
    let p2 = k * k;
    lemma_one_is_large();
    let x = u * d;
    let f = v - d;
    assert(size(x) == size(u) * size(d)) by (nonlinear_arith)
        requires
            x == u * d,
    ;
    assert(u * v == x + u * f) by (nonlinear_arith)
        requires
            x == u * d,
            f == v - d,
    ;
    assert(INTEGERS * size(u * f) <= size(x)) by {
        assert(size(u * f) == size(u) * size(f)) by (nonlinear_arith);
        assert(INTEGERS * (size(u) * size(f)) <= size(u) * size(d)) by (nonlinear_arith)
            requires
                INTEGERS * size(f) <= size(d),
                0 <= size(u),
        ;
    }
    assert(size(x) <= 1000000000000 * p2) by (nonlinear_arith)
        requires
            size(x) == size(u) * size(d),
            0 <= size(u) <= 1000000 * k,
            0 <= size(d) <= 1000000 * k,
            p2 == k * k,
    ;
    assert(2000000000000 * p2 <= reach() * k && INTEGERS * k <= p2) by (nonlinear_arith)
        requires
            reach() == 0x1_0000_0000_0000_0000 * k,
            p2 == k * k,
            k >= 0x1_0000_0000_0000_0000,
    ;
    lemma_product_error(fpu, a, b);
    let p = scaled(product(fpu, a, b));
    assert(size(p) <= 2000000000000 * k) by (nonlinear_arith)
        requires
            size(p * k) <= 2000000000000 * p2,
            p2 == k * k,
            0 < k,
    ;
}

/// A sum of two products, in exact arithmetic `x` and `y`.
pub proof fn lemma_two_products(k: int, x: int, y: int, g: int, h: int, s: int)
    requires
        k >= 0x1_0000_0000_0000_0000,
        INTEGERS * size(g * k - x) <= 3 * size(x) + INTEGERS * k,
        INTEGERS * size(h * k - y) <= 3 * size(y) + INTEGERS * k,
        INTEGERS * size(s - (g + h)) <= size(g + h),
    ensures
        INTEGERS * size(s * k - (x + y)) <= 5 * (size(x) + size(y)) + 4 * (INTEGERS * k),
{
    let (e, t) = (s - (g + h), g + h);
    assert(t * k == g * k + h * k) by (nonlinear_arith)
        requires
            t == g + h,
    ;
    assert(size(t * k) == size(t) * k && size(e * k) == size(e) * k) by (nonlinear_arith)
        requires
            0 < k,
    ;
    assert(INTEGERS * (size(e) * k) <= size(t) * k) by (nonlinear_arith)
        requires
            INTEGERS * size(e) <= size(t),
            0 < k,
    ;
    assert(size(t * k) <= 2 * (size(x) + size(y)) + 2 * k);
    assert(s * k == e * k + t * k) by (nonlinear_arith)
        requires
            e == s - t,
    ;
}

/// The rounded sum of two products of numbers, the second factors of which are `d` and
/// `f` up to one part in 2^24.
proof fn lemma_sum_of_two<F: Fn(Operation) -> u32>(fpu: F, a: u32, b: u32, c: u32, e: u32, d: int, f: int)
    requires
        accurate(fpu),
        finite(a) && finite(b) && finite(c) && finite(e),
        size(scaled(a)) <= 1000000 * one(),
        size(scaled(c)) <= 1000000 * one(),
        size(d) <= 1000000 * one(),
        size(f) <= 1000000 * one(),
        INTEGERS * size(scaled(b) - d) <= size(d),
        INTEGERS * size(scaled(e) - f) <= size(f),
    ensures
        ({
            let (x, y) = (scaled(a) * d, scaled(c) * f);
            let s = sum_of_products(fpu, a, b, c, e);
            &&& finite(s)
            &&& INTEGERS * size(scaled(s) * one() - (x + y)) <= 5 * (size(x) + size(y)) + 4 * (INTEGERS
                * one())
        }),
{
    lemma_one_is_large();
    lemma_times(fpu, a, b, d);
    lemma_times(fpu, c, e, f);
    let (g, h) = (product(fpu, a, b), product(fpu, c, e));
    lemma_sum_error(fpu, g, h);
    lemma_two_products(
        one(),
        scaled(a) * d,
        scaled(c) * f,
        scaled(g),
        scaled(h),
        scaled(sum(fpu, g, h)),
    );
}

/// Gains are numbers up to 500.
proof fn lemma_gains(idx: int)
    requires
        0 <= idx < MOTORS,
    ensures
        finite(KP@[idx]) && 0 < scaled(KP@[idx]) <= 500 * one(),
        finite(KD@[idx]) && 0 < scaled(KD@[idx]) <= 5 * one(),
        is_ankle(idx) ==> scaled(KP@[idx]) == 40 * one() && scaled(KD@[idx]) == 2 * one(),
        scaled(0) == 0 && finite(0),
{
    gains_fit_their_codes(idx);
    lemma2_to64();
    lemma_pow2_adds(134, 15);
    lemma_pow2_adds(128, 21);
    lemma_pow2_adds(131, 18);
    lemma_pow2_adds(127, 22);
    assert(scaled(KP_MAX) == 0xFA_0000 * pow2(134));
    assert(scaled(KD_MAX) == 0xA0_0000 * pow2(128));
    assert(scaled(0x4220_0000) == 0xA0_0000 * pow2(131));
    assert(scaled(0x4000_0000) == 0x80_0000 * pow2(127));
    lemma_between_finite(0, KP@[idx], KP_MAX);
    lemma_between_finite(0, KD@[idx], KD_MAX);
    if is_ankle(idx) {
        assert(KP@[4] == 0x4220_0000 && KP@[5] == 0x4220_0000 && KP@[10] == 0x4220_0000 && KP@[11]
            == 0x4220_0000);
        assert(KD@[4] == 0x4000_0000 && KD@[5] == 0x4000_0000 && KD@[10] == 0x4000_0000 && KD@[11]
            == 0x4000_0000);
    }
}

/// A difference of numbers up to 1000.
proof fn lemma_apart<F: Fn(Operation) -> u32>(fpu: F, a: u32, b: u32)
    requires
        accurate(fpu),
        tame(a) && tame(b),
    ensures
        finite(difference(fpu, a, b)),
        INTEGERS * size(scaled(difference(fpu, a, b)) - (scaled(a) - scaled(b))) <= size(
            scaled(a) - scaled(b),
        ),
        size(scaled(a) - scaled(b)) <= 2000 * one(),
{
    lemma_one_is_large();
    lemma_difference_error(fpu, a, b);
}

/// The torque of a joint is its position gain times what the angle lacks to the target,
/// less its velocity gain times the velocity, up to rounding.
pub proof fn torque_pulls_and_brakes<F: Fn(Operation) -> u32>(
    fpu: F,
    idx: int,
    target: u32,
    angle: u32,
    velocity: u32,
)
    requires
        accurate(fpu),
        0 <= idx < 23,
        tame(target) && tame(angle) && tame(velocity),
    ensures
        ({
            let torque = pd_torque(fpu, idx, target, angle, velocity);
            let pull = scaled(KP@[idx]) * (scaled(target) - scaled(angle));
            let brake = scaled(KD@[idx]) * scaled(velocity);
            &&& finite(torque)
            &&& INTEGERS * size(scaled(torque) * one() - (pull - brake)) <= 5 * (size(pull) + size(brake))
                + 4 * (INTEGERS * one())
        }),
{
    lemma_one_is_large();
    lemma_gains(idx);
    lemma_apart(fpu, target, angle);
    lemma_apart(fpu, 0, velocity);
    let (d, v) = (scaled(target) - scaled(angle), scaled(velocity));
    lemma_sum_of_two(
        fpu,
        KP@[idx],
        difference(fpu, target, angle),
        KD@[idx],
        difference(fpu, 0, velocity),
        d,
        -v,
    );
    let g = scaled(KD@[idx]);
    assert(g * (-v) == -(g * v)) by (nonlinear_arith);
}

/// The joints of the ankles, motors 5, 6, 11 and 12, are pulled with 40 per radian and
/// braked with 2 per radian and second, on both sides. So at its target a joint is held
/// against its velocity, and at rest it is drawn to its target.
pub proof fn ankles_are_pulled_and_braked<F: Fn(Operation) -> u32>(
    fpu: F,
    idx: int,
    target: u32,
    angle: u32,
    velocity: u32,
)
    requires
        accurate(fpu),
        idx == 4 || idx == 5 || idx == 10 || idx == 11,
        tame(target) && tame(angle) && tame(velocity),
    ensures
        ({
            let t = scaled(pd_torque(fpu, idx, target, angle, velocity));
            let (d, v) = (scaled(target) - scaled(angle), scaled(velocity));
            &&& INTEGERS * size(t - (40 * d - 2 * v)) <= 200 * size(d) + 10 * size(v) + 4 * INTEGERS
            &&& d == 0 && v >= 4 ==> t < 0
            &&& d == 0 && v <= -4 ==> t > 0
            &&& v == 0 && d > 0 ==> t > 0
            &&& v == 0 && d < 0 ==> t < 0
        }),
{
    let k = one();
    lemma_one_is_large();
    lemma_gains(idx);
    torque_pulls_and_brakes(fpu, idx, target, angle, velocity);
    let t = scaled(pd_torque(fpu, idx, target, angle, velocity));
    let (d, v) = (scaled(target) - scaled(angle), scaled(velocity));
    let (pull, brake) = ((40 * k) * d, (2 * k) * v);
    let e = t - (40 * d - 2 * v);
    assert(e * k == t * k - (pull - brake)) by (nonlinear_arith)
        requires
            e == t - (40 * d - 2 * v),
            pull == (40 * k) * d,
            brake == (2 * k) * v,
    ;
    assert(size(pull) == 40 * (size(d) * k) && size(brake) == 2 * (size(v) * k) && size(e * k) == size(e)
        * k) by (nonlinear_arith)
        requires
            pull == (40 * k) * d,
            brake == (2 * k) * v,
            0 < k,
    ;
    let b = 200 * size(d) + 10 * size(v) + 4 * INTEGERS;
    assert(INTEGERS * size(e) <= b) by (nonlinear_arith)
        requires
            INTEGERS * (size(e) * k) <= 5 * (40 * (size(d) * k) + 2 * (size(v) * k)) + 4 * (INTEGERS * k),
            b == 200 * size(d) + 10 * size(v) + 4 * INTEGERS,
            0 < k,
    ;
}

/// The torque of a motor is the sum of the torques of the joints, each weighted by how
/// far the motor turns the joint, up to rounding.
pub proof fn torques_go_through_the_transposed_jacobian<F: Fn(Operation) -> u32>(
    fpu: F,
    tau: [u32; 2],
    jac: [[u32; 2]; 2],
    i: int,
)
    requires
        accurate(fpu),
        0 <= i < 2,
        finite(tau@[0]) && size(scaled(tau@[0])) <= 1000000 * one(),
        finite(tau@[1]) && size(scaled(tau@[1])) <= 1000000 * one(),
        tame(jac@[0]@[i]) && tame(jac@[1]@[i]),
    ensures
        ({
            let t = AnkleDecoupler::motor_torques(fpu, tau, jac)@[i];
            let by_pitch = scaled(jac@[0]@[i]) * scaled(tau@[0]);
            let by_roll = scaled(jac@[1]@[i]) * scaled(tau@[1]);
            &&& finite(t)
            &&& INTEGERS * size(scaled(t) * one() - (by_pitch + by_roll)) <= 5 * (size(by_pitch) + size(
                by_roll,
            )) + 4 * (INTEGERS * one())
        }),
{
    lemma_one_is_large();
    lemma_sum_of_two(
        fpu,
        jac@[0]@[i],
        tau@[0],
        jac@[1]@[i],
        tau@[1],
        scaled(tau@[0]),
        scaled(tau@[1]),
    );
    assert(i == 0 || i == 1);
}

/// A number in the direction of a motor has the motor's sign: the six motors 9 to 12, 19
/// and 22 are reversed.
pub proof fn six_motors_are_reversed(idx: int, bits: u32)
    requires
        0 <= idx < 23,
    ensures
        nan(directed(idx, bits)) == nan(bits),
        finite(directed(idx, bits)) == finite(bits),
        scaled(directed(idx, bits)) == if (8 <= idx <= 11) || idx == 18 || idx == 21 {
            -scaled(bits)
        } else {
            scaled(bits)
        },
{
    negation_undoes_itself(bits);
    assert(MOTOR_SIGN@[0] == 1 && MOTOR_SIGN@[1] == 1 && MOTOR_SIGN@[2] == 1 && MOTOR_SIGN@[3] == 1);
    assert(MOTOR_SIGN@[4] == 1 && MOTOR_SIGN@[5] == 1 && MOTOR_SIGN@[6] == 1 && MOTOR_SIGN@[7] == 1);
    assert(MOTOR_SIGN@[8] == -1 && MOTOR_SIGN@[9] == -1 && MOTOR_SIGN@[10] == -1 && MOTOR_SIGN@[11] == -1);
    assert(MOTOR_SIGN@[12] == 1 && MOTOR_SIGN@[13] == 1 && MOTOR_SIGN@[14] == 1 && MOTOR_SIGN@[15] == 1);
    assert(MOTOR_SIGN@[16] == 1 && MOTOR_SIGN@[17] == 1 && MOTOR_SIGN@[18] == -1 && MOTOR_SIGN@[19] == 1);
    assert(MOTOR_SIGN@[20] == 1 && MOTOR_SIGN@[21] == -1 && MOTOR_SIGN@[22] == 1);
    assert(idx == 0 || idx == 1 || idx == 2 || idx == 3 || idx == 4 || idx == 5 || idx == 6 || idx == 7
        || idx == 8 || idx == 9 || idx == 10 || idx == 11 || idx == 12 || idx == 13 || idx == 14 || idx
        == 15 || idx == 16 || idx == 17 || idx == 18 || idx == 19 || idx == 20 || idx == 21 || idx == 22);
}

/// The pose of an ankle is found from the measured positions of its two motors, which
/// are the fifth and the sixth on the left, and on the right the eleventh and the
/// twelfth, which are reversed, with the linkages of that side.
#[verifier::spinoff_prover]
#[verifier::rlimit(60)]
pub proof fn ankle_pose_is_that_of_its_motors<F: Fn(Operation) -> u32>(p: Pipeline, fpu: F, side: Side)
    requires
        p.wf(),
    ensures
        exists|m: [u32; 2], links: [LinkParamsAtom01; 2]|
            {
                &&& p.ankle_pose_of(fpu, side) == #[trigger] solution(fpu, links, m, 0, 0, 0)
                &&& are_links(links, side)
                &&& side ==> m@ == p.joint.position@.subrange(4, 6)
                &&& !side ==> scaled(m@[0]) == -scaled(p.joint.position@[10]) && scaled(m@[1]) == -scaled(
                    p.joint.position@[11],
                )
                &&& !side ==> nan(m@[0]) == nan(p.joint.position@[10]) && nan(m@[1]) == nan(
                    p.joint.position@[11],
                )
            },
{
    let base: int = if side {
        4
    } else {
        10
    };
    let x = p.joint.position@;
    six_motors_are_reversed(base, x[base]);
    six_motors_are_reversed(base + 1, x[base + 1]);
    let m = [directed(base, x[base]), directed(base + 1, x[base + 1])];
    assert(MOTOR_SIGN@[4] == 1 && MOTOR_SIGN@[5] == 1);
    let links = if side {
        p.ankle_left.links_of()
    } else {
        p.ankle_right.links_of()
    };
    if side {
        assert(m@ =~= x.subrange(4, 6));
    }
    assert(p.ankle_pose_of(fpu, side) == solution(fpu, links, m, 0, 0, 0));
}

/// A torque that is `t` up to rounding, weighted.
proof fn lemma_weighted(j: int, torque: int, t: int, bound: int)
    requires
        0 <= bound,
        size(t) <= bound,
        INTEGERS * size(torque - t) <= 5 * bound + 4 * INTEGERS,
    ensures
        INTEGERS * size(j * torque - j * t) <= 5 * (size(j) * bound) + 4 * (INTEGERS * size(j)),
        size(j * torque) <= 2 * (size(j) * bound) + 4 * size(j),
{
    let e = torque - t;
    assert(j * torque - j * t == j * e) by (nonlinear_arith)
        requires
            e == torque - t,
    ;
    assert(size(j * e) == size(j) * size(e) && size(j * torque) == size(j) * size(torque))
        by (nonlinear_arith);
    assert(INTEGERS * (size(j) * size(e)) <= 5 * (size(j) * bound) + 4 * (INTEGERS * size(j)))
        by (nonlinear_arith)
        requires
            INTEGERS * size(e) <= 5 * bound + 4 * INTEGERS,
            0 <= size(j),
    ;
    assert(size(torque) <= 2 * bound + 4);
    assert(size(j) * size(torque) <= 2 * (size(j) * bound) + 4 * size(j)) by (nonlinear_arith)
        requires
            size(torque) <= 2 * bound + 4,
            0 <= size(j),
    ;
}

/// A sum of weighted torques.
proof fn lemma_held(k: int, t: int, a: int, b: int, f: int, g: int, u: int, v: int, m: int, n: int)
    requires
        0 < k,
        0 <= m,
        0 <= n,
        size(u) <= m,
        size(v) <= n,
        INTEGERS * size(f - u) <= 5 * m + 4 * INTEGERS,
        INTEGERS * size(g - v) <= 5 * n + 4 * INTEGERS,
        INTEGERS * size(t * k - (a * f + b * g)) <= 5 * (size(a * f) + size(b * g)) + 4 * (INTEGERS * k),
    ensures
        INTEGERS * size(t * k - (a * u + b * v)) <= 20 * (size(a) * m + size(b) * n) + 30 * (INTEGERS * (size(
            a,
        ) + size(b) + k)),
{
    lemma_weighted(a, f, u, m);
    lemma_weighted(b, g, v, n);
    assert(0 <= size(a) * m && 0 <= size(b) * n) by (nonlinear_arith)
        requires
            0 <= size(a),
            0 <= size(b),
            0 <= m,
            0 <= n,
    ;
}

/// The torque of one motor of an ankle, from the targets, angles and velocities of its
/// joints.
#[verifier::spinoff_prover]
#[verifier::rlimit(60)]
proof fn lemma_ankle_motor<F: Fn(Operation) -> u32>(
    fpu: F,
    base: int,
    goal: [u32; 2],
    angle: [u32; 2],
    speed: [u32; 2],
    jac: [[u32; 2]; 2],
    i: int,
)
    requires
        accurate(fpu),
        base == 4 || base == 10,
        0 <= i < 2,
        tame(goal@[0]) && tame(goal@[1]),
        tame(angle@[0]) && tame(angle@[1]),
        tame(speed@[0]) && tame(speed@[1]),
        tame(jac@[0]@[i]) && tame(jac@[1]@[i]),
    ensures
        ({
            let tau = [
                pd_torque(fpu, base, goal@[0], angle@[0], speed@[0]),
                pd_torque(fpu, base + 1, goal@[1], angle@[1], speed@[1]),
            ];
            let t = AnkleDecoupler::motor_torques(fpu, tau, jac)@[i];
            let (d, e) = (scaled(goal@[0]) - scaled(angle@[0]), scaled(goal@[1]) - scaled(angle@[1]));
            let (v, w) = (scaled(speed@[0]), scaled(speed@[1]));
            let (a, b) = (scaled(jac@[0]@[i]), scaled(jac@[1]@[i]));
            &&& finite(t)
            &&& INTEGERS * size(scaled(t) * one() - (a * (40 * d - 2 * v) + b * (40 * e - 2 * w))) <= 20 * (
            size(a) * (40 * size(d) + 2 * size(v)) + size(b) * (40 * size(e) + 2 * size(w))) + 30 * (
            INTEGERS * (size(a) + size(b) + one()))
        }),
{
    let k = one();
    lemma_one_is_large();
    let f = pd_torque(fpu, base, goal@[0], angle@[0], speed@[0]);
    let g = pd_torque(fpu, base + 1, goal@[1], angle@[1], speed@[1]);
    let (d, e) = (scaled(goal@[0]) - scaled(angle@[0]), scaled(goal@[1]) - scaled(angle@[1]));
    let (v, w) = (scaled(speed@[0]), scaled(speed@[1]));
    let (a, b) = (scaled(jac@[0]@[i]), scaled(jac@[1]@[i]));
    let (m, n) = (40 * size(d) + 2 * size(v), 40 * size(e) + 2 * size(w));
    assert(finite(f) && INTEGERS * size(scaled(f) - (40 * d - 2 * v)) <= 5 * m + 4 * INTEGERS) by {
        torque_pulls_and_brakes(fpu, base, goal@[0], angle@[0], speed@[0]);
        ankles_are_pulled_and_braked(fpu, base, goal@[0], angle@[0], speed@[0]);
    }
    assert(finite(g) && INTEGERS * size(scaled(g) - (40 * e - 2 * w)) <= 5 * n + 4 * INTEGERS) by {
        torque_pulls_and_brakes(fpu, base + 1, goal@[1], angle@[1], speed@[1]);
        ankles_are_pulled_and_braked(fpu, base + 1, goal@[1], angle@[1], speed@[1]);
    }
    assert(m <= 82000 * k && n <= 82000 * k);
    assert(size(scaled(f)) <= 1000000 * k && size(scaled(g)) <= 1000000 * k);
    let tau = [f, g];
    torques_go_through_the_transposed_jacobian(fpu, tau, jac, i);
    let t = scaled(AnkleDecoupler::motor_torques(fpu, tau, jac)@[i]);
    lemma_held(k, t, a, b, scaled(f), scaled(g), 40 * d - 2 * v, 40 * e - 2 * w, m, n);
}

/// The torques of an ankle's motors. Its joints are the pitch, whose target and velocity
/// are those of its first motor, the fifth on the left and the eleventh on the right,
/// and the roll, with those of its second. On the right the velocities count reversed.
/// Each joint is pulled with 40 times what its angle lacks to its target, and braked with
/// twice its velocity; the Jacobian found with the pose turns that into motor torques.
#[verifier::spinoff_prover]
#[verifier::rlimit(60)]
pub proof fn ankle_torques_hold_the_joints<F: Fn(Operation) -> u32>(p: Pipeline, fpu: F, side: Side, i: int)
    requires
        accurate(fpu),
        0 <= i < 2,
        ({
            let base: int = if side {
                4
            } else {
                10
            };
            let fk = p.ankle_pose_of(fpu, side);
            &&& tame(p.action@[base]) && tame(p.action@[base + 1])
            &&& tame(p.joint.velocity@[base]) && tame(p.joint.velocity@[base + 1])
            &&& tame(fk.pitch) && tame(fk.roll)
            &&& tame(fk.jacobian@[0]@[i]) && tame(fk.jacobian@[1]@[i])
        }),
    ensures
        ({
            let base: int = if side {
                4
            } else {
                10
            };
            let sign: int = if side {
                1
            } else {
                -1
            };
            let fk = p.ankle_pose_of(fpu, side);
            let (d, e) = (
                scaled(p.action@[base]) - scaled(fk.pitch),
                scaled(p.action@[base + 1]) - scaled(fk.roll),
            );
            let (v, w) = (
                sign * scaled(p.joint.velocity@[base]),
                sign * scaled(p.joint.velocity@[base + 1]),
            );
            let (a, b) = (scaled(fk.jacobian@[0]@[i]), scaled(fk.jacobian@[1]@[i]));
            let t = p.ankle_torques(fpu, side)@[i];
            &&& finite(t)
            &&& INTEGERS * size(scaled(t) * one() - (a * (40 * d - 2 * v) + b * (40 * e - 2 * w))) <= 20 * (
            size(a) * (40 * size(d) + 2 * size(v)) + size(b) * (40 * size(e) + 2 * size(w))) + 30 * (
            INTEGERS * (size(a) + size(b) + one()))
        }),
{
    let k = one();
    lemma_one_is_large();
    let base: int = if side {
        4
    } else {
        10
    };
    let fk = p.ankle_pose_of(fpu, side);
    six_motors_are_reversed(base, p.joint.velocity@[base]);
    six_motors_are_reversed(base + 1, p.joint.velocity@[base + 1]);
    let x = directed(base, p.joint.velocity@[base]);
    let y = directed(base + 1, p.joint.velocity@[base + 1]);
    let sign: int = if side {
        1
    } else {
        -1
    };
    lemma_signed(sign, scaled(p.joint.velocity@[base]));
    lemma_signed(sign, scaled(p.joint.velocity@[base + 1]));
    lemma_ankle_motor(
        fpu,
        base,
        [p.action@[base], p.action@[base + 1]],
        [fk.pitch, fk.roll],
        [x, y],
        fk.jacobian,
        i,
    );
}

/// A number with a sign.
proof fn lemma_signed(sign: int, x: int)
    requires
        sign == 1 || sign == -1,
    ensures
        sign == 1 ==> sign * x == x,
        sign == -1 ==> sign * x == -x,
{
    assert(sign * x == x || sign * x == -x) by (nonlinear_arith)
        requires
            sign == 1 || sign == -1,
    ;
}

/// A policy output of finite numbers is taken as it is; if any is not finite, all count
/// as zero.
pub proof fn finite_output_is_kept(output: Seq<u32>)
    ensures
        (forall|i: int| 0 <= i < output.len() ==> finite(#[trigger] output[i])) ==> guarded(output)
            == output,
        (exists|i: int| 0 <= i < output.len() && !finite(#[trigger] output[i])) ==> guarded(output)
            == Seq::new(output.len(), |i: int| 0u32),
{
}

/// One hundred, and a quarter.
proof fn lemma_bounds()
    ensures
        finite(CLIP_ACTIONS) && scaled(CLIP_ACTIONS) == 100 * one(),
        finite(CLIP_ACTIONS_LOW) && scaled(CLIP_ACTIONS_LOW) == -100 * one(),
        finite(ACTION_SCALE) && 4 * scaled(ACTION_SCALE) == one(),
{
    lemma2_to64();
    lemma_pow2_adds(132, 17);
    lemma_pow2_adds(124, 25);
    assert(scaled(CLIP_ACTIONS) == 0xC8_0000 * pow2(132));
    assert(scaled(CLIP_ACTIONS_LOW) == -0xC8_0000 * pow2(132));
    assert(scaled(ACTION_SCALE) == 0x80_0000 * pow2(124));
}

/// Numbers beyond 100 are cut to 100, on both sides; what lies between stays as it is, and
/// so does what is not a number.
pub proof fn numbers_are_cut_at_a_hundred(s: Seq<u32>, i: int)
    requires
        0 <= i < s.len(),
    ensures
        limited(s).len() == s.len(),
        nan(s[i]) ==> limited(s)[i] == s[i],
        !nan(s[i]) ==> {
            let (x, y) = (scaled(s[i]), limited(s)[i]);
            &&& finite(y)
            &&& x < -100 * one() ==> scaled(y) == -100 * one()
            &&& x > 100 * one() ==> scaled(y) == 100 * one()
            &&& -100 * one() <= x <= 100 * one() ==> y == s[i]
        },
{
    lemma_bounds();
    lemma_one_is_large();
    if !nan(s[i]) {
        clamped_lies_between(s[i], CLIP_ACTIONS_LOW, CLIP_ACTIONS);
        lemma_between_finite(CLIP_ACTIONS_LOW, limited(s)[i], CLIP_ACTIONS);
    }
}

/// Home angles are at most 0.79 either way.
proof fn lemma_home(j: int)
    requires
        0 <= j < 23,
    ensures
        finite(DEFAULT_JOINT_ANGLES@[j]),
        size(scaled(DEFAULT_JOINT_ANGLES@[j])) <= one(),
{
    let h = DEFAULT_JOINT_ANGLES@;
    assert(h[0] == 0 && h[1] == 0 && h[2] == 0xBDCC_CCCD && h[3] == 0x3E99_999A && h[4] == 0xBE4C_CCCD);
    assert(h[5] == 0 && h[6] == 0 && h[7] == 0 && h[8] == 0xBDCC_CCCD && h[9] == 0x3E99_999A);
    assert(h[10] == 0xBE4C_CCCD && h[11] == 0 && h[12] == 0 && h[13] == 0x3E38_51EC && h[14] == 0x3D75_C28F);
    assert(h[15] == 0 && h[16] == 0x3F47_AE14 && h[17] == 0 && h[18] == 0x3E38_51EC && h[19] == 0xBD75_C28F);
    assert(h[20] == 0 && h[21] == 0x3F47_AE14 && h[22] == 0);
    let x = h[j];
    assert(j == 0 || j == 1 || j == 2 || j == 3 || j == 4 || j == 5 || j == 6 || j == 7 || j == 8 || j == 9
        || j == 10 || j == 11 || j == 12 || j == 13 || j == 14 || j == 15 || j == 16 || j == 17 || j == 18
        || j == 19 || j == 20 || j == 21 || j == 22);
    assert(magnitude(x) < 0x3F80_0000);
    lemma_magnitude_order(magnitude(x), 0x3F80_0000);
    lemma_unit();
    lemma_absolute(x);
}

/// The target of each joint is its home angle and a quarter of the output that drives it,
/// cut at 100, up to rounding. Output 0 drives joint 0; the others are as tabled.
#[verifier::spinoff_prover]
#[verifier::rlimit(60)]
pub proof fn targets_start_from_home<F: Fn(Operation) -> u32>(fpu: F, output: Seq<u32>, targets: Seq<u32>, j: int)
    requires
        accurate(fpu),
        are_targets(fpu, output, targets),
        output.len() == 23,
        0 <= j < 23,
        !nan(output[URDF2USD@[j] as int]),
    ensures
        ({
            let k = one();
            let x = scaled(output[URDF2USD@[j] as int]);
            let cut = if x < -100 * k {
                -100 * k
            } else if x > 100 * k {
                100 * k
            } else {
                x
            };
            let home = scaled(DEFAULT_JOINT_ANGLES@[j]);
            &&& finite(targets[j])
            &&& INTEGERS * size(4 * scaled(targets[j]) - (cut + 4 * home)) <= 2 * size(cut) + 5 * size(
                cut + 4 * home,
            ) + 10 * INTEGERS
        }),
{
    let k = one();
    lemma_one_is_large();
    lemma_bounds();
    lemma_home(j);
    joints_are_permuted();
    let i = URDF2USD@[j] as int;
    assert(USD2URDF@[i] == j);
    numbers_are_cut_at_a_hundred(output, i);
    let c = limited(output)[i];
    let (x, h) = (scaled(c), scaled(DEFAULT_JOINT_ANGLES@[j]));
    let q = scaled(ACTION_SCALE);
    let p = product(fpu, c, ACTION_SCALE);
    assert(4 * (x * q) == x * k) by (nonlinear_arith)
        requires
            4 * q == k,
    ;
    assert(size(x * q) <= reach() * k && size(x * k) == size(x) * k) by (nonlinear_arith)
        requires
            size(x) <= 100 * k,
            4 * q == k,
            reach() == 0x1_0000_0000_0000_0000 * k,
            0 < k,
    ;
    lemma_product_error(fpu, c, ACTION_SCALE);
    let e = 4 * scaled(p) - x;
    assert(e * k == 4 * (scaled(p) * k) - x * k) by (nonlinear_arith)
        requires
            e == 4 * scaled(p) - x,
    ;
    assert(size(e * k) == size(e) * k) by (nonlinear_arith)
        requires
            0 < k,
    ;
    assert(INTEGERS * size(e) <= size(x) + 4 * INTEGERS) by (nonlinear_arith)
        requires
            INTEGERS * (size(e) * k) <= size(x) * k + 4 * (INTEGERS * k),
            0 < k,
    ;
    lemma_sum_error(fpu, p, DEFAULT_JOINT_ANGLES@[j]);
    assert(targets[j] == sum(fpu, p, DEFAULT_JOINT_ANGLES@[j]));
}

/// The observation: three numbers of the angular velocity, three of gravity, three of the
/// commanded velocity, then of all 23 joints the positions counted from home, the
/// velocities and the last outputs of the policy.
pub proof fn observation_is_in_order<F: Fn(Operation) -> u32>(p: Pipeline, fpu: F, cmd: Seq<u32>, i: int)
    requires
        accurate(fpu),
        cmd.len() == 3,
    ensures
        ({
            let o = p.observation(fpu, cmd);
            &&& o.len() == 78
            &&& 0 <= i < 3 ==> o[i] == p.imu.ang_vel@[i] && o[3 + i] == gravity_of(fpu, p.imu.quat@)@[i]
                && o[6 + i] == cmd[i]
            &&& 0 <= i < 23 ==> o[32 + i] == p.joint.velocity@[i] && o[55 + i] == p.raw_action@[i]
            &&& 0 <= i < 23 && tame(p.joint.position@[i]) ==> {
                let exact = scaled(p.joint.position@[i]) - scaled(DEFAULT_JOINT_ANGLES@[i]);
                finite(o[9 + i]) && INTEGERS * size(scaled(o[9 + i]) - exact) <= size(exact)
            }
        }),
{
    if 0 <= i < 23 {
        lemma_home(i);
        if tame(p.joint.position@[i]) {
            lemma_apart(fpu, p.joint.position@[i], DEFAULT_JOINT_ANGLES@[i]);
        }
    }
}

/// Twice a sum, and twice a difference, of two products.
proof fn lemma_twice<F: Fn(Operation) -> u32>(fpu: F, a: u32, b: u32, c: u32, d: u32)
    requires
        accurate(fpu),
        finite(a) && finite(b) && finite(c) && finite(d),
        10 * size(scaled(a) * scaled(b)) <= 11 * (one() * one()),
        10 * size(scaled(c) * scaled(d)) <= 11 * (one() * one()),
    ensures
        ({
            let (x, y, k) = (scaled(a) * scaled(b), scaled(c) * scaled(d), one());
            let s = product(fpu, TWO, sum_of_products(fpu, a, b, c, d));
            let t = product(fpu, TWO, difference_of_products(fpu, a, b, c, d));
            &&& finite(s) && size(scaled(s)) <= 7 * k
            &&& INTEGERS * size(scaled(s) * k - 2 * (x + y)) <= 19 * (k * k)
            &&& finite(t)
            &&& INTEGERS * size(scaled(t) * k - 2 * (x - y)) <= 19 * (k * k)
        }),
{
    lemma_products_error(fpu, a, b, c, d);
    let (x, y) = (scaled(a) * scaled(b), scaled(c) * scaled(d));
    lemma_doubled(fpu, sum_of_products(fpu, a, b, c, d), x + y);
    lemma_doubled(fpu, difference_of_products(fpu, a, b, c, d), x - y);
}

/// A number less one, counted in squares of steps.
proof fn lemma_less_one<F: Fn(Operation) -> u32>(fpu: F, d: u32, e: int)
    requires
        accurate(fpu),
        finite(d),
        size(scaled(d)) <= 7 * one(),
        INTEGERS * size(scaled(d) * one() - e) <= 19 * (one() * one()),
    ensures
        ({
            let (g, k) = (difference(fpu, d, ONE), one());
            finite(g) && INTEGERS * size(scaled(g) * k - (e - k * k)) <= 30 * (k * k)
        }),
{
    let k = one();
    lemma_one_is_large();
    lemma_two();
    lemma_difference_error(fpu, d, ONE);
    let (g, t) = (scaled(difference(fpu, d, ONE)), scaled(d));
    lemma_scaled_up(g - (t - k), 8, k);
    assert(g * k == (g - (t - k)) * k + t * k - k * k) by (nonlinear_arith);
    assert(0 < k * k) by (nonlinear_arith)
        requires
            0 < k,
    ;
}

/// A negated number, counted in squares of steps.
proof fn lemma_opposite(d: u32, e: int)
    requires
        finite(d),
        INTEGERS * size(scaled(d) * one() - e) <= 19 * (one() * one()),
    ensures
        finite(negated(d)),
        INTEGERS * size(scaled(negated(d)) * one() + e) <= 19 * (one() * one()),
{
    negation_undoes_itself(d);
    let (u, k) = (scaled(d), one());
    assert((-u) * k == -(u * k)) by (nonlinear_arith);
}

/// The products of a quaternion's numbers are at most as large as its squared length.
proof fn lemma_shares(w: int, x: int, y: int, z: int, k2: int)
    requires
        10 * size(w * w + x * x + y * y + z * z - k2) <= k2,
    ensures
        0 <= k2,
        10 * size(x * z) <= 11 * k2 && 10 * size(w * y) <= 11 * k2 && 10 * size(y * z) <= 11 * k2,
        10 * size(w * x) <= 11 * k2 && 10 * size(x * x) <= 11 * k2 && 10 * size(y * y) <= 11 * k2,
{
    assert(0 <= w * w && 0 <= x * x && 0 <= y * y && 0 <= z * z) by (nonlinear_arith);
    lemma_mean(x, z);
    lemma_mean(w, y);
    lemma_mean(y, z);
    lemma_mean(w, x);
}

/// Gravity is seen along the negated third row of the attitude's matrix: of the unit
/// quaternion `(w, x, y, z)` that is `(2 (w y - x z), -2 (y z + w x), 2 (x^2 + y^2) - 1)`,
/// up to rounding.
#[verifier::spinoff_prover]
#[verifier::rlimit(60)]
pub proof fn gravity_points_down<F: Fn(Operation) -> u32>(fpu: F, q: Seq<u32>)
    requires
        accurate(fpu),
        q.len() == 4,
        finite(q[0]) && finite(q[1]) && finite(q[2]) && finite(q[3]),
        ({
            let (w, x, y, z) = (scaled(q[0]), scaled(q[1]), scaled(q[2]), scaled(q[3]));
            10 * size(w * w + x * x + y * y + z * z - one() * one()) <= one() * one()
        }),
    ensures
        ({
            let (w, x, y, z) = (scaled(q[0]), scaled(q[1]), scaled(q[2]), scaled(q[3]));
            let (g, k) = (gravity_of(fpu, q)@, one());
            &&& finite(g[0]) && finite(g[1]) && finite(g[2])
            &&& INTEGERS * size(scaled(g[0]) * k - 2 * (w * y - x * z)) <= 30 * (k * k)
            &&& INTEGERS * size(scaled(g[1]) * k + 2 * (y * z + w * x)) <= 30 * (k * k)
            &&& INTEGERS * size(scaled(g[2]) * k - (2 * (x * x + y * y) - k * k)) <= 30 * (k * k)
        }),
{
    let k = one();
    let (w, x, y, z) = (scaled(q[0]), scaled(q[1]), scaled(q[2]), scaled(q[3]));
    lemma_shares(w, x, y, z, k * k);
    negation_undoes_itself(q[1]);
    negation_undoes_itself(q[2]);
    negation_undoes_itself(q[3]);
    let (bw, bx, by, bz) = (q[0], negated(q[1]), negated(q[2]), negated(q[3]));
    assert(finite(bx) && finite(by) && finite(bz));
    assert((-x) * (-z) == x * z && (-y) * (-z) == y * z && (-x) * (-x) == x * x && (-y) * (-y) == y * y)
        by (nonlinear_arith);
    assert(w * (-y) == -(w * y) && w * (-x) == -(w * x)) by (nonlinear_arith);
    lemma_twice(fpu, bx, bz, bw, by);
    lemma_twice(fpu, by, bz, bw, bx);
    lemma_twice(fpu, bx, bx, by, by);
    lemma_opposite(product(fpu, TWO, sum_of_products(fpu, bx, bz, bw, by)), 2 * (x * z - w * y));
    lemma_opposite(product(fpu, TWO, difference_of_products(fpu, by, bz, bw, bx)), 2 * (y * z + w * x));
    lemma_less_one(fpu, product(fpu, TWO, sum_of_products(fpu, bx, bx, by, by)), 2 * (x * x + y * y));
}

/// Motors 5 and 6 are given the torques of the left ankle, 11 and 12 those of the right
/// one, reversed, and nothing else. Every other motor is given the target of its joint,
/// reversed where the motor is, with its gains, and no velocity and no torque.
pub proof fn motors_are_given_their_own(p: Pipeline, idx: int, left: Seq<u32>, right: Seq<u32>)
    requires
        0 <= idx < 23,
    ensures
        ({
            let cmd = p.command_of(idx, left, right);
            &&& cmd.vel == 0
            &&& idx == 4 ==> cmd.tau == left[0]
            &&& idx == 5 ==> cmd.tau == left[1]
            &&& idx == 10 ==> scaled(cmd.tau) == -scaled(right[0]) && nan(cmd.tau) == nan(right[0])
            &&& idx == 11 ==> scaled(cmd.tau) == -scaled(right[1]) && nan(cmd.tau) == nan(right[1])
            &&& idx == 4 || idx == 5 || idx == 10 || idx == 11 ==> cmd.pos == 0 && cmd.kp == 0 && cmd.kd
                == 0
            &&& !(idx == 4 || idx == 5 || idx == 10 || idx == 11) ==> {
                &&& cmd.tau == 0 && cmd.kp == KP@[idx] && cmd.kd == KD@[idx]
                &&& nan(cmd.pos) == nan(p.action@[idx])
                &&& scaled(cmd.pos) == if idx == 8 || idx == 9 || idx == 18 || idx == 21 {
                    -scaled(p.action@[idx])
                } else {
                    scaled(p.action@[idx])
                }
            }
        }),
{
    six_motors_are_reversed(idx, p.action@[idx]);
    if idx == 10 || idx == 11 {
        six_motors_are_reversed(idx, right[idx - 10]);
    }
    assert(MOTOR_SIGN@[4] == 1 && MOTOR_SIGN@[5] == 1);
}

} // verus!
