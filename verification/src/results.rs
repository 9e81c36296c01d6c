//! What calls return, in exact arithmetic.
//!
//! Each law here speaks of whatever a call returns, by its contract, where the unit that
//! it is handed is accurate. The submodules hold those on buffers, on console sessions and
//! on the steps of the pipeline.
use crate::ankle::solver::{
    answers_are_corrected_poses, differences_are_honest, entries_within, found_at, tame,
};
use crate::ankle::vectors::{
    coordinate, cross_products_follow_the_right_hand, feet_roll_then_pitch, is_difference_of, is_turned,
    scalar_products_add_up, tame_vector, trigonometric,
};
use crate::ankle::{
    arc_sine, asin_approx, cos_approx, cosine, cross3, dot3, jacobian_at, linkage_pose, sin_approx, sine,
    sqrt_approx, square_root, wrap_to_pi, wrapped, AnkleDecoupler, FkResult, IkResultAtom01, JacobianResult,
};
use crate::arithmetic::{accurate, size, Operation, INTEGERS};
use crate::binary32::{clamped_lies_between, finite, nan, one, scaled};
use crate::canproto::accuracy::{
    codable, codes_are_linear, feedback_says_what_the_bytes_hold, frames_hold_the_command,
    middles_lie_halfway, reads_as, stands_for,
};
use crate::canproto::{
    clip_f32, decode_mit_feedback, encode_mit, range_map, CanFrame, DecodeError, MitCommand, MitFeedback, MotorModel,
};
use crate::pipeline::accuracy::torques_go_through_the_transposed_jacobian;
use crate::pipeline::Pipeline;
use vstd::prelude::*;

pub mod buffers;
pub mod sessions;
pub mod steps;

verus! {

/// A number is mapped to the code that is nearest to its share of the way, within 0.54.
pub proof fn mapped_codes_are_linear<F: Fn(Operation) -> u32>(
    fpu: F,
    x: u32,
    in_min: u32,
    in_max: u32,
    out_min: u32,
    out_max: u32,
    code: u32,
)
    requires
        accurate(fpu),
        codable(x, in_min, in_max, out_min, out_max),
        call_ensures(range_map::<F>, (x, in_min, in_max, out_min, out_max, &fpu), code),
    ensures
        ({
            let length = scaled(in_max) - scaled(in_min);
            &&& out_min <= code <= out_max
            &&& 50 * size(
                code * length - (out_min * length + (out_max - out_min) * (scaled(x) - scaled(in_min))),
            ) <= 27 * length
        }),
{
    codes_are_linear(fpu, x, in_min, in_max, out_min, out_max);
}

/// The frame that is built for a command holds the command. Its bytes are read from the
/// front; the ends of the intervals are doubled.
#[verifier::spinoff_prover]
#[verifier::rlimit(60)]
pub proof fn built_frames_hold_the_command<F: Fn(Operation) -> u32>(
    fpu: F,
    motor_id: u8,
    model: MotorModel,
    cmd: MitCommand,
    frame: CanFrame,
)
    requires
        accurate(fpu),
        call_ensures(encode_mit::<F>, (motor_id, model, &cmd, &fpu), frame),
    ensures
        ({
            let (d, k) = (frame.data@, one());
            let small = model is Dm4340P;
            let speed = if small {
                40 * k
            } else {
                50 * k
            };
            let torque = if small {
                56 * k
            } else {
                400 * k
            };
            &&& frame.id.0 == motor_id && frame.dlc == 8
            &&& stands_for(d[0] * 256 + d[1], cmd.pos, -25 * k, 25 * k, 65535)
            &&& stands_for(d[2] * 16 + d[3] as int / 16, cmd.vel, -speed, speed, 4095)
            &&& stands_for((d[3] as int % 16) * 256 + d[4], cmd.kp, 0, 1000 * k, 4095)
            &&& stands_for(d[5] * 16 + d[6] as int / 16, cmd.kd, 0, 10 * k, 4095)
            &&& stands_for((d[6] as int % 16) * 256 + d[7], cmd.tau, -torque, torque, 4095)
        }),
{
    frames_hold_the_command(fpu, motor_id, model, cmd, frame);
}

/// A frame that is read tells what its bytes hold: the position between -12.5 and 12.5,
/// the velocity between -20 and 20, the torque between -28 and 28.
#[verifier::spinoff_prover]
#[verifier::rlimit(60)]
pub proof fn read_frames_tell_what_they_hold<F: Fn(Operation) -> u32>(
    fpu: F,
    frame: CanFrame,
    r: Result<MitFeedback, DecodeError>,
)
    requires
        accurate(fpu),
        call_ensures(decode_mit_feedback::<F>, (&frame, &fpu), r),
    ensures
        ({
            let (d, k, id) = (frame.data@, one(), frame.id.0);
            &&& r is Ok <==> frame.dlc == 8 && 16 <= id <= 39
            &&& r is Err && frame.dlc != 8 ==> r->Err_0 == DecodeError::WrongDlc
            &&& r is Err && frame.dlc == 8 ==> r->Err_0 == DecodeError::WrongCanId
            &&& r matches Ok(told) ==> {
                &&& told.motor_id == id - 16 && told.error_code == d[7] / 16
                &&& reads_as(told.position, d[0] * 256 + d[1], 65535, 25 * k / 2)
                &&& reads_as(told.velocity, d[2] * 16 + d[3] as int / 16, 4095, 20 * k)
                &&& reads_as(told.torque, (d[3] as int % 16) * 256 + d[4], 4095, 28 * k)
            }
        }),
{
    feedback_says_what_the_bytes_hold(fpu, frame);
}

/// Forward kinematics that converges was found at a pose that has nearly the motor angles
/// that were asked for, and the answer is that pose with one Newton correction. Otherwise,
/// unless it took a hundred evaluations, the answer is the zero pose.
#[verifier::spinoff_prover]
#[verifier::rlimit(60)]
pub proof fn poses_are_found<F: Fn(Operation) -> u32>(
    fpu: F,
    ankle: AnkleDecoupler,
    motor_angles: [u32; 2],
    r: FkResult,
)
    requires
        accurate(fpu),
        differences_are_honest(fpu),
        tame(motor_angles@[0]) && tame(motor_angles@[1]),
        call_ensures(AnkleDecoupler::forward_kinematics::<F>, (&ankle, &motor_angles, &fpu), r),
    ensures
        r.iterations <= 100,
        r.converged && entries_within(r.jacobian, 1000) ==> exists|p: u32, q: u32| #[trigger]
            found_at(fpu, ankle.links_of(), motor_angles, p, q, r),
        !r.converged && r.iterations < 100 ==> r.pitch == 0 && r.roll == 0,
{
    answers_are_corrected_poses(fpu, ankle.links_of(), motor_angles);
}

/// The torques that are computed for an ankle are those of its state.
pub proof fn computed_torques_are_the_ankles<F: Fn(Operation) -> u32>(
    fpu: F,
    p: Pipeline,
    side: bool,
    r: [u32; 2],
)
    requires
        call_ensures(Pipeline::compute_ankle_torques::<F>, (&p, side, &fpu), r),
    ensures
        r == p.ankle_torques(fpu, side),
{
}

/// The scalar product that is computed adds up the products of the coordinates.
pub proof fn computed_products_add_up<F: Fn(Operation) -> u32>(fpu: F, a: [u32; 3], b: [u32; 3], r: u32)
    requires
        accurate(fpu),
        tame_vector(a) && tame_vector(b),
        call_ensures(dot3::<F>, (&a, &b, &fpu), r),
    ensures
        ({
            let (x, y, z) = (
                scaled(a@[0]) * scaled(b@[0]),
                scaled(a@[1]) * scaled(b@[1]),
                scaled(a@[2]) * scaled(b@[2]),
            );
            &&& finite(r)
            &&& INTEGERS * size(scaled(r) * one() - (x + y + z)) <= 7 * (size(x) + size(y) + size(z)) + 6 * (
            INTEGERS * one())
        }),
{
    scalar_products_add_up(fpu, a, b);
}

/// The cross product that is computed follows the right hand.
pub proof fn computed_products_follow_the_right_hand<F: Fn(Operation) -> u32>(
    fpu: F,
    a: [u32; 3],
    b: [u32; 3],
    r: [u32; 3],
)
    requires
        accurate(fpu),
        tame_vector(a) && tame_vector(b),
        call_ensures(cross3::<F>, (&a, &b, &fpu), r),
    ensures
        ({
            let (ax, ay, az) = (scaled(a@[0]), scaled(a@[1]), scaled(a@[2]));
            let (bx, by, bz) = (scaled(b@[0]), scaled(b@[1]), scaled(b@[2]));
            &&& is_difference_of(r@[0], ay * bz, az * by)
            &&& is_difference_of(r@[1], az * bx, ax * bz)
            &&& is_difference_of(r@[2], ax * by, ay * bx)
        }),
{
    cross_products_follow_the_right_hand(fpu, a, b);
}

/// The functions of an angle and of a number are the series, the root and the winding back
/// that the laws of [`crate::ankle`] speak of.
pub proof fn computed_functions_are_the_series<F: Fn(Operation) -> u32>(
    fpu: F,
    x: u32,
    sin: u32,
    cos: u32,
    asin: u32,
    root: u32,
    wound: u32,
)
    requires
        call_ensures(sin_approx::<F>, (x, &fpu), sin),
        call_ensures(cos_approx::<F>, (x, &fpu), cos),
        call_ensures(asin_approx::<F>, (x, &fpu), asin),
        call_ensures(sqrt_approx::<F>, (x, &fpu), root),
        call_ensures(wrap_to_pi::<F>, (x, &fpu), wound),
    ensures
        sin == sine(fpu, x),
        cos == cosine(fpu, x),
        asin == arc_sine(fpu, x),
        root == square_root(fpu, x),
        wound == wrapped(fpu, x),
{
}

/// Inverse kinematics turns the pivots at the foot by the roll about the x axis, and then
/// by the pitch about the y axis.
#[verifier::spinoff_prover]
#[verifier::rlimit(60)]
pub proof fn computed_feet_roll_then_pitch<F: Fn(Operation) -> u32>(
    fpu: F,
    ankle: AnkleDecoupler,
    pitch: u32,
    roll: u32,
    r: IkResultAtom01,
    i: int,
)
    requires
        accurate(fpu),
        call_ensures(AnkleDecoupler::inverse_kinematics::<F>, (&ankle, pitch, roll, &fpu), r),
        0 <= i < 2,
        trigonometric(cosine(fpu, pitch)) && trigonometric(sine(fpu, pitch)),
        trigonometric(cosine(fpu, roll)) && trigonometric(sine(fpu, roll)),
        coordinate(ankle.links_of()@[i].r_c_0@[0]) && coordinate(ankle.links_of()@[i].r_c_0@[1])
            && coordinate(ankle.links_of()@[i].r_c_0@[2]),
    ensures
        is_turned(
            r.r_c@[i],
            ankle.links_of()@[i].r_c_0,
            scaled(cosine(fpu, pitch)),
            scaled(sine(fpu, pitch)),
            scaled(cosine(fpu, roll)),
            scaled(sine(fpu, roll)),
        ),
        r == linkage_pose(fpu, ankle.links_of(), pitch, roll),
{
    feet_roll_then_pitch(fpu, ankle.links_of(), pitch, roll, i);
}

/// The Jacobian that is computed is the one of the pose.
pub proof fn computed_jacobians_are_the_poses<F: Fn(Operation) -> u32>(
    fpu: F,
    ankle: AnkleDecoupler,
    ik: IkResultAtom01,
    pitch: u32,
    r: JacobianResult,
)
    requires
        call_ensures(AnkleDecoupler::jacobian::<F>, (&ankle, &ik, pitch, &fpu), r),
    ensures
        r == jacobian_at(fpu, ik, pitch),
{
}

/// What is clipped lies in the interval: a number beyond an end becomes that end, one
/// between the ends stays, and what is not a number becomes the middle.
pub proof fn clipped_numbers_lie_between<F: Fn(Operation) -> u32>(fpu: F, x: u32, lo: u32, hi: u32, r: u32)
    requires
        accurate(fpu),
        call_ensures(clip_f32::<F>, (x, lo, hi, &fpu), r),
        finite(lo) && size(scaled(lo)) <= 1000000 * one(),
        finite(hi) && size(scaled(hi)) <= 1000000 * one(),
        scaled(lo) <= scaled(hi),
    ensures
        !nan(x) && scaled(x) < scaled(lo) ==> scaled(r) == scaled(lo),
        !nan(x) && scaled(x) > scaled(hi) ==> scaled(r) == scaled(hi),
        !nan(x) && scaled(lo) <= scaled(x) <= scaled(hi) ==> r == x,
        nan(x) ==> finite(r) && INTEGERS * size(2 * scaled(r) - (scaled(lo) + scaled(hi))) <= 3 * size(
            scaled(lo) + scaled(hi),
        ) + 2 * INTEGERS,
{
    if nan(x) {
        middles_lie_halfway(fpu, lo, hi);
    } else {
        clamped_lies_between(x, lo, hi);
    }
}

/// The motor torques that are computed are those of the transposed Jacobian.
pub proof fn computed_torques_go_through_the_transpose<F: Fn(Operation) -> u32>(
    fpu: F,
    ankle: AnkleDecoupler,
    tau: [u32; 2],
    jac: JacobianResult,
    r: [u32; 2],
    i: int,
)
    requires
        accurate(fpu),
        call_ensures(AnkleDecoupler::joint_torque_to_motor::<F>, (&ankle, &tau, &jac, &fpu), r),
        0 <= i < 2,
        finite(tau@[0]) && size(scaled(tau@[0])) <= 1000000 * one(),
        finite(tau@[1]) && size(scaled(tau@[1])) <= 1000000 * one(),
        tame(jac.j_motor2joint@[0]@[i]) && tame(jac.j_motor2joint@[1]@[i]),
    ensures
        ({
            let j = jac.j_motor2joint;
            let (x, y) = (scaled(j@[0]@[i]) * scaled(tau@[0]), scaled(j@[1]@[i]) * scaled(tau@[1]));
            &&& finite(r@[i])
            &&& INTEGERS * size(scaled(r@[i]) * one() - (x + y)) <= 5 * (size(x) + size(y)) + 4 * (INTEGERS
                * one())
        }),
{
    torques_go_through_the_transposed_jacobian(fpu, tau, jac.j_motor2joint, i);
}

} // verus!
