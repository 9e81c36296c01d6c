//! What the steps of the pipeline leave behind.
use crate::arithmetic::{accurate, size, Operation, INTEGERS};
use crate::binary32::{finite, nan, one, scaled};
use crate::canproto::accuracy::{frames_hold_the_command, stands_for};
use crate::canproto::{CanFrame, MotorModel};
use crate::observation::stacked;
use crate::pipeline::accuracy::{
    finite_output_is_kept, gravity_points_down, numbers_are_cut_at_a_hundred, six_motors_are_reversed,
};
use crate::pipeline::{apply_sign, are_targets, compute_gravity_body, model_of, motor_model_for, Pipeline};
use vstd::prelude::*;

verus! {

/// Motors 1 to 4, 7 to 10 and 13 are of the smaller model, the others of the larger one.
pub proof fn nine_motors_are_small(idx: usize, r: MotorModel)
    requires
        call_ensures(motor_model_for, (idx,), r),
    ensures
        r is Dm4340P <==> idx == 0 || idx == 1 || idx == 2 || idx == 3 || idx == 6 || idx == 7 || idx == 8
            || idx == 9 || idx == 12,
{
}

/// The direction of gravity that is computed is the negated third row of the attitude's
/// matrix.
pub proof fn computed_gravity_points_down<F: Fn(Operation) -> u32>(fpu: F, quat: [u32; 4], r: [u32; 3])
    requires
        accurate(fpu),
        call_ensures(compute_gravity_body::<F>, (&quat, &fpu), r),
        finite(quat@[0]) && finite(quat@[1]) && finite(quat@[2]) && finite(quat@[3]),
        ({
            let (w, x, y, z) = (scaled(quat@[0]), scaled(quat@[1]), scaled(quat@[2]), scaled(quat@[3]));
            10 * size(w * w + x * x + y * y + z * z - one() * one()) <= one() * one()
        }),
    ensures
        ({
            let (w, x, y, z) = (scaled(quat@[0]), scaled(quat@[1]), scaled(quat@[2]), scaled(quat@[3]));
            let k = one();
            &&& INTEGERS * size(scaled(r@[0]) * k - 2 * (w * y - x * z)) <= 30 * (k * k)
            &&& INTEGERS * size(scaled(r@[1]) * k + 2 * (y * z + w * x)) <= 30 * (k * k)
            &&& INTEGERS * size(scaled(r@[2]) * k - (2 * (x * x + y * y) - k * k)) <= 30 * (k * k)
        }),
{
    gravity_points_down(fpu, quat@);
}

/// An output of the policy is kept if all of it is finite, and counts as zero otherwise.
/// The targets are those of what was kept, and nothing that was measured changes.
pub proof fn accepted_output_is_kept<F: Fn(Operation) -> u32>(
    p: &mut Pipeline,
    output: [u32; 23],
    fpu: F,
)
    requires
        call_ensures(Pipeline::accept::<F>, (p, &output, &fpu), ()),
    ensures
        (forall|i: int| 0 <= i < 23 ==> finite(#[trigger] output@[i])) ==> final(p).raw_action@ == output@,
        (exists|i: int| 0 <= i < 23 && !finite(#[trigger] output@[i])) ==> final(p).raw_action@ == Seq::new(
            23,
            |i: int| 0u32,
        ),
        are_targets(fpu, final(p).raw_action@, final(p).action@),
        final(p).imu == old(p).imu && final(p).joint == old(p).joint,
        final(p).obs == old(p).obs,
{
    finite_output_is_kept(output@);
}

/// Each frame of a control step carries the number of its motor, from 1 on, and holds the
/// command of that motor.
#[verifier::spinoff_prover]
#[verifier::rlimit(60)]
pub proof fn control_frames_hold_their_commands<F: Fn(Operation) -> u32>(
    fpu: F,
    p: Pipeline,
    frames: [CanFrame; 23],
    i: int,
)
    requires
        accurate(fpu),
        call_ensures(Pipeline::step_control::<F>, (&p, &fpu), frames),
        0 <= i < 23,
    ensures
        ({
            let cmd = p.command_of(i, p.ankle_torques(fpu, true)@, p.ankle_torques(fpu, false)@);
            let (d, k) = (frames@[i].data@, one());
            let small = i <= 3 || 6 <= i <= 9 || i == 12;
            let torque = if small {
                56 * k
            } else {
                400 * k
            };
            &&& frames@[i].id.0 == i + 1 && frames@[i].dlc == 8
            &&& stands_for(d[0] * 256 + d[1], cmd.pos, -25 * k, 25 * k, 65535)
            &&& stands_for((d[3] as int % 16) * 256 + d[4], cmd.kp, 0, 1000 * k, 4095)
            &&& stands_for(d[5] * 16 + d[6] as int / 16, cmd.kd, 0, 10 * k, 4095)
            &&& stands_for((d[6] as int % 16) * 256 + d[7], cmd.tau, -torque, torque, 4095)
        }),
{
    let cmd = p.command_of(i, p.ankle_torques(fpu, true)@, p.ankle_torques(fpu, false)@);
    frames_hold_the_command(fpu, (i + 1) as u8, model_of(i), cmd, frames@[i]);
}

/// A number that is turned into the direction of a motor has its sign flipped exactly for
/// the motors 9 to 12, 19 and 22.
pub proof fn signs_are_those_of_the_motors(idx: usize, bits: u32, r: u32)
    requires
        call_ensures(apply_sign, (idx, bits), r),
        idx < 23,
    ensures
        scaled(r) == if (8 <= idx <= 11) || idx == 18 || idx == 21 {
            -scaled(bits)
        } else {
            scaled(bits)
        },
        nan(r) == nan(bits),
{
    six_motors_are_reversed(idx as int, bits);
}

/// What is observed is added to the history, each number cut at 100, and the history is
/// laid out as input of the policy.
pub proof fn observed_numbers_are_cut<F: Fn(Operation) -> u32>(
    p: &mut Pipeline,
    cmd_vel: [u32; 3],
    fpu: F,
    i: int,
)
    requires
        call_ensures(Pipeline::observe::<F>, (p, &cmd_vel, &fpu), ()),
        0 <= i < old(p).observation(fpu, cmd_vel@).len(),
    ensures
        ({
            let x = old(p).observation(fpu, cmd_vel@)[i];
            let history = final(p).obs.history();
            let y = history.last()[i];
            &&& history.len() > 0
            &&& nan(x) ==> y == x
            &&& !nan(x) && scaled(x) < -100 * one() ==> scaled(y) == -100 * one()
            &&& !nan(x) && scaled(x) > 100 * one() ==> scaled(y) == 100 * one()
            &&& !nan(x) && -100 * one() <= scaled(x) <= 100 * one() ==> y == x
        }),
        final(p).stacked@ == stacked(final(p).obs.history()),
        final(p).imu == old(p).imu && final(p).joint == old(p).joint,
        final(p).raw_action == old(p).raw_action && final(p).action == old(p).action,
{
    numbers_are_cut_at_a_hundred(old(p).observation(fpu, cmd_vel@), i);
}

} // verus!
