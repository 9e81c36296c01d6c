//! Inference step and control step.
//!
//! The inference step builds an observation, adds it to the history, hands the
//! stacked history to the policy and turns its output into joint targets. The
//! control step turns joint targets and measurements into one command frame per
//! motor. Real numbers are bit patterns (see [`crate::binary32`]), computed by the
//! unit that is handed in (see [`crate::arithmetic`]).
use crate::ankle::{solution, AnkleDecoupler, FkResult, JacobianResult, Side};
use crate::arithmetic::{
    accurate, defined, difference, difference_of_products, lemma_difference, lemma_difference_error,
    lemma_one_is_large, lemma_product, lemma_product_error, lemma_products_error, lemma_scaled_up,
    lemma_size_of_product, lemma_sum_of_products, minus, minus_of_times, plus, plus_of_times, product,
    reach, respects_signs, size, sum, sum_of_products, times, Operation, INTEGERS, ONE, TWO,
};
use crate::binary32::{below, clamp, clamped, finite, is_finite, lemma_magnitude_order};
use crate::binary32::{negate, negated, negation_undoes_itself, one, same, scaled};
use crate::canproto::{
    encode_mit, encodes, CanFrame, CanId, MitCommand, MotorModel, KD_MAX, KP_MAX,
};
use crate::config::{
    joints_are_permuted, ACTION_SCALE, CLIP_ACTIONS, CLIP_ACTIONS_LOW, CONTROL_PERIOD_MS,
    DEFAULT_JOINT_ANGLES, INFERENCE_PERIOD_MS, KD, KP, MOTORS, MOTOR_SIGN, OBS_DIM, URDF2USD,
    USD2URDF,
};
use crate::observation::{extended, stacked, Observation, STACKED_DIM};
use vstd::arithmetic::power2::{lemma2_to64, lemma_pow2_adds};
use vstd::prelude::*;

pub mod accuracy;

verus! {

/// Numbers that the policy puts out.
pub const OUTPUT_DIM: usize = 23;

/// Numbers that the policy reads.
pub const INPUT_DIM: usize = STACKED_DIM;

/// Period of the inference step, in microseconds.
pub const INFERENCE_PERIOD_US: u32 = INFERENCE_PERIOD_MS * 1000;

/// Period of the control step, in microseconds.
pub const CONTROL_PERIOD_US: u32 = CONTROL_PERIOD_MS * 1000;

/// Attitude and rotation of the body: quaternion (w, x, y, z) and angular
/// velocity.
#[derive(Debug, Clone, Copy, PartialEq, Eq)]
pub struct ImuState {
    pub quat: [u32; 4],
    pub ang_vel: [u32; 3],
    pub updated: bool,
}

impl Default for ImuState {
    /// All zero.
    fn default() -> (r: Self)
        ensures
            r.quat@ == seq![0u32, 0u32, 0u32, 0u32],
            r.ang_vel@ == seq![0u32, 0u32, 0u32],
            !r.updated,
    {
        let r = ImuState { quat: [0; 4], ang_vel: [0; 3], updated: false };
        assert(r.quat@ =~= seq![0u32, 0u32, 0u32, 0u32]);
        assert(r.ang_vel@ =~= seq![0u32, 0u32, 0u32]);
        r
    }
}

/// Measurements of the joints.
#[derive(Debug, Clone, Copy, PartialEq, Eq)]
pub struct JointState {
    pub position: [u32; 23],
    pub velocity: [u32; 23],
    pub torque: [u32; 23],
    pub feedback_stale: bool,
}

/// As many zeros.
pub open spec fn zeros(n: nat) -> Seq<u32> {
    Seq::new(n, |i: int| 0u32)
}

impl Default for JointState {
    /// All zero.
    fn default() -> (r: Self)
        ensures
            r.position@ == zeros(23),
            r.velocity@ == zeros(23),
            r.torque@ == zeros(23),
            !r.feedback_stale,
    {
        let r = JointState {
            position: [0; 23],
            velocity: [0; 23],
            torque: [0; 23],
            feedback_stale: false,
        };
        assert(r.position@ =~= zeros(23));
        assert(r.velocity@ =~= zeros(23));
        assert(r.torque@ =~= zeros(23));
        r
    }
}

/// The motor belongs to an ankle.
pub open spec fn is_ankle(idx: int) -> bool {
    idx == 4 || idx == 5 || idx == 10 || idx == 11
}

/// First motor of the ankle on one side.
pub open spec fn ankle_base(side: Side) -> int {
    if side {
        4
    } else {
        10
    }
}

/// A number turned into the direction of a motor, or back.
pub open spec fn directed(idx: int, bits: u32) -> u32 {
    if MOTOR_SIGN@[idx] < 0 {
        negated(bits)
    } else {
        bits
    }
}

/// The model of a motor.
pub open spec fn model_of(idx: int) -> MotorModel {
    if 0 <= idx <= 3 || 6 <= idx <= 9 || idx == 12 {
        MotorModel::Dm4340P
    } else {
        MotorModel::Dm10010L
    }
}

/// Policy output as it is used: all zero if any number of it is not finite.
pub open spec fn guarded(output: Seq<u32>) -> Seq<u32> {
    if forall|i: int| 0 <= i < output.len() ==> finite(#[trigger] output[i]) {
        output
    } else {
        zeros(output.len())
    }
}

/// Each number limited to plus and minus 100; a NaN stays.
pub open spec fn limited(s: Seq<u32>) -> Seq<u32> {
    Seq::new(s.len(), |i: int| clamped(s[i], CLIP_ACTIONS_LOW, CLIP_ACTIONS))
}

/// Direction of gravity seen from the body: the world's `(0, 0, -1)` turned by the
/// inverse of the attitude. The inverse of the unit quaternion `(w, x, y, z)` is
/// its conjugate; turning by it takes `(0, 0, -1)` to the negated third column of
/// its matrix.
pub open spec fn gravity_of<F: Fn(Operation) -> u32>(fpu: F, quat: Seq<u32>) -> [u32; 3] {
    let w = quat[0];
    let x = negated(quat[1]);
    let y = negated(quat[2]);
    let z = negated(quat[3]);
    [
        negated(product(fpu, TWO, sum_of_products(fpu, x, z, w, y))),
        negated(product(fpu, TWO, difference_of_products(fpu, y, z, w, x))),
        difference(fpu, product(fpu, TWO, sum_of_products(fpu, x, x, y, y)), ONE),
    ]
}

/// Joint positions counted from the home pose.
pub open spec fn from_home<F: Fn(Operation) -> u32>(fpu: F, position: Seq<u32>) -> Seq<u32> {
    Seq::new(MOTORS as nat, |j: int| difference(fpu, position[j], DEFAULT_JOINT_ANGLES@[j]))
}

/// Target angle of each joint for a policy output: the output of the joint,
/// limited and scaled, counted from the home pose.
pub open spec fn are_targets<F: Fn(Operation) -> u32>(fpu: F, output: Seq<u32>, targets: Seq<u32>) -> bool {
    &&& targets.len() == MOTORS
    &&& forall|i: int|
        0 <= i < MOTORS ==> targets[#[trigger] USD2URDF@[i] as int] == sum(
            fpu,
            product(fpu, limited(output)[i], ACTION_SCALE),
            DEFAULT_JOINT_ANGLES@[USD2URDF@[i] as int],
        )
}

/// The model of a motor.
pub fn motor_model_for(motor_idx: usize) -> (r: MotorModel)
    ensures
        r == model_of(motor_idx as int),
{
    if motor_idx <= 3 || (6 <= motor_idx && motor_idx <= 9) || motor_idx == 12 {
        MotorModel::Dm4340P
    } else {
        MotorModel::Dm10010L
    }
}

/// Identifier of a motor on the bus: 1 to 23.
pub fn motor_id_for(idx: usize) -> (r: u8)
    requires
        idx < MOTORS,
    ensures
        r == idx + 1,
{
    (idx + 1) as u8
}

/// Computes the direction of gravity seen from the body.
pub fn compute_gravity_body<F: Fn(Operation) -> u32>(quat: &[u32; 4], fpu: &F) -> (r: [u32; 3])
    requires
        defined(*fpu),
    ensures
        r == gravity_of(*fpu, quat@),
{
    let w: u32 = quat[0];
    let x: u32 = negate(quat[1]);
    let y: u32 = negate(quat[2]);
    let z: u32 = negate(quat[3]);
    [
        negate(times(fpu, TWO, plus_of_times(fpu, x, z, w, y))),
        negate(times(fpu, TWO, minus_of_times(fpu, y, z, w, x))),
        minus(fpu, times(fpu, TWO, plus_of_times(fpu, x, x, y, y)), ONE),
    ]
}

/// A frame without identifier and bytes.
pub fn empty_frame() -> (r: CanFrame)
    ensures
        r.id == CanId(0),
        r.dlc == 0,
        r.data@ == seq![0u8, 0u8, 0u8, 0u8, 0u8, 0u8, 0u8, 0u8],
{
    let r = CanFrame { id: CanId(0), dlc: 0, data: [0; 8] };
    assert(r.data@ =~= seq![0u8, 0u8, 0u8, 0u8, 0u8, 0u8, 0u8, 0u8]);
    r
}

/// Turns a number into the direction of a motor, or back.
pub fn apply_sign(motor_idx: usize, bits: u32) -> (r: u32)
    requires
        motor_idx < MOTORS,
    ensures
        r == directed(motor_idx as int, bits),
{
    if MOTOR_SIGN[motor_idx] < 0 {
        negate(bits)
    } else {
        bits
    }
}

/// Replaces a policy output by zeros if any number of it is not finite.
pub fn guard_output(output: &[u32; 23]) -> (r: [u32; 23])
    ensures
        r@ == guarded(output@),
{
    let mut i: usize = 0;
    while i < OUTPUT_DIM
        invariant
            i <= OUTPUT_DIM,
            forall|k: int| 0 <= k < i ==> finite(#[trigger] output@[k]),
        decreases OUTPUT_DIM - i,
    {
        if !is_finite(output[i]) {
            let r: [u32; 23] = [0; 23];
            assert(!finite(output@[i as int]));
            assert(r@ =~= zeros(23));
            return r;
        }
        i += 1;
    }
    *output
}

/// Computes the target angle of each joint from a policy output.
pub fn joint_targets<F: Fn(Operation) -> u32>(output: &[u32; 23], fpu: &F) -> (r: [u32; 23])
    requires
        defined(*fpu),
    ensures
        are_targets(*fpu, output@, r@),
{
    let mut r: [u32; 23] = [0; 23];
    let mut i: usize = 0;
    proof {
        joints_are_permuted();
    }
    while i < OUTPUT_DIM
        invariant
            i <= OUTPUT_DIM,
            defined(*fpu),
            forall|k: int| 0 <= k < MOTORS ==> #[trigger] USD2URDF@[k] < MOTORS,
            forall|k: int, l: int|
                0 <= k < l < MOTORS ==> #[trigger] USD2URDF@[k] != #[trigger] USD2URDF@[l],
            forall|k: int|
                0 <= k < i ==> r@[#[trigger] USD2URDF@[k] as int] == sum(
                    *fpu,
                    product(*fpu, limited(output@)[k], ACTION_SCALE),
                    DEFAULT_JOINT_ANGLES@[USD2URDF@[k] as int],
                ),
        decreases OUTPUT_DIM - i,
    {
        let joint: usize = USD2URDF[i];
        let action: u32 = clamp(output[i], CLIP_ACTIONS_LOW, CLIP_ACTIONS);
        r[joint] = plus(fpu, times(fpu, action, ACTION_SCALE), DEFAULT_JOINT_ANGLES[joint]);
        i += 1;
    }
    r
}

/// Torque of a joint by its PD law: `kp (target - angle) + kd (0 - velocity)`.
pub open spec fn pd_torque<F: Fn(Operation) -> u32>(fpu: F, idx: int, target: u32, angle: u32, velocity: u32) -> u32 {
    sum_of_products(
        fpu,
        KP@[idx],
        difference(fpu, target, angle),
        KD@[idx],
        difference(fpu, 0, velocity),
    )
}

/// Computes the torque of a joint.
fn joint_torque<F: Fn(Operation) -> u32>(idx: usize, target: u32, angle: u32, velocity: u32, fpu: &F) -> (r: u32)
    requires
        defined(*fpu),
        idx < MOTORS,
    ensures
        r == pd_torque(*fpu, idx as int, target, angle, velocity),
{
    plus_of_times(fpu, KP[idx], minus(fpu, target, angle), KD[idx], minus(fpu, 0, velocity))
}

/// State of inference and control.
pub struct Pipeline {
    pub obs: Observation,
    pub imu: ImuState,
    pub joint: JointState,
    /// Target angle of each joint.
    pub action: [u32; 23],
    /// Last output of the policy.
    pub raw_action: [u32; 23],
    /// Last input of the policy.
    pub stacked: [u32; 780],
    pub ankle_left: AnkleDecoupler,
    pub ankle_right: AnkleDecoupler,
}

impl Default for Pipeline {
    /// The state at start.
    fn default() -> (r: Self)
        ensures
            r.wf(),
            r.is_fresh(),
    {
        Self::new()
    }
}

impl Pipeline {
    /// The history is well formed and the ankles are where they belong.
    pub open spec fn wf(&self) -> bool {
        &&& self.obs.wf()
        &&& self.ankle_left.wf() && self.ankle_left.side
        &&& self.ankle_right.wf() && !self.ankle_right.side
    }

    /// Nothing was measured, inferred or commanded yet.
    pub open spec fn is_fresh(&self) -> bool {
        &&& self.obs.history() == Seq::<Seq<u32>>::empty()
        &&& self.imu.quat@ == zeros(4)
        &&& self.imu.ang_vel@ == zeros(3)
        &&& !self.imu.updated
        &&& self.joint.position@ == zeros(23)
        &&& self.joint.velocity@ == zeros(23)
        &&& self.joint.torque@ == zeros(23)
        &&& !self.joint.feedback_stale
        &&& self.action@ == zeros(23)
        &&& self.raw_action@ == zeros(23)
        &&& self.stacked@ == zeros(780)
    }

    /// The state at start.
    pub fn new() -> (r: Self)
        ensures
            r.wf(),
            r.is_fresh(),
    {
        let r = Pipeline {
            obs: Observation::new(),
            imu: ImuState::default(),
            joint: JointState::default(),
            action: [0; 23],
            raw_action: [0; 23],
            stacked: [0; 780],
            ankle_left: AnkleDecoupler::new(true),
            ankle_right: AnkleDecoupler::new(false),
        };
        assert(r.imu.quat@ =~= zeros(4));
        assert(r.imu.ang_vel@ =~= zeros(3));
        assert(r.action@ =~= zeros(23));
        assert(r.raw_action@ =~= zeros(23));
        assert(r.stacked@ =~= zeros(780));
        r
    }

    /// The observation: angular velocity, gravity in body direction, commanded
    /// velocity, joint positions from the home pose, joint velocities, last
    /// output of the policy.
    pub open spec fn observation<F: Fn(Operation) -> u32>(&self, fpu: F, cmd_vel: Seq<u32>) -> Seq<u32> {
        self.imu.ang_vel@ + gravity_of(fpu, self.imu.quat@)@ + cmd_vel + from_home(
            fpu,
            self.joint.position@,
        ) + self.joint.velocity@ + self.raw_action@
    }

    /// Builds the observation.
    pub fn build_observation<F: Fn(Operation) -> u32>(&self, cmd_vel: &[u32; 3], out: &mut [u32; 78], fpu: &F)
        requires
            defined(*fpu),
        ensures
            final(out)@ == self.observation(*fpu, cmd_vel@),
    {
        let gravity: [u32; 3] = compute_gravity_body(&self.imu.quat, fpu);
        let ghost goal = self.observation(*fpu, cmd_vel@);
        let mut i: usize = 0;
        while i < OBS_DIM
            invariant
                i <= OBS_DIM,
                defined(*fpu),
                gravity == gravity_of(*fpu, self.imu.quat@),
                goal == self.observation(*fpu, cmd_vel@),
                forall|k: int| 0 <= k < i ==> #[trigger] out@[k] == goal[k],
            decreases OBS_DIM - i,
        {
            out[i] = if i < 3 {
                self.imu.ang_vel[i]
            } else if i < 6 {
                gravity[i - 3]
            } else if i < 9 {
                cmd_vel[i - 6]
            } else if i < 32 {
                minus(fpu, self.joint.position[i - 9], DEFAULT_JOINT_ANGLES[i - 9])
            } else if i < 55 {
                self.joint.velocity[i - 32]
            } else {
                self.raw_action[i - 55]
            };
            i += 1;
        }
        assert(out@ =~= goal);
    }

    /// First half of the inference step: limits the observation, adds it to the
    /// history and stacks the history as input of the policy.
    pub fn observe<F: Fn(Operation) -> u32>(&mut self, cmd_vel: &[u32; 3], fpu: &F)
        requires
            old(self).wf(),
            defined(*fpu),
        ensures
            final(self).wf(),
            final(self).obs.history() == extended(
                old(self).obs.history(),
                limited(old(self).observation(*fpu, cmd_vel@)),
            ),
            final(self).stacked@ == stacked(final(self).obs.history()),
            final(self).imu == old(self).imu,
            final(self).joint == old(self).joint,
            final(self).action == old(self).action,
            final(self).raw_action == old(self).raw_action,
            final(self).ankle_left == old(self).ankle_left,
            final(self).ankle_right == old(self).ankle_right,
    {
        let mut frame: [u32; 78] = [0; 78];
        self.build_observation(cmd_vel, &mut frame, fpu);
        let ghost whole = frame@;
        let mut i: usize = 0;
        while i < OBS_DIM
            invariant
                i <= OBS_DIM,
                whole.len() == OBS_DIM,
                forall|k: int|
                    0 <= k < OBS_DIM ==> #[trigger] frame@[k] == if k < i {
                        limited(whole)[k]
                    } else {
                        whole[k]
                    },
            decreases OBS_DIM - i,
        {
            let x: u32 = frame[i];
            frame[i] = clamp(x, CLIP_ACTIONS_LOW, CLIP_ACTIONS);
            i += 1;
        }
        assert(frame@ =~= limited(whole));
        self.obs.push(&frame);
        self.obs.flatten_into(&mut self.stacked);
    }

    /// Second half of the inference step, once the policy has answered: keeps its
    /// output, or zeros if it is not finite, and derives the joint targets.
    pub fn accept<F: Fn(Operation) -> u32>(&mut self, output: &[u32; 23], fpu: &F)
        requires
            old(self).wf(),
            defined(*fpu),
        ensures
            final(self).wf(),
            final(self).raw_action@ == guarded(output@),
            are_targets(*fpu, guarded(output@), final(self).action@),
            final(self).obs == old(self).obs,
            final(self).imu == old(self).imu,
            final(self).joint == old(self).joint,
            final(self).stacked == old(self).stacked,
            final(self).ankle_left == old(self).ankle_left,
            final(self).ankle_right == old(self).ankle_right,
    {
        self.raw_action = guard_output(output);
        self.action = joint_targets(&self.raw_action, fpu);
    }

    /// One inference step. `forward` is the policy; `output` in the contract is
    /// what it gave.
    pub fn step_inference<P, F>(&mut self, cmd_vel: &[u32; 3], forward: &P, fpu: &F) where
        P: Fn(&[u32; 780]) -> [u32; 23],
        F: Fn(Operation) -> u32,

        requires
            old(self).wf(),
            forall|x: &[u32; 780]| call_requires(*forward, (x,)),
            defined(*fpu),
        ensures
            final(self).wf(),
            final(self).obs.history() == extended(
                old(self).obs.history(),
                limited(old(self).observation(*fpu, cmd_vel@)),
            ),
            final(self).stacked@ == stacked(final(self).obs.history()),
            exists|output: [u32; 23]|
                {
                    &&& #[trigger] call_ensures(*forward, (&final(self).stacked,), output)
                    &&& final(self).raw_action@ == guarded(output@)
                    &&& are_targets(*fpu, guarded(output@), final(self).action@)
                },
            final(self).imu == old(self).imu,
            final(self).joint == old(self).joint,
            final(self).ankle_left == old(self).ankle_left,
            final(self).ankle_right == old(self).ankle_right,
    {
        self.observe(cmd_vel, fpu);
        let output: [u32; 23] = forward(&self.stacked);
        self.accept(&output, fpu);
    }

    /// Joint angles of an ankle, found from its motor angles, which count in joint
    /// direction.
    pub open spec fn ankle_pose_of<F: Fn(Operation) -> u32>(&self, fpu: F, side: Side) -> FkResult {
        let ankle = if side {
            self.ankle_left
        } else {
            self.ankle_right
        };
        let base = ankle_base(side);
        let motor_angles = [
            directed(base, self.joint.position@[base]),
            directed(base + 1, self.joint.position@[base + 1]),
        ];
        solution(fpu, ankle.links_of(), motor_angles, 0, 0, 0)
    }

    /// Finds the joint angles of an ankle.
    pub fn ankle_pose<F: Fn(Operation) -> u32>(&self, side: Side, fpu: &F) -> (r: FkResult)
        requires
            defined(*fpu),
        ensures
            r == self.ankle_pose_of(*fpu, side),
    {
        let ankle = if side {
            &self.ankle_left
        } else {
            &self.ankle_right
        };
        let base: usize = if side {
            4
        } else {
            10
        };
        let motor_angles: [u32; 2] = [
            apply_sign(base, self.joint.position[base]),
            apply_sign(base + 1, self.joint.position[base + 1]),
        ];
        ankle.forward_kinematics(&motor_angles, fpu)
    }

    /// Torques of the two motors of an ankle: the joint angles are found from the
    /// motor angles, a PD law on them gives joint torques, and the Jacobian turns
    /// those into motor torques. Motor velocities count in joint direction.
    pub open spec fn ankle_torques<F: Fn(Operation) -> u32>(&self, fpu: F, side: Side) -> [u32; 2] {
        let base = ankle_base(side);
        let fk = self.ankle_pose_of(fpu, side);
        let tau_joint = [
            pd_torque(
                fpu,
                base,
                self.action@[base],
                fk.pitch,
                directed(base, self.joint.velocity@[base]),
            ),
            pd_torque(
                fpu,
                base + 1,
                self.action@[base + 1],
                fk.roll,
                directed(base + 1, self.joint.velocity@[base + 1]),
            ),
        ];
        AnkleDecoupler::motor_torques(fpu, tau_joint, fk.jacobian)
    }

    /// Computes the torques of the two motors of an ankle.
    pub fn compute_ankle_torques<F: Fn(Operation) -> u32>(&self, side: Side, fpu: &F) -> (r: [u32; 2])
        requires
            defined(*fpu),
        ensures
            r == self.ankle_torques(*fpu, side),
    {
        let ankle = if side {
            &self.ankle_left
        } else {
            &self.ankle_right
        };
        let base: usize = if side {
            4
        } else {
            10
        };
        let pitch_vel: u32 = apply_sign(base, self.joint.velocity[base]);
        let roll_vel: u32 = apply_sign(base + 1, self.joint.velocity[base + 1]);
        let fk = self.ankle_pose(side, fpu);
        let tau_joint: [u32; 2] = [
            joint_torque(base, self.action[base], fk.pitch, pitch_vel, fpu),
            joint_torque(base + 1, self.action[base + 1], fk.roll, roll_vel, fpu),
        ];
        ankle.joint_torque_to_motor(&tau_joint, &JacobianResult::from(fk.jacobian), fpu)
    }

    /// The command of a motor. An ankle motor is given its torque and nothing
    /// else; any other motor is held at the target of its joint with its gains.
    pub open spec fn command_of(&self, idx: int, left: Seq<u32>, right: Seq<u32>) -> MitCommand {
        if is_ankle(idx) {
            MitCommand {
                pos: 0,
                vel: 0,
                kp: 0,
                kd: 0,
                tau: directed(
                    idx,
                    if idx < 10 {
                        left[idx - 4]
                    } else {
                        right[idx - 10]
                    },
                ),
            }
        } else {
            MitCommand {
                pos: directed(idx, self.action@[idx]),
                vel: 0,
                kp: KP@[idx],
                kd: KD@[idx],
                tau: 0,
            }
        }
    }

    /// The command of a motor, given the torques of the left and of the right
    /// ankle.
    pub fn motor_command(&self, idx: usize, left: &[u32; 2], right: &[u32; 2]) -> (r: MitCommand)
        requires
            idx < MOTORS,
        ensures
            r == self.command_of(idx as int, left@, right@),
    {
        if idx == 4 || idx == 5 || idx == 10 || idx == 11 {
            let tau: u32 = if idx < 10 {
                left[idx - 4]
            } else {
                right[idx - 10]
            };
            MitCommand { pos: 0, vel: 0, kp: 0, kd: 0, tau: apply_sign(idx, tau) }
        } else {
            MitCommand {
                pos: apply_sign(idx, self.action[idx]),
                vel: 0,
                kp: KP[idx],
                kd: KD[idx],
                tau: 0,
            }
        }
    }

    /// One control step: the command frames of all motors, in the order of the
    /// motors.
    pub fn step_control<F: Fn(Operation) -> u32>(&self, fpu: &F) -> (r: [CanFrame; 23])
        requires
            defined(*fpu),
        ensures
            forall|i: int|
                0 <= i < MOTORS ==> encodes(
                    *fpu,
                    (i + 1) as u8,
                    model_of(i),
                    self.command_of(
                        i,
                        self.ankle_torques(*fpu, true)@,
                        self.ankle_torques(*fpu, false)@,
                    ),
                    #[trigger] r@[i],
                ),
    {
        let left: [u32; 2] = self.compute_ankle_torques(true, fpu);
        let right: [u32; 2] = self.compute_ankle_torques(false, fpu);
        let mut frames: [CanFrame; 23] = [empty_frame(); 23];
        let mut i: usize = 0;
        while i < MOTORS
            invariant
                i <= MOTORS,
                defined(*fpu),
                forall|k: int|
                    0 <= k < i ==> encodes(
                        *fpu,
                        (k + 1) as u8,
                        model_of(k),
                        self.command_of(k, left@, right@),
                        #[trigger] frames@[k],
                    ),
            decreases MOTORS - i,
        {
            let cmd = self.motor_command(i, &left, &right);
            frames[i] = encode_mit(motor_id_for(i), motor_model_for(i), &cmd, fpu);
            i += 1;
        }
        frames
    }
}

/// The gains of every motor lie above zero and within the range of their codes,
/// so no gain is ever cut on its way into a frame.
pub proof fn gains_fit_their_codes(idx: int)
    requires
        0 <= idx < MOTORS,
    ensures
        below(0, KP@[idx]),
        !below(KP_MAX, KP@[idx]),
        below(0, KD@[idx]),
        !below(KD_MAX, KD@[idx]),
{
    assert(0 < KP@[idx] < KP_MAX && 0 < KD@[idx] <= KD_MAX) by {
        assert(0 < KP@[0] < KP_MAX && 0 < KD@[0] <= KD_MAX);
        assert(0 < KP@[1] < KP_MAX && 0 < KD@[1] <= KD_MAX);
        assert(0 < KP@[2] < KP_MAX && 0 < KD@[2] <= KD_MAX);
        assert(0 < KP@[3] < KP_MAX && 0 < KD@[3] <= KD_MAX);
        assert(0 < KP@[4] < KP_MAX && 0 < KD@[4] <= KD_MAX);
        assert(0 < KP@[5] < KP_MAX && 0 < KD@[5] <= KD_MAX);
        assert(0 < KP@[6] < KP_MAX && 0 < KD@[6] <= KD_MAX);
        assert(0 < KP@[7] < KP_MAX && 0 < KD@[7] <= KD_MAX);
        assert(0 < KP@[8] < KP_MAX && 0 < KD@[8] <= KD_MAX);
        assert(0 < KP@[9] < KP_MAX && 0 < KD@[9] <= KD_MAX);
        assert(0 < KP@[10] < KP_MAX && 0 < KD@[10] <= KD_MAX);
        assert(0 < KP@[11] < KP_MAX && 0 < KD@[11] <= KD_MAX);
        assert(0 < KP@[12] < KP_MAX && 0 < KD@[12] <= KD_MAX);
        assert(0 < KP@[13] < KP_MAX && 0 < KD@[13] <= KD_MAX);
        assert(0 < KP@[14] < KP_MAX && 0 < KD@[14] <= KD_MAX);
        assert(0 < KP@[15] < KP_MAX && 0 < KD@[15] <= KD_MAX);
        assert(0 < KP@[16] < KP_MAX && 0 < KD@[16] <= KD_MAX);
        assert(0 < KP@[17] < KP_MAX && 0 < KD@[17] <= KD_MAX);
        assert(0 < KP@[18] < KP_MAX && 0 < KD@[18] <= KD_MAX);
        assert(0 < KP@[19] < KP_MAX && 0 < KD@[19] <= KD_MAX);
        assert(0 < KP@[20] < KP_MAX && 0 < KD@[20] <= KD_MAX);
        assert(0 < KP@[21] < KP_MAX && 0 < KD@[21] <= KD_MAX);
        assert(0 < KP@[22] < KP_MAX && 0 < KD@[22] <= KD_MAX);
        assert(idx == 0 || idx == 1 || idx == 2 || idx == 3 || idx == 4 || idx == 5 || idx == 6 || idx == 7 || idx == 8 || idx == 9 || idx == 10 || idx == 11 || idx == 12 || idx == 13 || idx == 14 || idx == 15 || idx == 16 || idx == 17 || idx == 18 || idx == 19 || idx == 20 || idx == 21 || idx == 22);
    }
    lemma_magnitude_order(0, KP@[idx] as int);
    lemma_magnitude_order(KP@[idx] as int, KP_MAX as int);
    lemma_magnitude_order(0, KD@[idx] as int);
    if KD@[idx] < KD_MAX {
        lemma_magnitude_order(KD@[idx] as int, KD_MAX as int);
    }
}

/// The four ankle motors are given torque and no position; the other nineteen
/// are given a position with a gain above zero and no torque.
pub proof fn ankles_get_torque_others_position(
    p: Pipeline,
    idx: int,
    left: Seq<u32>,
    right: Seq<u32>,
)
    requires
        0 <= idx < MOTORS,
    ensures
        is_ankle(idx) ==> {
            let cmd = p.command_of(idx, left, right);
            cmd.pos == 0 && cmd.vel == 0 && cmd.kp == 0 && cmd.kd == 0
        },
        !is_ankle(idx) ==> {
            let cmd = p.command_of(idx, left, right);
            cmd.tau == 0 && cmd.vel == 0 && below(0, cmd.kp) && below(0, cmd.kd)
        },
{
    gains_fit_their_codes(idx);
}

/// Turning a number into the direction of a motor and back changes nothing.
pub proof fn direction_undoes_itself(idx: int, bits: u32)
    ensures
        directed(idx, directed(idx, bits)) == bits,
{
}

/// A policy output with anything in it that is not finite commands the home
/// pose: it counts as all zeros. A finite one is taken as it is.
pub proof fn bad_output_counts_as_zero(output: Seq<u32>)
    ensures
        forall|i: int| 0 <= i < output.len() ==> finite(#[trigger] guarded(output)[i]),
        (exists|i: int| 0 <= i < output.len() && !finite(#[trigger] output[i])) ==> guarded(output)
            == zeros(output.len()),
        guarded(guarded(output)) == guarded(output),
{
    assert(guarded(guarded(output)) =~= guarded(output));
}

/// A quaternion and its negation are the same rotation, and give the same direction
/// of gravity, with a unit that respects signs.
pub proof fn opposite_quaternions_agree<F: Fn(Operation) -> u32>(fpu: F, q: Seq<u32>, r: Seq<u32>)
    requires
        respects_signs(fpu),
        q.len() == 4,
        r == Seq::new(4, |i: int| negated(q[i])),
    ensures
        forall|i: int|
            0 <= i < 3 ==> same(#[trigger] gravity_of(fpu, q)@[i], gravity_of(fpu, r)@[i]),
{
    let (w, x, y, z) = (q[0], negated(q[1]), negated(q[2]), negated(q[3]));
    let (w1, x1, y1, z1) = (r[0], negated(r[1]), negated(r[2]), negated(r[3]));
    negation_undoes_itself(w);
    negation_undoes_itself(q[1]);
    negation_undoes_itself(q[2]);
    negation_undoes_itself(q[3]);
    lemma_sum_of_products(fpu, true, true, false, (x, z, w, y), (x1, z1, w1, y1));
    lemma_sum_of_products(fpu, true, true, false, (y, z, w, x), (y1, z1, w1, x1));
    lemma_sum_of_products(fpu, true, true, false, (x, x, y, y), (x1, x1, y1, y1));
    let (a, a1) = (sum_of_products(fpu, x, z, w, y), sum_of_products(fpu, x1, z1, w1, y1));
    let (b, b1) = (
        difference_of_products(fpu, y, z, w, x),
        difference_of_products(fpu, y1, z1, w1, x1),
    );
    let (c, c1) = (sum_of_products(fpu, x, x, y, y), sum_of_products(fpu, x1, x1, y1, y1));
    lemma_product(fpu, false, false, TWO, a, TWO, a1);
    lemma_product(fpu, false, false, TWO, b, TWO, b1);
    lemma_product(fpu, false, false, TWO, c, TWO, c1);
    lemma_difference(fpu, false, product(fpu, TWO, c), ONE, product(fpu, TWO, c1), ONE);
    negation_undoes_itself(product(fpu, TWO, a));
    negation_undoes_itself(product(fpu, TWO, a1));
    negation_undoes_itself(product(fpu, TWO, b));
    negation_undoes_itself(product(fpu, TWO, b1));
}

/// The length of a vector, squared.
pub open spec fn squared_length(v: Seq<u32>) -> int {
    scaled(v[0]) * scaled(v[0]) + scaled(v[1]) * scaled(v[1]) + scaled(v[2]) * scaled(v[2])
}

/// The length of a quaternion, squared.
pub open spec fn squared_norm(q: Seq<u32>) -> int {
    scaled(q[0]) * scaled(q[0]) + scaled(q[1]) * scaled(q[1]) + scaled(q[2]) * scaled(q[2])
        + scaled(q[3]) * scaled(q[3])
}

/// Half the product of two numbers is at most the sum of their squares.
pub proof fn lemma_mean(a: int, b: int)
    ensures
        2 * size(a * b) <= a * a + b * b,
{
    assert(2 * size(a * b) <= a * a + b * b) by (nonlinear_arith);
}

/// The exact direction: its squared length is that of the quaternion, squared.
proof fn lemma_exact_direction(w: int, x: int, y: int, z: int)
    ensures
        ({
            let (s, t) = (x * x + y * y, w * w + z * z);
            let (a, b) = (2 * (x * z + w * y), 2 * (y * z - w * x));
            a * a + b * b + (s - t) * (s - t) == (s + t) * (s + t)
        }),
{
    let (s, t) = (x * x + y * y, w * w + z * z);
    let (a, b) = (2 * (x * z + w * y), 2 * (y * z - w * x));
    let (xz, wy, yz, wx) = (x * z, w * y, y * z, w * x);
    assert(xz * wy == yz * wx) by (nonlinear_arith)
        requires
            xz == x * z,
            wy == w * y,
            yz == y * z,
            wx == w * x,
    ;
    assert(a * a + b * b == 4 * (xz * xz + wy * wy + yz * yz + wx * wx)) by (nonlinear_arith)
        requires
            a == 2 * (xz + wy),
            b == 2 * (yz - wx),
            xz * wy == yz * wx,
    ;
    let (ww, xx, yy, zz) = (w * w, x * x, y * y, z * z);
    assert(xz * xz == xx * zz) by (nonlinear_arith)
        requires
            xz == x * z,
            xx == x * x,
            zz == z * z,
    ;
    assert(wy * wy == yy * ww) by (nonlinear_arith)
        requires
            wy == w * y,
            yy == y * y,
            ww == w * w,
    ;
    assert(yz * yz == yy * zz) by (nonlinear_arith)
        requires
            yz == y * z,
            yy == y * y,
            zz == z * z,
    ;
    assert(wx * wx == xx * ww) by (nonlinear_arith)
        requires
            wx == w * x,
            xx == x * x,
            ww == w * w,
    ;
    assert((xx + yy) * (ww + zz) == xx * zz + yy * ww + yy * zz + xx * ww) by (nonlinear_arith);
    assert(4 * (s * t) + (s - t) * (s - t) == (s + t) * (s + t)) by (nonlinear_arith);
}

/// The exact direction of a quaternion that is nearly of unit length is nearly of
/// unit length.
proof fn lemma_exact_length(w: int, x: int, y: int, z: int, k2: int)
    requires
        10 * size(w * w + x * x + y * y + z * z - k2) <= k2,
    ensures
        ({
            let off = w * w + x * x + y * y + z * z - k2;
            let (a, b) = (2 * (x * z + w * y), 2 * (y * z - w * x));
            let c = 2 * (x * x + y * y) - k2;
            &&& 10 * size(a) <= 13 * k2 && 10 * size(b) <= 13 * k2 && 10 * size(c) <= 13 * k2
            &&& size(a * a + b * b + c * c - k2 * k2) <= 5 * (k2 * size(off))
        }),
{
    let (s, t) = (x * x + y * y, w * w + z * z);
    let off = s + t - k2;
    let (a, b, c) = (2 * (x * z + w * y), 2 * (y * z - w * x), 2 * s - k2);
    assert(0 <= w * w && 0 <= x * x && 0 <= y * y && 0 <= z * z) by (nonlinear_arith);
    lemma_mean(x, z);
    lemma_mean(w, y);
    lemma_mean(y, z);
    lemma_mean(w, x);
    lemma_exact_direction(w, x, y, z);
    let m = s - t;
    assert(c == m + off);
    assert((m + off) * (m + off) == m * m + off * (2 * m + off)) by (nonlinear_arith);
    assert((s + t) * (s + t) == k2 * k2 + off * (2 * k2 + off)) by (nonlinear_arith)
        requires
            s + t == k2 + off,
    ;
    assert(off * (2 * m + off) + off * (2 * k2 + off) == off * (2 * m + 2 * k2 + 2 * off))
        by (nonlinear_arith);
    lemma_size_of_product(off, 2 * m + 2 * k2 + 2 * off, size(off), 5 * k2);
    assert(size(off) * (5 * k2) == 5 * (k2 * size(off))) by (nonlinear_arith);
}

/// Squares of two numbers that are close are close.
proof fn lemma_close_squares(g: int, e: int, k2: int)
    requires
        0 < k2,
        INTEGERS * size(g - e) <= 30 * k2,
        10 * size(e) <= 13 * k2,
    ensures
        INTEGERS * size(g * g - e * e) <= 90 * (k2 * k2),
{
    assert(g * g - e * e == (g - e) * (g + e)) by (nonlinear_arith);
    assert(size(g + e) <= 3 * k2);
    lemma_size_of_product(INTEGERS * (g - e), g + e, 30 * k2, 3 * k2);
    assert((INTEGERS * (g - e)) * (g + e) == INTEGERS * ((g - e) * (g + e))) by (nonlinear_arith);
    assert((30 * k2) * (3 * k2) == 90 * (k2 * k2)) by (nonlinear_arith);
}

/// The double of a number, first factor first.
proof fn lemma_twice<F: Fn(Operation) -> u32>(fpu: F, a: u32)
    requires
        accurate(fpu),
        finite(a),
        size(scaled(a)) <= 3 * one(),
    ensures
        finite(product(fpu, TWO, a)),
        INTEGERS * size(scaled(product(fpu, TWO, a)) - 2 * scaled(a)) <= 7 * one(),
{
    let k = one();
    let (x, p) = (scaled(a), scaled(product(fpu, TWO, a)));
    lemma_one_is_large();
    lemma_two();
    assert(scaled(TWO) * x == 2 * (k * x)) by (nonlinear_arith)
        requires
            scaled(TWO) == 2 * k,
    ;
    lemma_size_of_product(k, x, k, 3 * k);
    assert(2 * (k * (3 * k)) <= reach() * k) by (nonlinear_arith)
        requires
            reach() == 0x1_0000_0000_0000_0000 * k,
            k > 0,
    ;
    lemma_product_error(fpu, TWO, a);
    assert(p * k - 2 * (k * x) == (p - 2 * x) * k) by (nonlinear_arith);
    assert(size((p - 2 * x) * k) == size(p - 2 * x) * k) by (nonlinear_arith)
        requires
            k > 0,
    ;
    assert(INTEGERS * size(p - 2 * x) <= 7 * k) by (nonlinear_arith)
        requires
            INTEGERS * (size(p - 2 * x) * k) <= 2 * (k * (3 * k)) + INTEGERS * k,
            k >= 0x1_0000_0000_0000_0000,
    ;
}

/// Twice a number that is close to `e`, in squares of steps, is close to twice that.
pub proof fn lemma_doubled<F: Fn(Operation) -> u32>(fpu: F, a: u32, e: int)
    requires
        accurate(fpu),
        finite(a),
        size(scaled(a)) <= 3 * one(),
        INTEGERS * size(scaled(a) * one() - e) <= 6 * (one() * one()),
    ensures
        finite(product(fpu, TWO, a)),
        size(scaled(product(fpu, TWO, a))) <= 7 * one(),
        INTEGERS * size(scaled(product(fpu, TWO, a)) * one() - 2 * e) <= 19 * (one() * one()),
{
    let (k, x, d) = (one(), scaled(a), scaled(product(fpu, TWO, a)));
    lemma_one_is_large();
    lemma_twice(fpu, a);
    lemma_scaled_up(d - 2 * x, 7, k);
    assert(d * k - 2 * e == (d - 2 * x) * k + 2 * (x * k - e)) by (nonlinear_arith);
}

/// The numbers one and two.
pub proof fn lemma_two()
    ensures
        scaled(ONE) == one(),
        scaled(TWO) == 2 * one(),
{
    lemma2_to64();
    lemma_pow2_adds(23, 126);
    lemma_pow2_adds(23, 127);
    lemma_pow2_adds(1, 149);
}

/// With a unit that is accurate, gravity seen from an attitude is a unit vector: the
/// square of its length is off from one by at most five times what that of the
/// quaternion is off, if that is no more than a tenth, and by one part in 60000 of
/// rounding.
#[verifier::spinoff_prover]
#[verifier::rlimit(60)]
pub proof fn gravity_has_unit_length<F: Fn(Operation) -> u32>(fpu: F, q: Seq<u32>)
    requires
        accurate(fpu),
        q.len() == 4,
        finite(q[0]) && finite(q[1]) && finite(q[2]) && finite(q[3]),
        10 * size(squared_norm(q) - one() * one()) <= one() * one(),
    ensures
        INTEGERS * size(squared_length(gravity_of(fpu, q)@) - one() * one()) <= 5 * (INTEGERS * size(
            squared_norm(q) - one() * one(),
        )) + 270 * (one() * one()),
{
    let k = one();
    let k2 = k * k;
    lemma_one_is_large();
    lemma_two();
    assert(k2 >= k * 0x1_0000_0000_0000_0000) by (nonlinear_arith)
        requires
            k2 == k * k,
            k >= 0x1_0000_0000_0000_0000,
    ;
    negation_undoes_itself(q[1]);
    negation_undoes_itself(q[2]);
    negation_undoes_itself(q[3]);
    let (bw, bx, by, bz) = (q[0], negated(q[1]), negated(q[2]), negated(q[3]));
    let (w, x, y, z) = (scaled(bw), scaled(bx), scaled(by), scaled(bz));
    assert(finite(bx) && finite(by) && finite(bz));
    let n = squared_norm(q);
    assert(n == w * w + x * x + y * y + z * z) by {
        assert((-x) * (-x) == x * x) by (nonlinear_arith);
        assert((-y) * (-y) == y * y) by (nonlinear_arith);
        assert((-z) * (-z) == z * z) by (nonlinear_arith);
    }
    assert(0 <= w * w && 0 <= x * x && 0 <= y * y && 0 <= z * z) by (nonlinear_arith);
    lemma_mean(x, z);
    lemma_mean(w, y);
    lemma_mean(y, z);
    lemma_mean(w, x);
    lemma_exact_length(w, x, y, z, k2);
    lemma_products_error(fpu, bx, bz, bw, by);
    lemma_products_error(fpu, by, bz, bw, bx);
    lemma_products_error(fpu, bx, bx, by, by);
    let (p0, p1, p2) = (
        sum_of_products(fpu, bx, bz, bw, by),
        difference_of_products(fpu, by, bz, bw, bx),
        sum_of_products(fpu, bx, bx, by, by),
    );
    let (e0, e1, e2) = (2 * (x * z + w * y), 2 * (y * z - w * x), 2 * (x * x + y * y));
    lemma_doubled(fpu, p0, x * z + w * y);
    lemma_doubled(fpu, p1, y * z - w * x);
    lemma_doubled(fpu, p2, x * x + y * y);
    let (d0, d1, d2) = (product(fpu, TWO, p0), product(fpu, TWO, p1), product(fpu, TWO, p2));
    let g2 = difference(fpu, d2, ONE);
    lemma_difference_error(fpu, d2, ONE);
    lemma_scaled_up(scaled(g2) - (scaled(d2) - k), 8, k);
    assert(scaled(g2) * k - (e2 - k2) == (scaled(g2) - (scaled(d2) - k)) * k + (scaled(d2) * k - e2))
        by (nonlinear_arith)
        requires
            k2 == k * k,
    ;
    lemma_close_squares(scaled(d0) * k, e0, k2);
    lemma_close_squares(scaled(d1) * k, e1, k2);
    lemma_close_squares(scaled(g2) * k, e2 - k2, k2);
    negation_undoes_itself(d0);
    negation_undoes_itself(d1);
    let (u, v, t) = (scaled(d0), scaled(d1), scaled(g2));
    assert((-u) * (-u) == u * u && (-v) * (-v) == v * v) by (nonlinear_arith);
    let square = u * u + v * v + t * t;
    assert(squared_length(gravity_of(fpu, q)@) == square);
    assert((u * k) * (u * k) + (v * k) * (v * k) + (t * k) * (t * k) == square * k2)
        by (nonlinear_arith)
        requires
            square == u * u + v * v + t * t,
            k2 == k * k,
    ;
    let off = size(n - k2);
    assert(square * k2 - k2 * k2 == (square - k2) * k2) by (nonlinear_arith);
    assert(size((square - k2) * k2) == size(square - k2) * k2) by (nonlinear_arith)
        requires
            0 < k2,
    ;
    assert(INTEGERS * size(square - k2) <= 5 * (INTEGERS * off) + 270 * k2) by (nonlinear_arith)
        requires
            INTEGERS * (size(square - k2) * k2) <= INTEGERS * (5 * (k2 * off)) + 270 * (k2 * k2),
            0 < k2,
    ;
}

/// Each joint follows exactly one output of the policy, and none is lost.
pub proof fn every_joint_is_driven<F: Fn(Operation) -> u32>(fpu: F, output: Seq<u32>, targets: Seq<u32>, j: int)
    requires
        are_targets(fpu, output, targets),
        0 <= j < MOTORS,
    ensures
        targets[j] == sum(
            fpu,
            product(fpu, limited(output)[URDF2USD@[j] as int], ACTION_SCALE),
            DEFAULT_JOINT_ANGLES@[j],
        ),
{
    joints_are_permuted();
}

} // verus!
