//! Constants of the robot and of the policy.
//!
//! Real numbers are bit patterns of single precision numbers (see
//! [`crate::binary32`]); the decimal values stand in the comments.
use vstd::prelude::*;

verus! {

/// Number of motors, and of joints.
pub const MOTORS: usize = 23;

/// Factor on the policy output: 0.25.
pub const ACTION_SCALE: u32 = 0x3E80_0000;

/// Bound on the policy output and on observations: 100.0.
pub const CLIP_ACTIONS: u32 = 0x42C8_0000;

/// Lower bound on the policy output and on observations: -100.0.
pub const CLIP_ACTIONS_LOW: u32 = 0xC2C8_0000;

/// Joint that each output of the policy drives: output `i` goes to joint
/// `USD2URDF[i]`.
pub const USD2URDF: [usize; 23] = [
    0, 6, 12, 1, 7, 13, 18, 2, 8, 14, 19, 3, 9, 15, 20, 4, 10, 16, 21, 5, 11, 17, 22,
];

/// Output of the policy that drives each joint: joint `j` follows output
/// `URDF2USD[j]`.
pub const URDF2USD: [usize; 23] = [
    0, 3, 7, 11, 15, 19, 1, 4, 8, 12, 16, 20, 2, 5, 9, 13, 17, 21, 6, 10, 14, 18, 22,
];

/// Joint angles of the home pose, in radians.
pub const DEFAULT_JOINT_ANGLES: [u32; 23] = [
    // Left leg: 0.0, 0.0, -0.1, 0.3, -0.2, 0.0
    0x0000_0000, 0x0000_0000, 0xBDCC_CCCD, 0x3E99_999A, 0xBE4C_CCCD, 0x0000_0000,
    // Right leg: 0.0, 0.0, -0.1, 0.3, -0.2, 0.0
    0x0000_0000, 0x0000_0000, 0xBDCC_CCCD, 0x3E99_999A, 0xBE4C_CCCD, 0x0000_0000,
    // Torso: 0.0
    0x0000_0000,
    // Left arm: 0.18, 0.06, 0.0, 0.78, 0.0
    0x3E38_51EC, 0x3D75_C28F, 0x0000_0000, 0x3F47_AE14, 0x0000_0000,
    // Right arm: 0.18, -0.06, 0.0, 0.78, 0.0
    0x3E38_51EC, 0xBD75_C28F, 0x0000_0000, 0x3F47_AE14, 0x0000_0000,
];

/// Position gain of each motor.
pub const KP: [u32; 23] = [
    // Left leg: 100.0, 100.0, 100.0, 150.0, 40.0, 40.0
    0x42C8_0000, 0x42C8_0000, 0x42C8_0000, 0x4316_0000, 0x4220_0000, 0x4220_0000,
    // Right leg: 100.0, 100.0, 100.0, 150.0, 40.0, 40.0
    0x42C8_0000, 0x42C8_0000, 0x42C8_0000, 0x4316_0000, 0x4220_0000, 0x4220_0000,
    // Torso: 150.0
    0x4316_0000,
    // Left arm: 40.0, 40.0, 40.0, 30.0, 20.0
    0x4220_0000, 0x4220_0000, 0x4220_0000, 0x41F0_0000, 0x41A0_0000,
    // Right arm: 40.0, 40.0, 40.0, 30.0, 20.0
    0x4220_0000, 0x4220_0000, 0x4220_0000, 0x41F0_0000, 0x41A0_0000,
];

/// Velocity gain of each motor.
pub const KD: [u32; 23] = [
    // Left leg: 3.3, 3.3, 3.3, 5.0, 2.0, 2.0
    0x4053_3333, 0x4053_3333, 0x4053_3333, 0x40A0_0000, 0x4000_0000, 0x4000_0000,
    // Right leg: 3.3, 3.3, 3.3, 5.0, 2.0, 2.0
    0x4053_3333, 0x4053_3333, 0x4053_3333, 0x40A0_0000, 0x4000_0000, 0x4000_0000,
    // Torso: 5.0
    0x40A0_0000,
    // Left arm: 2.0, 2.0, 2.0, 1.5, 1.0
    0x4000_0000, 0x4000_0000, 0x4000_0000, 0x3FC0_0000, 0x3F80_0000,
    // Right arm: 2.0, 2.0, 2.0, 1.5, 1.0
    0x4000_0000, 0x4000_0000, 0x4000_0000, 0x3FC0_0000, 0x3F80_0000,
];

/// Direction of each motor: -1 where what is sent to the motor, and what it
/// reports, has the opposite sign.
pub const MOTOR_SIGN: [i8; 23] = [
    1, 1, 1, 1, 1, 1,
    1, 1, -1, -1, -1, -1,
    1,
    1, 1, 1, 1, 1,
    -1, 1, 1, -1, 1,
];

/// Numbers in one observation: angular velocity 3, gravity 3, commanded velocity
/// 3, joint positions 23, joint velocities 23, last action 23.
pub const OBS_DIM: usize = 78;

/// Observations in the input of the policy.
pub const FRAME_STACK: usize = 10;

/// Period of the inference step, in milliseconds.
pub const INFERENCE_PERIOD_MS: u32 = 20;

/// Period of the control step, in milliseconds.
pub const CONTROL_PERIOD_MS: u32 = 4;

/// Every joint is driven by exactly one output of the policy: the assignment of
/// outputs to joints stays in range, hits no joint twice and leaves none out.
pub proof fn joints_are_permuted()
    ensures
        forall|i: int| 0 <= i < MOTORS ==> #[trigger] USD2URDF@[i] < MOTORS,
        forall|j: int| 0 <= j < MOTORS ==> #[trigger] URDF2USD@[j] < MOTORS,
        forall|i: int| 0 <= i < MOTORS ==> URDF2USD@[#[trigger] USD2URDF@[i] as int] == i,
        forall|j: int| 0 <= j < MOTORS ==> USD2URDF@[#[trigger] URDF2USD@[j] as int] == j,
        forall|i: int, k: int|
            0 <= i < k < MOTORS ==> #[trigger] USD2URDF@[i] != #[trigger] USD2URDF@[k],
{
    assert(USD2URDF@[0] == 0 && URDF2USD@[0] == 0);
    assert(USD2URDF@[1] == 6 && URDF2USD@[6] == 1);
    assert(USD2URDF@[2] == 12 && URDF2USD@[12] == 2);
    assert(USD2URDF@[3] == 1 && URDF2USD@[1] == 3);
    assert(USD2URDF@[4] == 7 && URDF2USD@[7] == 4);
    assert(USD2URDF@[5] == 13 && URDF2USD@[13] == 5);
    assert(USD2URDF@[6] == 18 && URDF2USD@[18] == 6);
    assert(USD2URDF@[7] == 2 && URDF2USD@[2] == 7);
    assert(USD2URDF@[8] == 8 && URDF2USD@[8] == 8);
    assert(USD2URDF@[9] == 14 && URDF2USD@[14] == 9);
    assert(USD2URDF@[10] == 19 && URDF2USD@[19] == 10);
    assert(USD2URDF@[11] == 3 && URDF2USD@[3] == 11);
    assert(USD2URDF@[12] == 9 && URDF2USD@[9] == 12);
    assert(USD2URDF@[13] == 15 && URDF2USD@[15] == 13);
    assert(USD2URDF@[14] == 20 && URDF2USD@[20] == 14);
    assert(USD2URDF@[15] == 4 && URDF2USD@[4] == 15);
    assert(USD2URDF@[16] == 10 && URDF2USD@[10] == 16);
    assert(USD2URDF@[17] == 16 && URDF2USD@[16] == 17);
    assert(USD2URDF@[18] == 21 && URDF2USD@[21] == 18);
    assert(USD2URDF@[19] == 5 && URDF2USD@[5] == 19);
    assert(USD2URDF@[20] == 11 && URDF2USD@[11] == 20);
    assert(USD2URDF@[21] == 17 && URDF2USD@[17] == 21);
    assert(USD2URDF@[22] == 22 && URDF2USD@[22] == 22);
    assert forall|i: int| 0 <= i < MOTORS implies #[trigger] USD2URDF@[i] < MOTORS
        && URDF2USD@[USD2URDF@[i] as int] == i by {
        assert(i == 0 || i == 1 || i == 2 || i == 3 || i == 4 || i == 5 || i == 6 || i == 7 || i == 8 || i == 9 || i == 10 || i == 11 || i == 12 || i == 13 || i == 14 || i == 15 || i == 16 || i == 17 || i == 18 || i == 19 || i == 20 || i == 21 || i == 22);
    }
    assert forall|i: int| 0 <= i < MOTORS implies #[trigger] URDF2USD@[i] < MOTORS
        && USD2URDF@[URDF2USD@[i] as int] == i by {
        assert(i == 0 || i == 1 || i == 2 || i == 3 || i == 4 || i == 5 || i == 6 || i == 7 || i == 8 || i == 9 || i == 10 || i == 11 || i == 12 || i == 13 || i == 14 || i == 15 || i == 16 || i == 17 || i == 18 || i == 19 || i == 20 || i == 21 || i == 22);
    }
}

} // verus!
