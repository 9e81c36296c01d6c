use atom01_fw::arithmetic::Operation;
use atom01_fw::canproto::{CanId, MitCommand, MotorModel};
use atom01_fw::config::{DEFAULT_JOINT_ANGLES, OBS_DIM, USD2URDF};
use atom01_fw::pipeline::{
    apply_sign, compute_gravity_body, empty_frame, guard_output, joint_targets, motor_id_for,
    motor_model_for, Pipeline, CONTROL_PERIOD_US, INFERENCE_PERIOD_US, OUTPUT_DIM,
};

/// Single precision arithmetic; every NaN it gives is the same.
fn fpu(op: Operation) -> u32 {
    let number = f32::from_bits;
    let r = match op {
        Operation::Sum(a, b) => number(a) + number(b),
        Operation::Difference(a, b) => number(a) - number(b),
        Operation::Product(a, b) => number(a) * number(b),
        Operation::Quotient(a, b) => number(a) / number(b),
        Operation::OfInteger(n) => n as f32,
        Operation::Whole(x) => return number(x) as u32,
    };
    if r.is_nan() {
        f32::NAN.to_bits()
    } else {
        r.to_bits()
    }
}

fn ramp(offset: f32) -> [u32; 23] {
    let mut out = [0; 23];
    for (i, v) in out.iter_mut().enumerate() {
        *v = (offset + i as f32).to_bits();
    }
    out
}

#[test]
fn pipeline_creation_is_clean() {
    let p = Pipeline::new();
    assert_eq!(p.action.map(f32::from_bits), [0.0; OUTPUT_DIM]);
    assert_eq!(p.obs.frame_count(), 0);
    let q = Pipeline::default();
    assert_eq!(q.joint, p.joint);
    assert_eq!(q.imu, p.imu);
    assert!(p.ankle_left.side && !p.ankle_right.side);
}

#[test]
fn step_inference_produces_post_processed_action() {
    let mut p = Pipeline::new();
    let cmd = [0; 3];
    p.step_inference(&cmd, &|_: &[u32; 780]| [0; 23], &fpu);
    for i in 0..OUTPUT_DIM {
        let (action, default) =
            (f32::from_bits(p.action[i]), f32::from_bits(DEFAULT_JOINT_ANGLES[i]));
        let diff = (action - default).abs();
        assert!(diff < 1.0, "joint {}: action {} vs default {}", i, action, default);
        assert_eq!(action, default);
    }
}

#[test]
fn step_control_emits_23_mit_frames() {
    let p = Pipeline::new();
    let frames = p.step_control(&fpu);
    assert_eq!(frames.len(), 23);
    for (i, frame) in frames.iter().enumerate() {
        assert_eq!(frame.dlc, 8, "frame {} has wrong dlc", i);
        assert!(frame.id.0 >= 1 && frame.id.0 <= 23, "frame {} has bad id {}", i, frame.id.0);
        assert_eq!(frame.id, CanId(i as u16 + 1));
    }
}

#[test]
fn ankle_motors_get_torque_only_commands() {
    let p = Pipeline::new();
    let frames = p.step_control(&fpu);
    for &ankle_idx in &[4usize, 5, 10, 11] {
        let f = frames[ankle_idx];
        let p_raw = u16::from_be_bytes([f.data[0], f.data[1]]);
        assert!(
            (p_raw as i32 - 0x7FFF).abs() <= 1,
            "ankle {} pos midpoint: got 0x{:04X}",
            ankle_idx,
            p_raw
        );
        let kp_high = (f.data[3] & 0x0F) as u16;
        let kp_low = f.data[4] as u16;
        assert_eq!((kp_high << 8) | kp_low, 0, "ankle {} kp should be 0", ankle_idx);
    }
}

#[test]
fn ankle_torques_reflect_decoupling_error() {
    let mut p = Pipeline::new();
    p.joint.position[4] = 0.3_f32.to_bits();
    p.joint.position[5] = 0.1_f32.to_bits();
    let tau_left = p.compute_ankle_torques(true, &fpu).map(f32::from_bits);
    assert!(tau_left[0].is_finite());
    assert!(tau_left[1].is_finite());
    assert!(tau_left[0] < 0.0, "expected negative tau_pitch, got {}", tau_left[0]);
}

#[test]
fn step_control_uses_compute_ankle_torques_path() {
    let mut p = Pipeline::new();
    p.joint.position[4] = 0.5_f32.to_bits();
    let frames = p.step_control(&fpu);
    let f = &frames[4];
    let tau_raw = (((f.data[6] & 0x0F) as u16) << 8) | (f.data[7] as u16);
    assert!(tau_raw < 0x0FFF, "ankle tau_raw should not saturate, got 0x{:X}", tau_raw);
}

#[test]
fn non_ankle_motors_get_position_commands() {
    let p = Pipeline::new();
    let frames = p.step_control(&fpu);
    let f = frames[0];
    let kp_high = f.data[3] & 0x0F;
    assert!(kp_high > 0, "non-ankle motor should have non-zero kp");
}

#[test]
fn motor_model_assignment_matches_robot_yaml() {
    for &i in &[0usize, 1, 2, 3] {
        assert!(
            matches!(motor_model_for(i), MotorModel::Dm4340P),
            "motor {} should be DM4340P",
            i
        );
    }
    assert!(matches!(motor_model_for(4), MotorModel::Dm10010L));
    assert!(matches!(motor_model_for(12), MotorModel::Dm4340P));
}

#[test]
fn every_motor_has_its_model_and_identifier() {
    for i in 0..23 {
        let small = [0, 1, 2, 3, 6, 7, 8, 9, 12].contains(&i);
        let model = if small { MotorModel::Dm4340P } else { MotorModel::Dm10010L };
        assert_eq!(motor_model_for(i), model);
        assert_eq!(motor_id_for(i) as usize, i + 1);
    }
}

#[test]
fn frames_start_empty() {
    let f = empty_frame();
    assert_eq!((f.id, f.dlc, f.data), (CanId(0), 0, [0; 8]));
}

#[test]
fn commands_turn_targets_and_torques_into_motor_direction() {
    let mut p = Pipeline::new();
    p.action = ramp(1.0);
    let left = [10.0_f32.to_bits(), 11.0_f32.to_bits()];
    let right = [12.0_f32.to_bits(), 13.0_f32.to_bits()];
    let torque_only = |tau: f32| MitCommand { pos: 0, vel: 0, kp: 0, kd: 0, tau: tau.to_bits() };
    assert_eq!(p.motor_command(4, &left, &right), torque_only(10.0));
    assert_eq!(p.motor_command(5, &left, &right), torque_only(11.0));
    assert_eq!(p.motor_command(10, &left, &right), torque_only(-12.0));
    assert_eq!(p.motor_command(11, &left, &right), torque_only(-13.0));
    let hip = p.motor_command(8, &left, &right);
    assert_eq!(f32::from_bits(hip.pos), -9.0);
    assert_eq!(f32::from_bits(hip.kp), 100.0);
    assert_eq!(f32::from_bits(hip.kd), 3.3);
    assert_eq!((hip.vel, hip.tau), (0, 0));
    assert_eq!(f32::from_bits(p.motor_command(7, &left, &right).pos), 8.0);
    assert_eq!(apply_sign(9, apply_sign(9, 77)), 77);
}

#[test]
fn ankle_torques_follow_the_pd_law() {
    let mut p = Pipeline::new();
    p.action[10] = 0.1_f32.to_bits();
    p.action[11] = (-0.05_f32).to_bits();
    p.joint.velocity[10] = 0.5_f32.to_bits();
    p.joint.velocity[11] = (-0.25_f32).to_bits();
    // The joints stand in the zero pose. The right ankle's motors run backwards.
    let fk = p.ankle_right.forward_kinematics(&[0, 0], &fpu);
    let j = fk.jacobian.map(|row| row.map(f32::from_bits));
    let tau = [
        40.0 * (0.1 - f32::from_bits(fk.pitch)) + 2.0 * (0.0 - -0.5),
        40.0 * (-0.05 - f32::from_bits(fk.roll)) + 2.0 * (0.0 - 0.25),
    ];
    let expected =
        [j[0][0] * tau[0] + j[1][0] * tau[1], j[0][1] * tau[0] + j[1][1] * tau[1]];
    p.joint.position[10] = (-0.0_f32).to_bits();
    p.joint.position[11] = (-0.0_f32).to_bits();
    assert_eq!(p.compute_ankle_torques(false, &fpu).map(f32::from_bits), expected);
    // The left ankle has nothing to do.
    assert_eq!(p.compute_ankle_torques(true, &fpu).map(f32::from_bits), [0.0, 0.0]);
}

#[test]
fn gravity_is_turned_into_the_body() {
    let gravity = |q: [f32; 4]| {
        compute_gravity_body(&q.map(f32::to_bits), &fpu).map(f32::from_bits)
    };
    assert_eq!(gravity([1.0, 0.0, 0.0, 0.0]), [0.0, 0.0, -1.0]);
    // Upside down.
    assert_eq!(gravity([0.0, 1.0, 0.0, 0.0]), [0.0, 0.0, 1.0]);
    // A quarter turn about an axis brings gravity to the next one, backwards.
    let h = 0.5_f32.sqrt();
    let about_x = gravity([h, h, 0.0, 0.0]);
    assert!((about_x[1] + 1.0).abs() < 1e-6 && about_x[2].abs() < 1e-6);
    let about_y = gravity([h, 0.0, h, 0.0]);
    assert!((about_y[0] - 1.0).abs() < 1e-6 && about_y[2].abs() < 1e-6);
    // Turning about the vertical changes nothing.
    assert_eq!(gravity([h, 0.0, 0.0, h]), [0.0, 0.0, -1.0]);
}

#[test]
fn observation_is_laid_out_in_order() {
    let mut p = Pipeline::new();
    p.imu.quat = [1.0_f32, 0.0, 0.0, 0.0].map(f32::to_bits);
    p.imu.ang_vel = [1.0_f32, 2.0, 3.0].map(f32::to_bits);
    p.joint.position = ramp(25.0);
    p.joint.velocity = ramp(1.0);
    p.raw_action = ramp(50.0);
    let mut out = [0; OBS_DIM];
    p.build_observation(&[7.0_f32, 8.0, 9.0].map(f32::to_bits), &mut out, &fpu);
    let out = out.map(f32::from_bits);
    assert_eq!(out[..9], [1.0, 2.0, 3.0, 0.0, 0.0, -1.0, 7.0, 8.0, 9.0]);
    for j in 0..23 {
        assert_eq!(out[9 + j], 25.0 + j as f32 - f32::from_bits(DEFAULT_JOINT_ANGLES[j]));
        assert_eq!(out[32 + j], 1.0 + j as f32);
        assert_eq!(out[55 + j], 50.0 + j as f32);
    }
}

#[test]
fn observations_are_limited_before_they_are_stacked() {
    let mut p = Pipeline::new();
    p.imu.ang_vel = [250.0_f32, -250.0, 99.0].map(f32::to_bits);
    p.observe(&[f32::NAN, f32::INFINITY, f32::NEG_INFINITY].map(f32::to_bits), &fpu);
    assert_eq!(p.obs.frame_count(), 1);
    let newest = &p.stacked[702..];
    assert_eq!(f32::from_bits(newest[0]), 100.0);
    assert_eq!(f32::from_bits(newest[1]), -100.0);
    assert_eq!(f32::from_bits(newest[2]), 99.0);
    assert!(f32::from_bits(newest[6]).is_nan());
    assert_eq!(f32::from_bits(newest[7]), 100.0);
    assert_eq!(f32::from_bits(newest[8]), -100.0);
    assert!(p.stacked[..702].iter().all(|&v| v == 0));
}

#[test]
fn bad_policy_output_counts_as_zero() {
    let good = ramp(-5.0);
    assert_eq!(guard_output(&good), good);
    for bad in [f32::NAN, f32::INFINITY, f32::NEG_INFINITY] {
        for at in [0, 11, 22] {
            let mut output = good;
            output[at] = bad.to_bits();
            assert_eq!(guard_output(&output), [0; 23]);
        }
    }
}

#[test]
fn outputs_are_limited_scaled_and_reordered() {
    let mut output = ramp(0.0);
    output[3] = 1000.0_f32.to_bits();
    output[4] = (-1000.0_f32).to_bits();
    let targets = joint_targets(&output, &fpu).map(f32::from_bits);
    for i in 0..23 {
        let action = match i {
            3 => 100.0,
            4 => -100.0,
            _ => i as f32,
        };
        let j = USD2URDF[i];
        assert_eq!(targets[j], action * 0.25 + f32::from_bits(DEFAULT_JOINT_ANGLES[j]));
    }
}

#[test]
fn inference_step_feeds_the_policy_and_scales_its_output() {
    let mut p = Pipeline::new();
    p.imu.quat[0] = 1.0_f32.to_bits();
    p.joint.position[3] = 1.0_f32.to_bits();
    let cmd = [0.5_f32, 0.0, 0.0].map(f32::to_bits);
    let policy = |stacked: &[u32; 780]| {
        let newest = &stacked[702..];
        assert_eq!(f32::from_bits(newest[5]), -1.0);
        assert_eq!(f32::from_bits(newest[6]), 0.5);
        assert_eq!(f32::from_bits(newest[9 + 3]), 1.0 - 0.3_f32);
        ramp(0.0)
    };
    p.step_inference(&cmd, &policy, &fpu);
    assert_eq!(p.raw_action, ramp(0.0));
    for i in 0..23 {
        let j = USD2URDF[i];
        let expected = i as f32 * 0.25 + f32::from_bits(DEFAULT_JOINT_ANGLES[j]);
        assert_eq!(f32::from_bits(p.action[j]), expected);
    }
    // The output is part of the next observation.
    let second = |stacked: &[u32; 780]| {
        assert_eq!(stacked[702 + 55..], ramp(0.0));
        [f32::NAN.to_bits(); 23]
    };
    p.step_inference(&cmd, &second, &fpu);
    assert_eq!(p.obs.frame_count(), 2);
    assert_eq!(p.raw_action, [0; 23]);
    assert_eq!(p.action, DEFAULT_JOINT_ANGLES);
}

#[test]
fn accepting_an_output_keeps_it_and_sets_the_targets() {
    let mut p = Pipeline::new();
    p.accept(&ramp(1.0), &fpu);
    assert_eq!(p.raw_action, ramp(1.0));
    assert_eq!(f32::from_bits(p.action[6]), 2.0 * 0.25);
}

#[test]
fn periods_are_in_microseconds() {
    assert_eq!(INFERENCE_PERIOD_US, 20_000);
    assert_eq!(CONTROL_PERIOD_US, 4_000);
}

#[test]
fn opposite_quaternions_are_one_attitude() {
    for q in [[0.5_f32, 0.5, 0.5, 0.5], [0.8, 0.0, -0.6, 0.0], [0.1, 0.7, -0.7, 0.1]] {
        let a = compute_gravity_body(&q.map(f32::to_bits), &fpu).map(f32::from_bits);
        let b = compute_gravity_body(&q.map(|x| (-x).to_bits()), &fpu).map(f32::from_bits);
        assert_eq!(a, b);
        let length = a[0] * a[0] + a[1] * a[1] + a[2] * a[2];
        assert!((length - 1.0).abs() < 1e-5);
    }
}
