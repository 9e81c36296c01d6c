use atom01_fw::arithmetic::Operation;
use atom01_fw::canproto::{
    clip_f32, decode_fields, decode_mit_feedback, encode_fields, encode_mit, mit_ranges, range_map,
    CanFrame, CanId, DecodeError, FeedbackFields, FieldRange, MitCommand, MitFields, MotorModel,
};

/// Single precision arithmetic; every NaN it gives is the same.
fn fpu(op: Operation) -> u32 {
    let number = f32::from_bits;
    let r = match op {
        Operation::Sum(a, b) => number(a) + number(b),
        Operation::Difference(a, b) => number(a) - number(b),
        Operation::Product(a, b) => number(a) * number(b),
        Operation::Quotient(a, b) => number(a) / number(b),
        Operation::OfInteger(n) => n as f32,
        Operation::Whole(x) => return number(x) as u32,
    };
    if r.is_nan() {
        f32::NAN.to_bits()
    } else {
        r.to_bits()
    }
}

fn map_16(x: f32, in_min: f32, in_max: f32) -> u32 {
    range_map(x.to_bits(), in_min.to_bits(), in_max.to_bits(), 0, 0xFFFF, &fpu)
}

fn command(pos: f32, vel: f32, kp: f32, kd: f32, tau: f32) -> MitCommand {
    MitCommand {
        pos: pos.to_bits(),
        vel: vel.to_bits(),
        kp: kp.to_bits(),
        kd: kd.to_bits(),
        tau: tau.to_bits(),
    }
}

#[test]
fn range_map_zero_maps_to_midpoint() {
    let v = map_16(0.0, -12.5, 12.5);
    assert!((v as i32 - 0x7FFF) <= 1);
    assert_eq!(v, 0x8000);
}

#[test]
fn range_map_extremes() {
    assert_eq!(map_16(12.5, -12.5, 12.5), 0xFFFF);
    assert_eq!(map_16(-12.5, -12.5, 12.5), 0);
}

#[test]
fn range_map_saturates_outside_range() {
    assert_eq!(map_16(100.0, -12.5, 12.5), 0xFFFF);
    assert_eq!(map_16(-100.0, -12.5, 12.5), 0);
    assert_eq!(map_16(f32::INFINITY, -12.5, 12.5), 0xFFFF);
    assert_eq!(map_16(f32::NEG_INFINITY, -12.5, 12.5), 0);
}

#[test]
fn encode_nan_command_becomes_safe_midpoint() {
    let cmd = command(f32::NAN, f32::NAN, f32::NAN, f32::NAN, f32::NAN);
    let f = encode_mit(1, MotorModel::Dm4340P, &cmd, &fpu);
    let p = u16::from_be_bytes([f.data[0], f.data[1]]);
    assert!((p as i32 - 0x7FFF).abs() <= 1, "pos got 0x{:04X}", p);
    assert_eq!(f.data, [0x80, 0x00, 0x80, 0x08, 0x00, 0x80, 0x08, 0x00]);
}

#[test]
fn every_field_has_its_place() {
    let cmd = command(1.0, 0.0, 100.0, 3.3, 0.0);
    let f = encode_mit(1, MotorModel::Dm4340P, &cmd, &fpu);
    assert_eq!(f.id, CanId(1));
    assert_eq!(f.dlc, 8);
    // 35389 = 0x8A3D, 2048 = 0x800, 819 = 0x333, 2703 = 0xA8F, 2048 = 0x800.
    assert_eq!(f.data, [0x8A, 0x3D, 0x80, 0x03, 0x33, 0xA8, 0xF8, 0x00]);
}

#[test]
fn extreme_commands_fill_or_clear_the_frame() {
    for model in [MotorModel::Dm4340P, MotorModel::Dm10010L] {
        let high = command(99.0, 99.0, 999.0, 99.0, 999.0);
        assert_eq!(encode_mit(23, model, &high, &fpu).data, [0xFF; 8]);
        let low = command(-99.0, -99.0, -1.0, -1.0, -999.0);
        assert_eq!(encode_mit(23, model, &low, &fpu).data, [0; 8]);
    }
}

#[test]
fn models_scale_velocity_and_torque() {
    let cmd = command(0.0, 20.0, 0.0, 0.0, 28.0);
    let small = encode_mit(5, MotorModel::Dm4340P, &cmd, &fpu);
    assert_eq!(small.data, [0x80, 0x00, 0xFF, 0xF0, 0x00, 0x00, 0x0F, 0xFF]);
    let large = encode_mit(5, MotorModel::Dm10010L, &cmd, &fpu);
    // 45 / 50 * 4095 = 3685.5, 228 / 400 * 4095 = 2334.15.
    assert_eq!(large.data, [0x80, 0x00, 0xE6, 0x60, 0x00, 0x00, 0x09, 0x1E]);
}

#[test]
fn codes_are_packed_most_significant_first() {
    let fields = MitFields { pos: 0x1234, vel: 0x567, kp: 0x89A, kd: 0xBCD, tau: 0xEF0 };
    let f = encode_fields(7, &fields);
    assert_eq!(f.id, CanId(7));
    assert_eq!(f.data, [0x12, 0x34, 0x56, 0x78, 0x9A, 0xBC, 0xDE, 0xF0]);
    assert_eq!(u64::from_be_bytes(f.data), 0x1234_567_89A_BCD_EF0);
    // Bits above the width of a code are dropped.
    let wide = MitFields { pos: 0x1234, vel: 0xF567, kp: 0xF89A, kd: 0xFBCD, tau: 0xFEF0 };
    assert_eq!(encode_fields(7, &wide).data, f.data);
}

#[test]
fn clipping_keeps_numbers_in_range() {
    let r = mit_ranges(MotorModel::Dm4340P);
    let clip = |x: f32, range: &FieldRange| {
        f32::from_bits(clip_f32(x.to_bits(), range.min, range.max, &fpu))
    };
    assert_eq!(clip(-3.0, &r.pos), -3.0);
    assert_eq!(clip(13.0, &r.pos), 12.5);
    assert_eq!(clip(-13.0, &r.pos), -12.5);
    assert_eq!(clip(f32::NAN, &r.pos), 0.0);
    assert_eq!(clip(-f32::NAN, &r.kp), 250.0);
    assert_eq!(clip(f32::NAN, &r.kd), 2.5);
    assert_eq!(clip(-0.5, &r.kd), 0.0);
    assert_eq!(clip(f32::INFINITY, &r.tau), 28.0);
    assert_eq!(clip(f32::NEG_INFINITY, &r.vel), -20.0);
}

#[test]
fn ranges_follow_the_protocol() {
    let r = mit_ranges(MotorModel::Dm10010L);
    let ends = |f: &FieldRange| (f32::from_bits(f.min), f32::from_bits(f.max), f.top);
    assert_eq!(ends(&r.pos), (-12.5, 12.5, 0xFFFF));
    assert_eq!(ends(&r.vel), (-25.0, 25.0, 0x0FFF));
    assert_eq!(ends(&r.kp), (0.0, 500.0, 0x0FFF));
    assert_eq!(ends(&r.kd), (0.0, 5.0, 0x0FFF));
    assert_eq!(ends(&r.tau), (-200.0, 200.0, 0x0FFF));
}

#[test]
fn decode_feedback_extremes() {
    let frame = CanFrame {
        id: CanId(1 + 16),
        dlc: 8,
        data: [0xFF, 0xFF, 0xFF, 0xFF, 0xFF, 0x00, 0x00, 0x00],
    };
    let fb = decode_mit_feedback(&frame, &fpu).unwrap();
    assert_eq!(fb.motor_id, 1);
    assert!((f32::from_bits(fb.position) - 12.5).abs() < 1e-3);
    assert!((f32::from_bits(fb.velocity) - 20.0).abs() < 1e-3);
    assert!((f32::from_bits(fb.torque) - 28.0).abs() < 1e-3);
    assert_eq!(fb.error_code, 0);
}

#[test]
fn decode_feedback_minimum_extremes() {
    let frame = CanFrame {
        id: CanId(7 + 16),
        dlc: 8,
        data: [0x00, 0x00, 0x00, 0x00, 0x00, 0x00, 0x00, 0x00],
    };
    let fb = decode_mit_feedback(&frame, &fpu).unwrap();
    assert_eq!(fb.motor_id, 7);
    assert!((f32::from_bits(fb.position) - (-12.5)).abs() < 1e-3);
    assert!((f32::from_bits(fb.velocity) - (-20.0)).abs() < 1e-3);
    assert!((f32::from_bits(fb.torque) - (-28.0)).abs() < 1e-3);
}

#[test]
fn decode_feedback_zero_signals() {
    let frame = CanFrame {
        id: CanId(3 + 16),
        dlc: 8,
        data: [0x7F, 0xFF, 0x80, 0x08, 0x00, 0x00, 0x00, 0x00],
    };
    let fb = decode_mit_feedback(&frame, &fpu).unwrap();
    assert_eq!(fb.motor_id, 3);
    assert!(f32::from_bits(fb.position).abs() < 1e-2, "pos got {}", f32::from_bits(fb.position));
    assert!(f32::from_bits(fb.velocity).abs() < 1e-2, "vel got {}", f32::from_bits(fb.velocity));
    assert!(f32::from_bits(fb.torque).abs() < 1e-2, "tau got {}", f32::from_bits(fb.torque));
}

#[test]
fn decode_feedback_known_position_half() {
    let frame = CanFrame {
        id: CanId(2 + 16),
        dlc: 8,
        data: [0xBF, 0xFF, 0x80, 0x08, 0x00, 0x00, 0x00, 0x00],
    };
    let fb = decode_mit_feedback(&frame, &fpu).unwrap();
    assert!((f32::from_bits(fb.position) - 6.25).abs() < 1e-3);
    assert!(f32::from_bits(fb.velocity).abs() < 1e-2);
    assert!(f32::from_bits(fb.torque).abs() < 1e-2);
}

#[test]
fn decode_feedback_error_code_in_byte7_high_nibble() {
    let frame = CanFrame {
        id: CanId(5 + 16),
        dlc: 8,
        data: [0x7F, 0xFF, 0x80, 0x08, 0x00, 0x00, 0x00, 0xA0],
    };
    let fb = decode_mit_feedback(&frame, &fpu).unwrap();
    assert_eq!(fb.error_code, 0xA, "error_code got 0x{:X}", fb.error_code);
    assert!(f32::from_bits(fb.velocity).abs() < 1e-2);
}

#[test]
fn feedback_codes_are_read_from_their_places() {
    let frame = CanFrame {
        id: CanId(16),
        dlc: 8,
        data: [0x12, 0x34, 0x56, 0x78, 0x9A, 0x11, 0x22, 0xC3],
    };
    let expected = FeedbackFields {
        motor_id: 0,
        position: 0x1234,
        velocity: 0x567,
        torque: 0x89A,
        error_code: 0xC,
    };
    assert_eq!(decode_fields(&frame), Ok(expected));
    let fb = decode_mit_feedback(&frame, &fpu).unwrap();
    assert_eq!(fb.motor_id, 0);
    let position = (0x1234 as f32 / 65535.0 - 0.5) * 2.0 * 12.5;
    let velocity = (0x567 as f32 / 4095.0 - 0.5) * 2.0 * 20.0;
    let torque = (0x89A as f32 / 4095.0 - 0.5) * 2.0 * 28.0;
    assert_eq!(f32::from_bits(fb.position), position);
    assert_eq!(f32::from_bits(fb.velocity), velocity);
    assert_eq!(f32::from_bits(fb.torque), torque);
    assert_eq!(fb.error_code, 0xC);
}

#[test]
fn range_map_reaches_any_interval_of_codes() {
    let map = |x: f32| range_map(x.to_bits(), 0, 10.0_f32.to_bits(), 100, 200, &fpu);
    assert_eq!(map(-1.0), 100);
    assert_eq!(map(0.0), 100);
    assert_eq!(map(2.5), 125);
    assert_eq!(map(0.04), 100);
    assert_eq!(map(0.06), 101);
    assert_eq!(map(11.0), 200);
    assert_eq!(map(f32::NAN), 150);
}

#[test]
fn decode_rejects_wrong_dlc() {
    let frame = CanFrame { id: CanId(17), dlc: 4, data: [0; 8] };
    assert_eq!(decode_mit_feedback(&frame, &fpu), Err(DecodeError::WrongDlc));
}

#[test]
fn decode_rejects_can_id_below_master_offset() {
    let frame = CanFrame { id: CanId(15), dlc: 8, data: [0; 8] };
    assert_eq!(decode_mit_feedback(&frame, &fpu), Err(DecodeError::WrongCanId));
}

#[test]
fn decode_rejects_can_id_above_max_motor() {
    let frame = CanFrame { id: CanId(300), dlc: 8, data: [0; 8] };
    assert_eq!(decode_mit_feedback(&frame, &fpu), Err(DecodeError::WrongCanId));
    let next = CanFrame { id: CanId(40), dlc: 8, data: [0; 8] };
    assert_eq!(decode_mit_feedback(&next, &fpu), Err(DecodeError::WrongCanId));
}

#[test]
fn decode_accepts_max_valid_can_id() {
    let frame = CanFrame { id: CanId(39), dlc: 8, data: [0; 8] };
    assert_eq!(decode_mit_feedback(&frame, &fpu).unwrap().motor_id, 23);
}

#[test]
fn wrong_length_is_reported_before_wrong_identifier() {
    let frame = CanFrame { id: CanId(3), dlc: 9, data: [0; 8] };
    assert_eq!(decode_mit_feedback(&frame, &fpu), Err(DecodeError::WrongDlc));
}

#[test]
fn motor_model_ranges() {
    assert_eq!(f32::from_bits(MotorModel::Dm4340P.spd_max()), 20.0);
    assert_eq!(f32::from_bits(MotorModel::Dm10010L.spd_max()), 25.0);
    assert_eq!(f32::from_bits(MotorModel::Dm4340P.tau_max()), 28.0);
    assert_eq!(f32::from_bits(MotorModel::Dm10010L.tau_max()), 200.0);
    assert_eq!(f32::from_bits(MotorModel::Dm4340P.pos_max()), 12.5);
    assert_eq!(f32::from_bits(MotorModel::Dm10010L.pos_max()), 12.5);
}

#[test]
fn encode_zero_command_yields_midpoint_bits() {
    let cmd = command(0.0, 0.0, 0.0, 0.0, 0.0);
    let f = encode_mit(1, MotorModel::Dm4340P, &cmd, &fpu);
    assert_eq!(f.dlc, 8);
    assert_eq!(f.id, CanId(1));
    assert_eq!(f.data[7], 0x00);
    // Half of 0xFFFF is rounded up to 0x8000, half of 0x0FFF to 0x800.
    assert_eq!(u16::from_be_bytes([f.data[0], f.data[1]]), 0x8000);
    assert_eq!(f.data[2], 0x80);
    assert_eq!(f.data, [0x80, 0x00, 0x80, 0x00, 0x00, 0x00, 0x08, 0x00]);
}

#[test]
fn encode_known_reference_values() {
    let cmd = command(1.0, 0.0, 100.0, 3.3, 0.0);
    let f = encode_mit(1, MotorModel::Dm4340P, &cmd, &fpu);
    let kp_high = (f.data[3] & 0x0F) as u16;
    let kp_low = f.data[4] as u16;
    assert_eq!((kp_high << 8) | kp_low, 0x333, "kp encoding mismatch");
    let kd = ((f.data[5] as u16) << 4) | (f.data[6] as u16 >> 4);
    assert_eq!(kd, 0xA8F, "kd encoding mismatch");
    // 13.5 / 25 * 65535 = 35388.9.
    let p = u16::from_be_bytes([f.data[0], f.data[1]]);
    assert_eq!(p, 0x8A3D, "pos encoding mismatch: got 0x{:04X}", p);
}

#[test]
fn codes_grow_with_the_numbers() {
    let mut last = 0;
    for i in -1300..=1300 {
        let code = map_16(i as f32 * 0.01, -12.5, 12.5);
        assert!(last <= code && code <= 0xFFFF);
        last = code;
    }
    assert_eq!(last, 0xFFFF);
}

#[test]
fn odd_commands_stay_in_their_fields() {
    let odd = [0.0_f32, -0.0, 1e-40, -1e-40, 3.7, -1e30, f32::INFINITY, f32::NEG_INFINITY, f32::NAN];
    for model in [MotorModel::Dm4340P, MotorModel::Dm10010L] {
        let r = mit_ranges(model);
        for x in odd {
            for range in [r.pos, r.vel, r.kp, r.kd, r.tau] {
                let code =
                    range_map(x.to_bits(), range.min, range.max, 0, range.top as u32, &fpu);
                assert!(code <= range.top as u32);
            }
        }
    }
}

#[test]
fn positions_sent_are_read_back_to_half_a_step() {
    for i in -125..=125 {
        let pos = i as f32 * 0.1;
        let f = encode_mit(9, MotorModel::Dm4340P, &command(pos, 1.0, 2.0, 3.0, 4.0), &fpu);
        let frame = CanFrame { id: CanId(25), dlc: 8, data: f.data };
        let fb = decode_mit_feedback(&frame, &fpu).unwrap();
        assert_eq!(fb.motor_id, 9);
        assert!((f32::from_bits(fb.position) - pos).abs() <= 2e-4);
    }
}
