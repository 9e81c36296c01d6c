use atom01_fw::config::{
    ACTION_SCALE, CLIP_ACTIONS, CLIP_ACTIONS_LOW, DEFAULT_JOINT_ANGLES, KD, KP, MOTOR_SIGN, URDF2USD,
    USD2URDF,
};

#[test]
fn usd2urdf_is_a_valid_permutation_of_0_to_22() {
    assert_eq!(USD2URDF.len(), 23, "USD2URDF must have exactly 23 entries");
    let mut seen = [false; 23];
    for (i, &v) in USD2URDF.iter().enumerate() {
        assert!(v < 23, "USD2URDF[{i}] = {v} is out of range");
        assert!(!seen[v], "USD2URDF has duplicate value {v}");
        seen[v] = true;
    }
    assert!(seen.iter().all(|&x| x), "USD2URDF missing some value in 0..23");
}

#[test]
fn config_arrays_have_correct_lengths() {
    assert_eq!(DEFAULT_JOINT_ANGLES.len(), 23);
    assert_eq!(KP.len(), 23);
    assert_eq!(KD.len(), 23);
    assert_eq!(MOTOR_SIGN.len(), 23);
}

#[test]
fn tables_hold_the_documented_numbers() {
    let angles: [f32; 23] = [
        0.0, 0.0, -0.1, 0.3, -0.2, 0.0, 0.0, 0.0, -0.1, 0.3, -0.2, 0.0, 0.0, 0.18, 0.06, 0.0, 0.78,
        0.0, 0.18, -0.06, 0.0, 0.78, 0.0,
    ];
    let kp: [f32; 23] = [
        100.0, 100.0, 100.0, 150.0, 40.0, 40.0, 100.0, 100.0, 100.0, 150.0, 40.0, 40.0, 150.0, 40.0,
        40.0, 40.0, 30.0, 20.0, 40.0, 40.0, 40.0, 30.0, 20.0,
    ];
    let kd: [f32; 23] = [
        3.3, 3.3, 3.3, 5.0, 2.0, 2.0, 3.3, 3.3, 3.3, 5.0, 2.0, 2.0, 5.0, 2.0, 2.0, 2.0, 1.5, 1.0,
        2.0, 2.0, 2.0, 1.5, 1.0,
    ];
    assert_eq!(DEFAULT_JOINT_ANGLES.map(f32::from_bits), angles);
    assert_eq!(KP.map(f32::from_bits), kp);
    assert_eq!(KD.map(f32::from_bits), kd);
    assert_eq!(f32::from_bits(ACTION_SCALE), 0.25);
    assert_eq!(f32::from_bits(CLIP_ACTIONS), 100.0);
    assert_eq!(f32::from_bits(CLIP_ACTIONS_LOW), -100.0);
}

#[test]
fn urdf2usd_inverts_usd2urdf() {
    for i in 0..23 {
        assert_eq!(URDF2USD[USD2URDF[i]], i);
        assert_eq!(USD2URDF[URDF2USD[i]], i);
    }
}
