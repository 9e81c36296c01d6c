use atom01_fw::binary32::{abs, clamp, is_finite, is_nan, less_than, negate};

const SAMPLES: [f32; 17] = [
    0.0,
    -0.0,
    1.0,
    -1.0,
    1.5,
    -1.5,
    100.0,
    -100.0,
    1e-3,
    1e-45,
    -1e-45,
    f32::MIN_POSITIVE,
    f32::MAX,
    f32::MIN,
    f32::INFINITY,
    f32::NEG_INFINITY,
    f32::NAN,
];

#[test]
fn order_agrees_with_the_hardware() {
    for a in SAMPLES {
        for b in SAMPLES {
            assert_eq!(less_than(a.to_bits(), b.to_bits()), a < b, "{a} < {b}");
        }
    }
}

#[test]
fn signs_and_special_values_agree_with_the_hardware() {
    for a in SAMPLES {
        assert_eq!(is_nan(a.to_bits()), a.is_nan());
        assert_eq!(is_finite(a.to_bits()), a.is_finite());
        assert_eq!(abs(a.to_bits()), a.abs().to_bits());
        assert_eq!(negate(a.to_bits()), (-a).to_bits());
        assert_eq!(negate(negate(a.to_bits())), a.to_bits());
    }
}

#[test]
fn clamping_agrees_with_the_hardware() {
    for a in SAMPLES {
        let r = f32::from_bits(clamp(a.to_bits(), (-100.0_f32).to_bits(), 100.0_f32.to_bits()));
        if a.is_nan() {
            assert!(r.is_nan());
        } else {
            assert_eq!(r, a.clamp(-100.0, 100.0));
        }
    }
}
