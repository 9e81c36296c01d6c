use atom01_fw::ankle::{
    asin_approx, build_links, cos_approx, cross3, dot3, is_finite_matrix, sin_approx, sqrt_approx,
    wrap_to_pi, AnkleDecoupler, AnkleParams, IkResultAtom01, JacobianResult, BAR, ROD_LONG,
    ROD_SHORT, SPACING_LEFT, SPACING_RIGHT,
};
use atom01_fw::arithmetic::Operation;

/// Single precision arithmetic; every NaN it gives is the same.
fn fpu(op: Operation) -> u32 {
    let number = f32::from_bits;
    let r = match op {
        Operation::Sum(a, b) => number(a) + number(b),
        Operation::Difference(a, b) => number(a) - number(b),
        Operation::Product(a, b) => number(a) * number(b),
        Operation::Quotient(a, b) => number(a) / number(b),
        Operation::OfInteger(n) => n as f32,
        Operation::Whole(x) => return number(x) as u32,
    };
    if r.is_nan() {
        f32::NAN.to_bits()
    } else {
        r.to_bits()
    }
}

fn numbers(bits: [u32; 3]) -> [f32; 3] {
    bits.map(f32::from_bits)
}

fn patterns(m: [[f32; 2]; 2]) -> [[u32; 2]; 2] {
    m.map(|row| row.map(f32::to_bits))
}

const IDENTITY: [[f32; 2]; 2] = [[1.0, 0.0], [0.0, 1.0]];

#[test]
fn left_and_right_have_mirrored_spacing() {
    let left = AnkleDecoupler::new(true);
    let right = AnkleDecoupler::new(false);
    let l = f32::from_bits(left.params.l_spacing);
    let r = f32::from_bits(right.params.l_spacing);
    assert!(l > 0.0);
    assert!(r < 0.0);
    assert!((l + r).abs() < 1e-6);
}

#[test]
fn default_params_match_atom01_spec() {
    let d = AnkleDecoupler::new(true);
    assert_eq!(f32::from_bits(d.params.l_rod_long), 180.0);
    assert_eq!(f32::from_bits(d.params.l_rod_short), 110.0);
    assert_eq!(f32::from_bits(d.params.l_bar), 20.0);
}

#[test]
fn default_dimensions_are_those_of_the_left_ankle() {
    assert_eq!(AnkleParams::default(), AnkleDecoupler::new(true).params);
    assert_eq!(f32::from_bits(AnkleParams::default().l_spacing), 42.35);
}

#[test]
fn fk_roundtrip_preserves_joint_angles() {
    let d = AnkleDecoupler::new(true);
    for &(target_pitch, target_roll) in &[
        (0.0_f32, 0.0_f32),
        (0.1, 0.05),
        (-0.1, 0.05),
        (0.2, -0.1),
        (0.05, 0.2),
    ] {
        let ik = d.inverse_kinematics(target_pitch.to_bits(), target_roll.to_bits(), &fpu);
        let motor = [ik.theta[0], ik.theta[1]];
        let fk = d.forward_kinematics(&motor, &fpu);
        assert!(fk.converged, "FK did not converge for ({target_pitch}, {target_roll})");
        assert!(
            (f32::from_bits(fk.pitch) - target_pitch).abs() < 1e-2,
            "pitch: target={target_pitch}, got={}",
            f32::from_bits(fk.pitch)
        );
        assert!(
            (f32::from_bits(fk.roll) - target_roll).abs() < 1e-2,
            "roll: target={target_roll}, got={}",
            f32::from_bits(fk.roll)
        );
    }
}

#[test]
fn fk_bails_out_on_pathological_motor_angles() {
    let d = AnkleDecoupler::new(true);
    let fk = d.forward_kinematics(&[100.0_f32.to_bits(), (-100.0_f32).to_bits()], &fpu);
    assert!(!fk.converged, "FK should detect divergence");
    assert!(f32::from_bits(fk.pitch).is_finite());
    assert!(f32::from_bits(fk.roll).is_finite());
}

#[test]
fn fk_bails_out_on_nan_motor_angles() {
    let d = AnkleDecoupler::new(true);
    let fk = d.forward_kinematics(&[f32::NAN.to_bits(), 0], &fpu);
    assert!(!fk.converged);
    assert!(f32::from_bits(fk.pitch).is_finite());
    assert!(f32::from_bits(fk.roll).is_finite());
}

#[test]
fn build_links_uses_exact_geometry_at_zero_and_pi() {
    let left = AnkleDecoupler::new(true);
    let right = AnkleDecoupler::new(false);
    assert_eq!(numbers(left.links_left[0].r_b_0), [-20.0, 42.35, 180.0]);
    assert_eq!(numbers(left.links_left[1].r_b_0), [20.0, 42.35, 110.0]);
    assert_eq!(numbers(right.links_right[0].r_b_0), [-20.0, -42.35, 180.0]);
    assert_eq!(numbers(right.links_right[1].r_b_0), [20.0, -42.35, 110.0]);
}

#[test]
fn links_hold_every_dimension() {
    let [long, short] = build_links(false);
    assert_eq!((long.l_rod, long.l_bar, long.l_spacing), (ROD_LONG, BAR, SPACING_RIGHT));
    assert_eq!(numbers(long.r_a_0), [0.0, -42.35, 180.0]);
    assert_eq!(numbers(long.r_c_0), [-20.0, -42.35, 0.0]);
    assert_eq!(f32::from_bits(long.theta_0), 0.0);
    assert_eq!((short.l_rod, short.l_bar), (ROD_SHORT, BAR));
    assert_eq!(numbers(short.r_a_0), [0.0, -42.35, 110.0]);
    assert_eq!(numbers(short.r_c_0), [20.0, -42.35, 0.0]);
    assert_eq!(f32::from_bits(short.theta_0), core::f32::consts::PI);
    let left = AnkleDecoupler::new(true);
    assert_eq!(left.links()[0].l_spacing, SPACING_LEFT);
    assert_eq!(AnkleDecoupler::new(false).links()[1].l_spacing, SPACING_RIGHT);
}

#[test]
fn wrap_to_pi_handles_huge_values_without_hanging() {
    let pi = core::f32::consts::PI;
    let wrap = |x: f32| f32::from_bits(wrap_to_pi(x.to_bits(), &fpu));
    let r = wrap(1.0e10);
    assert!(r.is_finite());
    assert_eq!(wrap(0.0), 0.0);
    assert!(wrap(pi * 3.0).abs() <= pi);
    assert!(wrap(-pi * 3.0).abs() <= pi);
    assert!(wrap(f32::NAN).is_nan());
}

#[test]
fn angles_are_wound_back_turn_by_turn() {
    let tau = 2.0 * core::f32::consts::PI;
    let wrap = |x: f32| f32::from_bits(wrap_to_pi(x.to_bits(), &fpu));
    assert_eq!(wrap(4.0), 4.0 - tau);
    assert_eq!(wrap(-4.0), -4.0 + tau);
    assert_eq!(wrap(10.0), 10.0 - tau - tau);
    assert_eq!(wrap(3.0), 3.0);
    assert_eq!(wrap(f32::INFINITY), f32::INFINITY);
    // Thirty-two turns at most: what needs more comes back as it is.
    let mut expected = 204.0_f32;
    for _ in 0..32 {
        expected -= tau;
    }
    assert!(expected.abs() <= core::f32::consts::PI);
    assert_eq!(wrap(204.0), expected);
    assert_eq!(wrap(-204.0), -expected);
    assert_eq!(wrap(1000.0), 1000.0);
    assert_eq!(wrap(-1000.0), -1000.0);
    assert_eq!(wrap(1.0e10), 1.0e10);
}

#[test]
fn fk_nan_check_covers_all_jacobian_rows() {
    let jac_with_nan_row0 = [[f32::NAN, 0.0], [0.0, 1.0]];
    let jac_with_nan_row1 = [[1.0, 0.0], [0.0, f32::NAN]];
    for jac in [jac_with_nan_row0, jac_with_nan_row1] {
        assert!(jac.iter().flatten().any(|v| v.is_nan()));
        assert!(!is_finite_matrix(&patterns(jac)));
    }
    for (r, c) in [(0, 0), (0, 1), (1, 0), (1, 1)] {
        let mut jac = IDENTITY;
        assert!(is_finite_matrix(&patterns(jac)));
        jac[r][c] = f32::NEG_INFINITY;
        assert!(!is_finite_matrix(&patterns(jac)));
    }
}

#[test]
fn ik_far_from_zero_still_returns_valid_angles() {
    let d = AnkleDecoupler::new(true);
    let ik = d.inverse_kinematics(0.3_f32.to_bits(), 0.15_f32.to_bits(), &fpu);
    assert!(f32::from_bits(ik.theta[0]).is_finite());
    assert!(f32::from_bits(ik.theta[1]).is_finite());
}

#[test]
fn joint_torque_to_motor_uses_transpose() {
    let d = AnkleDecoupler::new(true);
    let jac = JacobianResult {
        j_motor2joint: patterns([[1.0, 0.5], [0.2, 1.0]]),
        j_joint2motor: patterns([[1.0, 0.5], [0.2, 1.0]]),
    };
    let tau_joint = [1.0_f32, 2.0].map(f32::to_bits);
    let tau_motor = d.joint_torque_to_motor(&tau_joint, &jac, &fpu).map(f32::from_bits);
    assert!((tau_motor[0] - 1.4).abs() < 1e-6);
    assert!((tau_motor[1] - 2.5).abs() < 1e-6);
}

#[test]
fn zero_pose_is_where_the_links_were_built() {
    for side in [true, false] {
        let d = AnkleDecoupler::new(side);
        let ik = d.inverse_kinematics(0, 0, &fpu);
        for i in 0..2 {
            assert!(f32::from_bits(ik.theta[i]).abs() < 1e-3);
            let link = d.links()[i];
            let (a, b, c) = (numbers(link.r_a_0), numbers(link.r_b_0), numbers(link.r_c_0));
            for k in 0..3 {
                assert!((numbers(ik.r_bar[i])[k] - (b[k] - a[k])).abs() < 1e-2);
                assert!((numbers(ik.r_rod[i])[k] - (c[k] - b[k])).abs() < 1e-2);
                assert_eq!(numbers(ik.r_c[i])[k], c[k]);
            }
        }
    }
}

#[test]
fn rods_keep_their_length() {
    let d = AnkleDecoupler::new(false);
    for (pitch, roll) in [(0.1_f32, 0.05_f32), (-0.2, 0.1), (0.3, -0.1)] {
        let ik = d.inverse_kinematics(pitch.to_bits(), roll.to_bits(), &fpu);
        for (i, length) in [180.0_f32, 110.0].into_iter().enumerate() {
            let rod = numbers(ik.r_rod[i]);
            let l = (rod[0] * rod[0] + rod[1] * rod[1] + rod[2] * rod[2]).sqrt();
            assert!((l - length).abs() < 0.2, "rod {i} is {l} at ({pitch}, {roll})");
        }
    }
}

#[test]
fn jacobians_predict_small_motions() {
    let h = 0.02_f32;
    for side in [true, false] {
        let d = AnkleDecoupler::new(side);
        let theta = |p: f32, r: f32| {
            d.inverse_kinematics(p.to_bits(), r.to_bits(), &fpu).theta.map(f32::from_bits)
        };
        for (pitch, roll) in [(0.0_f32, 0.0_f32), (0.1, 0.05), (-0.1, 0.05), (0.2, -0.1), (0.05, 0.2)]
        {
            let ik = d.inverse_kinematics(pitch.to_bits(), roll.to_bits(), &fpu);
            let jac = d.jacobian(&ik, pitch.to_bits(), &fpu);
            for i in 0..2 {
                // Five-point differences.
                let by_pitch = (8.0 * (theta(pitch + h, roll)[i] - theta(pitch - h, roll)[i])
                    - (theta(pitch + 2.0 * h, roll)[i] - theta(pitch - 2.0 * h, roll)[i]))
                    / (12.0 * h);
                let by_roll = (8.0 * (theta(pitch, roll + h)[i] - theta(pitch, roll - h)[i])
                    - (theta(pitch, roll + 2.0 * h)[i] - theta(pitch, roll - 2.0 * h)[i]))
                    / (12.0 * h);
                assert!((f32::from_bits(jac.j_joint2motor[i][0]) - by_pitch).abs() < 1e-2);
                assert!((f32::from_bits(jac.j_joint2motor[i][1]) - by_roll).abs() < 1e-2);
            }
        }
    }
}

#[test]
fn jacobians_undo_each_other_within_a_hundredth() {
    for side in [true, false] {
        let d = AnkleDecoupler::new(side);
        for (p, r) in [(0.0_f32, 0.0_f32), (0.1, 0.05), (-0.3, 0.15), (0.3, 0.1)] {
            let ik = d.inverse_kinematics(p.to_bits(), r.to_bits(), &fpu);
            let jac = d.jacobian(&ik, p.to_bits(), &fpu);
            let (f, g) = (jac.j_motor2joint, jac.j_joint2motor);
            for a in 0..2 {
                for b in 0..2 {
                    let entry: f32 =
                        (0..2).map(|k| f32::from_bits(f[a][k]) * f32::from_bits(g[k][b])).sum();
                    assert!((entry - IDENTITY[a][b]).abs() < 1e-2);
                }
            }
        }
    }
}

#[test]
fn loops_close() {
    let d = AnkleDecoupler::new(true);
    for (p, r) in [(0.0_f32, 0.0_f32), (0.1, 0.05), (-0.3, 0.15), (0.3, -0.1)] {
        let ik = d.inverse_kinematics(p.to_bits(), r.to_bits(), &fpu);
        for i in 0..2 {
            let a = numbers(d.links()[i].r_a_0);
            let (bar, rod, c) = (numbers(ik.r_bar[i]), numbers(ik.r_rod[i]), numbers(ik.r_c[i]));
            for k in 0..3 {
                assert!((a[k] + bar[k] + rod[k] - c[k]).abs() < 1e-3);
            }
            let bar_length = (bar[0] * bar[0] + bar[1] * bar[1] + bar[2] * bar[2]).sqrt();
            assert!((bar_length - 20.0).abs() < 1e-3);
        }
    }
}

#[test]
fn singular_linkages_give_a_zero_jacobian() {
    let d = AnkleDecoupler::new(true);
    let jac = d.jacobian(&IkResultAtom01::default(), 0, &fpu);
    assert_eq!(jac.j_motor2joint.map(|row| row.map(f32::from_bits)), [[0.0; 2]; 2]);
    assert_eq!(jac.j_joint2motor.map(|row| row.map(f32::from_bits)), [[0.0; 2]; 2]);
}

#[test]
fn one_matrix_serves_both_ways() {
    let m = patterns([[1.0, 2.0], [3.0, 4.0]]);
    let jac = JacobianResult::from(m);
    assert_eq!(jac.j_motor2joint, m);
    assert_eq!(jac.j_joint2motor, m);
    assert_eq!(JacobianResult::default(), JacobianResult::from([[0; 2]; 2]));
}

#[test]
fn polynomials_are_evaluated_in_order() {
    for x in [0.0_f32, 0.1, -0.7, 1.0, 1.5, -3.0] {
        let x2 = x * x;
        let (x3, x4) = (x2 * x, x2 * x2);
        let (x5, x6) = (x3 * x2, x4 * x2);
        let (x7, x8) = (x5 * x2, x6 * x2);
        let x9 = x7 * x2;
        let sin = x - x3 * (1.0 / 6.0) + x5 * (1.0 / 120.0) - x7 * (1.0 / 5040.0)
            + x9 * (1.0 / 362880.0);
        let cos = 1.0 - x2 * 0.5 + x4 * (1.0 / 24.0) - x6 * (1.0 / 720.0) + x8 * (1.0 / 40320.0);
        assert_eq!(f32::from_bits(sin_approx(x.to_bits(), &fpu)), sin);
        assert_eq!(f32::from_bits(cos_approx(x.to_bits(), &fpu)), cos);
    }
    for x in [0.0_f32, 0.2, -0.9, 1.0, -4.0, 7.0] {
        let y = x.clamp(-1.0, 1.0);
        let y2 = y * y;
        let y3 = y2 * y;
        let y5 = y3 * y2;
        let y7 = y5 * y2;
        let y9 = y7 * y2;
        let asin = y + y3 * (1.0 / 6.0) + y5 * (3.0 / 40.0) + y7 * (5.0 / 112.0)
            + y9 * (35.0 / 1152.0);
        assert_eq!(f32::from_bits(asin_approx(x.to_bits(), &fpu)), asin);
    }
}

#[test]
fn approximations_are_close() {
    let pi = core::f32::consts::PI;
    // A quarter turn either way around zero, and a full turn further.
    for i in -157..=157 {
        let x = i as f32 * 0.01;
        assert!((f32::from_bits(sin_approx(x.to_bits(), &fpu)) - x.sin()).abs() < 1e-5);
        assert!((f32::from_bits(cos_approx(x.to_bits(), &fpu)) - x.cos()).abs() < 2.6e-5);
        let turned = x + 2.0 * pi;
        assert!((f32::from_bits(sin_approx(turned.to_bits(), &fpu)) - turned.sin()).abs() < 1e-5);
    }
    assert!((f32::from_bits(cos_approx(1.4_f32.to_bits(), &fpu)) - 1.4_f32.cos()).abs() < 1e-5);
    for x in [1e-6_f32, 0.25, 2.0, 100.0, 1.3e7, 3.0e30] {
        let root = f32::from_bits(sqrt_approx(x.to_bits(), &fpu));
        assert!((root / x.sqrt() - 1.0).abs() < 1e-6, "root of {x}: {root}");
    }
    assert_eq!(sqrt_approx(0, &fpu), 0);
    assert_eq!(sqrt_approx((-4.0_f32).to_bits(), &fpu), 0);
    assert!(f32::from_bits(sqrt_approx(f32::NAN.to_bits(), &fpu)).is_nan());
}

#[test]
fn vector_products() {
    let a = [1.0_f32, 2.0, 3.0].map(f32::to_bits);
    let b = [4.0_f32, -5.0, 6.0].map(f32::to_bits);
    assert_eq!(f32::from_bits(dot3(&a, &b, &fpu)), 12.0);
    assert_eq!(numbers(cross3(&a, &b, &fpu)), [27.0, 6.0, -13.0]);
}

#[test]
fn fk_finds_the_zero_pose_at_once() {
    let fk = AnkleDecoupler::new(true).forward_kinematics(&[0, 0], &fpu);
    assert!(fk.converged);
    assert_eq!(fk.iterations, 1);
    assert!(f32::from_bits(fk.pitch).abs() < 1e-3);
    assert!(f32::from_bits(fk.roll).abs() < 1e-3);
}

#[test]
fn fk_that_gives_up_answers_with_the_zero_pose() {
    let d = AnkleDecoupler::new(false);
    for motor in [[100.0_f32, -100.0], [f32::NAN, 0.0], [0.0, f32::INFINITY]] {
        let fk = d.forward_kinematics(&motor.map(f32::to_bits), &fpu);
        assert!(!fk.converged);
        assert_eq!((fk.pitch, fk.roll, fk.iterations), (0, 0, 0));
        assert_eq!(fk.jacobian, patterns(IDENTITY));
    }
}

#[test]
fn fk_gives_up_after_a_hundred_evaluations() {
    // A unit without products never comes closer to the asked angles, nor further.
    let flat = |op: Operation| match op {
        Operation::Product(_, _) => 0,
        other => fpu(other),
    };
    let d = AnkleDecoupler::new(true);
    let fk = d.forward_kinematics(&[0.5_f32.to_bits(), 0], &flat);
    assert!(!fk.converged);
    assert_eq!(fk.iterations, 100);
    assert_eq!((fk.pitch, fk.roll), (0, 0));
    assert_eq!(fk.jacobian, [[0; 2]; 2]);
}

#[test]
fn ik_at_zero_pose_returns_motor_angles_near_construction() {
    let d = AnkleDecoupler::new(true);
    let ik = d.inverse_kinematics(0, 0, &fpu);
    let theta = ik.theta.map(f32::from_bits);
    assert!((theta[0] - 0.0).abs() < 1e-3, "long motor: {}", theta[0]);
    // Motor angles count from the zero pose, where the short bar points the other
    // way: half a turn from the long one.
    let built = f32::from_bits(d.links()[1].theta_0) + theta[1];
    assert!((built - core::f32::consts::PI).abs() < 1e-3, "short motor: {}", theta[1]);
}

#[test]
fn fk_takes_fewer_than_ten_evaluations() {
    // Motor angles up to a radian either way.
    for side in [true, false] {
        let d = AnkleDecoupler::new(side);
        for i in -10..=10 {
            for j in -10..=10 {
                let motor = [i as f32 * 0.1, j as f32 * 0.1].map(f32::to_bits);
                let fk = d.forward_kinematics(&motor, &fpu);
                assert!(fk.converged && fk.iterations < 10, "({i}, {j}): {}", fk.iterations);
            }
        }
    }
}

#[test]
fn fk_finds_typical_poses_in_fewer_than_ten_evaluations() {
    for side in [true, false] {
        let d = AnkleDecoupler::new(side);
        for (p, r) in [
            (0.0_f32, 0.0_f32),
            (0.1, 0.05),
            (-0.1, 0.05),
            (0.2, -0.1),
            (0.05, 0.2),
            (0.3, 0.1),
            (0.3, 0.15),
            (-0.3, -0.15),
        ] {
            let ik = d.inverse_kinematics(p.to_bits(), r.to_bits(), &fpu);
            let fk = d.forward_kinematics(&ik.theta, &fpu);
            assert!(fk.converged && (1..10).contains(&fk.iterations), "{}", fk.iterations);
            assert!((f32::from_bits(fk.pitch) - p).abs() < 1e-3);
            assert!((f32::from_bits(fk.roll) - r).abs() < 1e-3);
        }
    }
}

#[test]
fn fk_angles_are_finite_whatever_is_asked() {
    let d = AnkleDecoupler::new(true);
    let odd = [0.0_f32, 0.7, -1.4, 3.0, -10.0, 1e30, f32::INFINITY, f32::NEG_INFINITY, f32::NAN];
    for a in odd {
        for b in odd {
            let fk = d.forward_kinematics(&[a.to_bits(), b.to_bits()], &fpu);
            assert!(f32::from_bits(fk.pitch).is_finite() && f32::from_bits(fk.roll).is_finite());
            assert!(fk.iterations <= 100);
        }
    }
}

#[test]
fn right_ankle_mirrors_the_left_one() {
    let (left, right) = (AnkleDecoupler::new(true), AnkleDecoupler::new(false));
    for (p, r) in [(0.0_f32, 0.0_f32), (0.2, 0.1), (-0.3, 0.25), (0.1, -0.4), (9.0, 5.0)] {
        let a = left.inverse_kinematics(p.to_bits(), r.to_bits(), &fpu);
        let b = right.inverse_kinematics(p.to_bits(), (-r).to_bits(), &fpu);
        assert_eq!(a.theta.map(f32::from_bits), b.theta.map(f32::from_bits));
        for i in 0..2 {
            for (u, v) in [(a.r_bar, b.r_bar), (a.r_rod, b.r_rod), (a.r_c, b.r_c)] {
                let (u, v) = (numbers(u[i]), numbers(v[i]));
                assert_eq!(u, [v[0], -v[1], v[2]]);
            }
        }
    }
}

#[test]
fn sine_and_cosine_lie_on_the_unit_circle_within_a_part_in_30000() {
    let mut x = -1.32_f32;
    while x <= 1.32 {
        let s = f32::from_bits(sin_approx(x.to_bits(), &fpu)) as f64;
        let c = f32::from_bits(cos_approx(x.to_bits(), &fpu)) as f64;
        assert!((s * s + c * c - 1.0).abs() <= 1.0 / 30000.0);
        x += 0.01;
    }
}

#[test]
fn sine_undoes_arc_sine_up_to_a_half() {
    let mut s = -0.5_f32;
    while s <= 0.5 {
        let theta = asin_approx(s.to_bits(), &fpu);
        let back = f32::from_bits(sin_approx(theta, &fpu));
        let opposite = f32::from_bits(sin_approx((-f32::from_bits(theta)).to_bits(), &fpu));
        assert!((back - s).abs() <= 1.0 / 5500.0);
        assert!((opposite + s).abs() <= 1.0 / 5500.0);
        assert!(2.0 * f32::from_bits(cos_approx(theta, &fpu)) >= 1.0);
        s += 0.01;
    }
}

#[test]
fn arc_sines_stay_below_132_hundredths() {
    for s in [-f32::INFINITY, -7.0, -1.0, -0.99, -0.3, 0.0, 0.5, 0.99, 1.0, 2.0, f32::INFINITY] {
        assert!(f32::from_bits(asin_approx(s.to_bits(), &fpu)).abs() <= 1.32);
    }
    assert!(f32::from_bits(asin_approx(1.0_f32.to_bits(), &fpu)) > 1.31);
}

#[test]
fn squares_of_square_roots_come_back() {
    let mut x = 1.0_f32;
    while x <= 1.0995116e12 {
        let r = f32::from_bits(sqrt_approx(x.to_bits(), &fpu)) as f64;
        assert!((r * r - x as f64).abs() <= 9.0 / 16777216.0 * x as f64);
        x *= 1.37;
    }
}

#[test]
fn linkages_at_work_keep_bars_and_rods() {
    for side in [true, false] {
        let d = AnkleDecoupler::new(side);
        for (p, r) in [(0.0_f32, 0.0_f32), (0.1, 0.05), (-0.2, 0.1), (0.3, 0.1), (0.2, -0.1), (0.05, 0.2)] {
            let ik = d.inverse_kinematics(p.to_bits(), r.to_bits(), &fpu);
            for i in 0..2 {
                let link = d.links()[i];
                let (o, c) = (numbers(link.r_a_0), numbers(ik.r_c[i]));
                let (a, g, b) = (c[0] - o[0], c[1] - o[1], o[2] - c[2]);
                let l = f32::from_bits(link.l_rod);
                let e = (l * l - 400.0 - (a * a + g * g + b * b)) / 40.0;
                let theta = f32::from_bits(ik.theta[i]);
                assert!((10.0..=30.0).contains(&a.abs()) && (a > 0.0) == (i == 1));
                assert!(g.abs() <= 20.0 && (80.0..=210.0).contains(&b) && e.abs() <= b);
                assert!(theta.sin().abs() <= 0.5);
                let square = |v: [f32; 3]| v.iter().map(|x| *x as f64 * *x as f64).sum::<f64>();
                assert!((square(numbers(ik.r_bar[i])) - 400.0).abs() <= 1.0 / 25.0);
                assert!((square(numbers(ik.r_rod[i])) - (l * l) as f64).abs() <= 3.0);
            }
        }
    }
}

#[test]
fn rates_of_the_motors_keep_the_rods() {
    for side in [true, false] {
        let d = AnkleDecoupler::new(side);
        for (p, r) in [(0.0_f32, 0.0_f32), (0.1, 0.05), (-0.1, 0.05), (0.2, -0.1), (0.05, 0.2)] {
            let ik = d.inverse_kinematics(p.to_bits(), r.to_bits(), &fpu);
            let jac = d.jacobian(&ik, p.to_bits(), &fpu);
            let cos = f32::from_bits(cos_approx(p.to_bits(), &fpu)) as f64;
            let sin = f32::from_bits(sin_approx(p.to_bits(), &fpu)) as f64;
            for i in 0..2 {
                let wide = |v: [u32; 3]| numbers(v).map(|x| x as f64);
                let (bar, rod, c) = (wide(ik.r_bar[i]), wide(ik.r_rod[i]), wide(ik.r_c[i]));
                let moment = |a: [f64; 3], b: [f64; 3], i: usize| {
                    let (j, l) = ((i + 1) % 3, (i + 2) % 3);
                    a[j] * b[l] - a[l] * b[j]
                };
                let rate = jac.j_joint2motor[i].map(|x| f32::from_bits(x) as f64);
                let motor = moment(bar, rod, 1);
                assert!(motor.abs() >= 1000.0);
                assert!((rate[0] * motor - moment(c, rod, 1)).abs() <= 6.0);
                let roll = cos * moment(c, rod, 0) - sin * moment(c, rod, 2);
                assert!((rate[1] * motor - roll).abs() <= 6.0);
            }
        }
    }
}
