use atom01_fw::arithmetic::{
    inner, minus, minus_of_times, over, perform, plus, plus_of_times, times, Operation, HALF,
    MINUS_ONE, ONE, TWO,
};

/// Single precision arithmetic; every NaN it gives is the same.
fn fpu(op: Operation) -> u32 {
    let number = f32::from_bits;
    let r = match op {
        Operation::Sum(a, b) => number(a) + number(b),
        Operation::Difference(a, b) => number(a) - number(b),
        Operation::Product(a, b) => number(a) * number(b),
        Operation::Quotient(a, b) => number(a) / number(b),
        Operation::OfInteger(n) => n as f32,
        Operation::Whole(x) => return number(x) as u32,
    };
    if r.is_nan() {
        f32::NAN.to_bits()
    } else {
        r.to_bits()
    }
}

fn bits(x: f32) -> u32 {
    x.to_bits()
}

#[test]
fn constants_are_the_numbers_they_name() {
    assert_eq!([ONE, MINUS_ONE, HALF, TWO].map(f32::from_bits), [1.0, -1.0, 0.5, 2.0]);
}

#[test]
fn operations_reach_the_unit_in_order() {
    let (a, b) = (bits(7.0), bits(2.0));
    assert_eq!(plus(&fpu, a, b), bits(9.0));
    assert_eq!(minus(&fpu, a, b), bits(5.0));
    assert_eq!(times(&fpu, a, b), bits(14.0));
    assert_eq!(over(&fpu, a, b), bits(3.5));
    assert_eq!(perform(&fpu, Operation::OfInteger(4095)), bits(4095.0));
    assert_eq!(perform(&fpu, Operation::Whole(bits(3.99))), 3);
    assert_eq!(plus_of_times(&fpu, a, b, bits(3.0), bits(5.0)), bits(29.0));
    assert_eq!(minus_of_times(&fpu, a, b, bits(3.0), bits(5.0)), bits(-1.0));
}

#[test]
fn inner_products_add_from_the_first_entry() {
    let a = [1.0_f32, 2.0, 3.0].map(bits);
    let b = [10.0_f32, 100.0, 1000.0].map(bits);
    assert_eq!(inner(&fpu, &a, &b), bits(3210.0));
    assert_eq!(inner(&fpu, &[], &[]), 0);
    // In another order the small number would be lost.
    let c = [1e8_f32, -1e8, 1.0].map(bits);
    let d = [1.0_f32, 1.0, 1.0].map(bits);
    assert_eq!(inner(&fpu, &c, &d), bits(1.0));
}

/// Numbers of all sizes, both zeros, infinities and a NaN.
const SAMPLES: [f32; 23] = [
    0.0,
    -0.0,
    1e-45,
    -1e-45,
    1e-38,
    -3e-39,
    1e-9,
    -1e-3,
    0.1,
    0.5,
    -0.7,
    1.0,
    -1.0,
    1.5,
    -3.1415927,
    42.35,
    -200.0,
    65535.0,
    1e20,
    f32::MAX,
    f32::INFINITY,
    f32::NEG_INFINITY,
    f32::NAN,
];

fn number(op: Operation) -> f32 {
    f32::from_bits(perform(&fpu, op))
}

fn equal(a: f32, b: f32) -> bool {
    a == b || a.is_nan() && b.is_nan()
}

#[test]
fn single_precision_keeps_order() {
    let finite = SAMPLES.into_iter().filter(|x| x.is_finite());
    for m in finite.clone() {
        let k = bits(m);
        assert_eq!(number(Operation::Difference(k, k)), 0.0);
        assert_eq!(number(Operation::Product(0, k)), 0.0);
        assert_eq!(number(Operation::Product(ONE, k)), m);
        if m > 0.0 {
            assert_eq!(number(Operation::Quotient(0, k)), 0.0);
            assert_eq!(number(Operation::Quotient(k, k)), 1.0);
        }
        for x in finite.clone() {
            for y in finite.clone().filter(|y| x <= *y) {
                let (a, b) = (bits(x), bits(y));
                assert!(number(Operation::Difference(a, k)) <= number(Operation::Difference(b, k)));
                assert!(number(Operation::Sum(a, k)) <= number(Operation::Sum(b, k)));
                assert!(number(Operation::Sum(k, a)) <= number(Operation::Sum(k, b)));
                if m >= 0.0 {
                    assert!(number(Operation::Product(a, k)) <= number(Operation::Product(b, k)));
                }
                if m > 0.0 {
                    assert!(number(Operation::Quotient(a, k)) <= number(Operation::Quotient(b, k)));
                }
                if x < y {
                    assert!(number(Operation::Difference(b, a)) > 0.0);
                }
            }
        }
    }
    for n in [0_u32, 1, 2, 4095, 65535, 0x3F_FFFF] {
        let x = perform(&fpu, Operation::OfInteger(n));
        assert_eq!(perform(&fpu, Operation::Whole(plus(&fpu, x, HALF))), n);
        for m in [0_u32, 1, 100, 0xBF_FFFF] {
            let y = perform(&fpu, Operation::OfInteger(m));
            assert_eq!(plus(&fpu, y, x), perform(&fpu, Operation::OfInteger(m + n)));
        }
    }
    for x in SAMPLES {
        for y in SAMPLES.into_iter().filter(|y| x <= *y) {
            let (p, q) = (Operation::Whole(bits(x)), Operation::Whole(bits(y)));
            assert!(perform(&fpu, p) <= perform(&fpu, q));
        }
    }
}

#[test]
fn single_precision_respects_signs() {
    for x in SAMPLES {
        let square = perform(&fpu, Operation::Product(bits(x), bits(x)));
        assert!(square < 0x8000_0000);
        for y in SAMPLES {
            let (a, b, c, d) = (bits(x), bits(y), bits(-x), bits(-y));
            let flipped = [
                (Operation::Sum(a, b), Operation::Sum(c, d)),
                (Operation::Difference(a, b), Operation::Difference(c, d)),
                (Operation::Difference(a, b), Operation::Sum(c, b)),
                (Operation::Sum(a, b), Operation::Difference(c, b)),
                (Operation::Product(a, b), Operation::Product(c, b)),
                (Operation::Product(a, b), Operation::Product(a, d)),
                (Operation::Quotient(a, b), Operation::Quotient(c, b)),
            ];
            for (p, q) in flipped {
                assert!(equal(-number(p), number(q)), "{p:?} {q:?}");
            }
            assert!(equal(number(Operation::Product(a, b)), number(Operation::Product(c, d))));
            if x.is_nan() || y.is_nan() {
                assert!(number(Operation::Sum(a, b)).is_nan());
                assert!(number(Operation::Product(a, b)).is_nan());
                assert!(number(Operation::Quotient(a, b)).is_nan());
            }
        }
    }
}

#[test]
fn single_precision_is_accurate() {
    let reach = 18446744073709551616.0_f64;
    let part = 1.0 / 16777216.0_f64;
    let step = f64::from(f32::from_bits(1));
    let finite = SAMPLES.into_iter().filter(|x| x.is_finite());
    for x in finite.clone() {
        let a = bits(x);
        assert!(equal(number(Operation::Sum(0, a)), x));
        assert!(equal(number(Operation::Sum(bits(-0.0), a)), x));
        if f64::from(x).abs() * 2.0 <= reach {
            assert_eq!(number(Operation::Product(a, TWO)), x + x);
        }
        if 0.0 <= x && x < 4294967296.0 {
            let n = perform(&fpu, Operation::Whole(a));
            assert!(f64::from(n) <= f64::from(x) && f64::from(x) < f64::from(n) + 1.0);
        }
        for y in finite.clone() {
            let b = bits(y);
            let (u, v) = (f64::from(x), f64::from(y));
            // Sums of singles of very different sizes are rounded in double precision
            // too, but by far less.
            let slack = 1.0 + 1e-7;
            for (op, exact, floor) in [
                (Operation::Sum(a, b), u + v, 0.0),
                (Operation::Difference(a, b), u - v, 0.0),
                (Operation::Product(a, b), u * v, step),
                (Operation::Quotient(a, b), u / v, step),
            ] {
                if exact.is_finite() && exact.abs() <= reach {
                    let r = f64::from(number(op));
                    assert!((r - exact).abs() <= slack * part * exact.abs() + floor, "{op:?}");
                }
            }
        }
    }
}
