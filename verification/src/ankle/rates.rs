//! Rates of the ankle's joints and motors.
//!
//! While the foot turns, each rod keeps its length: the ends of the rod move alike
//! along it. That fixes how fast each motor turns.
use crate::ankle::accuracy::{lemma_joint2motor, lemma_unit, moderate_matrix, sizable};
use crate::ankle::circle::sine_and_cosine_lie_on_the_unit_circle;
use crate::ankle::rods::{lemma_bounded, lemma_error_times, lemma_times};
use crate::ankle::{
    cosine, cross_product, jacobian_at, joint_gains, motor_gain, motor_gains, pitch_twist,
    roll_twist, sine, twist_row, IkResultAtom01,
};
use crate::arithmetic::{
    accurate, difference, difference_of_products, inner_product, lemma_difference_error,
    lemma_one_is_large, lemma_product_error, lemma_size_of_product, lemma_sum_error, product, reach,
    size, sum, Operation, INTEGERS, ONE,
};
use crate::binary32::{finite, negated, negation_undoes_itself, one, scaled};
use vstd::prelude::*;

verus! {

/// A vector whose coordinates are at most 250, as those of rods, bars and pivots are.
pub open spec fn compact(p: [u32; 3]) -> bool {
    forall|i: int| 0 <= i < 3 ==> finite(#[trigger] p@[i]) && size(scaled(p@[i])) <= 250 * one()
}

/// A coordinate of the vector product of two vectors, in exact arithmetic: that along
/// the axis `i`.
pub open spec fn moment(a: [u32; 3], b: [u32; 3], i: int) -> int {
    let (j, l) = ((i + 1) % 3, (i + 2) % 3);
    scaled(a@[j]) * scaled(b@[l]) - scaled(a@[l]) * scaled(b@[j])
}

/// The difference of two products of coordinates.
proof fn lemma_moment<F: Fn(Operation) -> u32>(fpu: F, a: u32, b: u32, c: u32, d: u32)
    requires
        accurate(fpu),
        finite(a) && finite(b) && finite(c) && finite(d),
        size(scaled(a)) <= 250 * one(),
        size(scaled(b)) <= 250 * one(),
        size(scaled(c)) <= 250 * one(),
        size(scaled(d)) <= 250 * one(),
    ensures
        ({
            let r = difference_of_products(fpu, a, b, c, d);
            let k = one();
            &&& finite(r) && size(scaled(r)) <= 125004 * k
            &&& INTEGERS * size(scaled(r) * k - (scaled(a) * scaled(b) - scaled(c) * scaled(d))) <= 250010
                * (k * k)
        }),
{
    let k = one();
    lemma_one_is_large();
    lemma_times(fpu, a, b, 250, 250, 62500);
    lemma_times(fpu, c, d, 250, 250, 62500);
    let (x, y) = (product(fpu, a, b), product(fpu, c, d));
    lemma_difference_error(fpu, x, y);
    let r = scaled(difference(fpu, x, y));
    let f = r - (scaled(x) - scaled(y));
    lemma_error_times(f, k, 125002, 1, k, k);
    assert(r * k == f * k + scaled(x) * k - scaled(y) * k) by (nonlinear_arith)
        requires
            f == r - (scaled(x) - scaled(y)),
    ;
}

/// A product with zero is next to nothing.
proof fn lemma_nothing<F: Fn(Operation) -> u32>(fpu: F, a: u32, z: u32)
    requires
        accurate(fpu),
        finite(a) && finite(z),
        scaled(z) == 0 || scaled(a) == 0,
    ensures
        finite(product(fpu, a, z)),
        size(scaled(product(fpu, a, z))) <= 1,
{
    let (k, p) = (one(), scaled(product(fpu, a, z)));
    lemma_one_is_large();
    assert(scaled(a) * scaled(z) == 0) by (nonlinear_arith)
        requires
            scaled(z) == 0 || scaled(a) == 0,
    ;
    assert(0 <= reach() * k) by (nonlinear_arith)
        requires
            reach() == 0x1_0000_0000_0000_0000 * k,
            0 < k,
    ;
    lemma_product_error(fpu, a, z);
    assert(size(p * k) == size(p) * k) by (nonlinear_arith)
        requires
            0 < k,
    ;
    assert(size(p) <= 1) by (nonlinear_arith)
        requires
            INTEGERS * (size(p) * k) <= INTEGERS * k,
            0 < k,
    ;
}

/// A rounded sum of numbers up to a million.
proof fn lemma_added<F: Fn(Operation) -> u32>(fpu: F, a: u32, b: u32, m: int, n: int)
    requires
        accurate(fpu),
        finite(a) && finite(b),
        size(scaled(a)) <= m * one(),
        size(scaled(b)) <= n * one(),
        0 <= m <= 1000000,
        0 <= n <= 1000000,
    ensures
        finite(sum(fpu, a, b)),
        INTEGERS * size(scaled(sum(fpu, a, b)) - (scaled(a) + scaled(b))) <= (m + n) * one(),
        size(scaled(sum(fpu, a, b))) <= (m + n + 1) * one(),
{
    let k = one();
    lemma_one_is_large();
    assert(m * k <= 1000000 * k && n * k <= 1000000 * k && (m + n) * k == m * k + n * k && (m + n + 1) * k
        == m * k + n * k + k) by (nonlinear_arith)
        requires
            m <= 1000000,
            n <= 1000000,
            0 < k,
    ;
    lemma_sum_error(fpu, a, b);
}

/// The product of a number up to 125004 and one that is at most 1.02.
proof fn lemma_share_of<F: Fn(Operation) -> u32>(fpu: F, a: u32, b: u32)
    requires
        accurate(fpu),
        finite(a) && finite(b),
        size(scaled(a) * scaled(b)) <= 130000 * (one() * one()),
    ensures
        ({
            let (p, k) = (product(fpu, a, b), one());
            &&& finite(p) && size(scaled(p)) <= 130001 * k
            &&& INTEGERS * size(scaled(p) * k - scaled(a) * scaled(b)) <= 130001 * (k * k)
        }),
{
    let k = one();
    let p2 = k * k;
    lemma_one_is_large();
    assert(130000 * p2 <= reach() * k && INTEGERS * k <= p2) by (nonlinear_arith)
        requires
            reach() == 0x1_0000_0000_0000_0000 * k,
            p2 == k * k,
            k >= 0x1_0000_0000_0000_0000,
    ;
    lemma_product_error(fpu, a, b);
    let p = scaled(product(fpu, a, b));
    assert(size(p) <= 130001 * k) by (nonlinear_arith)
        requires
            size(p * k) <= 130001 * p2,
            p2 == k * k,
            0 < k,
    ;
}

/// Three sums, counted in squares of steps.
proof fn lemma_three_sums(k: int, a: int, b: int, c: int, x: int, y: int, z: int, m: int)
    requires
        INTEGERS * size(x - a) <= m * k,
        INTEGERS * size(y - (x + b)) <= m * k,
        INTEGERS * size(z - (y + c)) <= m * k,
        0 < k,
    ensures
        INTEGERS * size(z * k - (a * k + b * k + c * k)) <= (3 * m) * (k * k),
{
    let f = z - (a + b + c);
    assert(INTEGERS * size(f) <= 3 * (m * k));
    assert(3 * (m * k) == (3 * m) * k) by (nonlinear_arith);
    lemma_error_times(f, k, 3 * m, 1, k, k);
    assert(f * k == z * k - (a * k + b * k + c * k)) by (nonlinear_arith)
        requires
            f == z - (a + b + c),
    ;
}

/// The gain of a motor, from the moment of the rod about its axis.
proof fn lemma_motor_gain<F: Fn(Operation) -> u32>(fpu: F, bar: [u32; 3], rod: [u32; 3])
    requires
        accurate(fpu),
        compact(bar),
        compact(rod),
    ensures
        ({
            let (g, k) = (motor_gain(fpu, bar, rod), one());
            INTEGERS * size(scaled(g) * k - moment(bar, rod, 1)) <= 2000000 * (k * k)
        }),
{
    let k = one();
    lemma_one_is_large();
    lemma_unit();
    lemma_moment(fpu, bar@[1], rod@[2], bar@[2], rod@[1]);
    lemma_moment(fpu, bar@[2], rod@[0], bar@[0], rod@[2]);
    lemma_moment(fpu, bar@[0], rod@[1], bar@[1], rod@[0]);
    let v = cross_product(fpu, bar, rod);
    let (x, y, z) = (v@[0], v@[1], v@[2]);
    lemma_nothing(fpu, 0, x);
    lemma_nothing(fpu, 0, z);
    let t = scaled(y);
    assert(size(k * t) <= 130000 * (k * k)) by {
        lemma_bounded(k, t, 1, 130000, k, k);
    }
    lemma_share_of(fpu, ONE, y);
    let (p, q, r) = (product(fpu, 0, x), product(fpu, ONE, y), product(fpu, 0, z));
    lemma_added(fpu, p, q, 1, 130001);
    let u = sum(fpu, p, q);
    lemma_added(fpu, u, r, 130003, 1);
    let w = sum(fpu, u, r);
    assert(motor_gain(fpu, bar, rod) == w);
    lemma_three_sums(k, scaled(q), scaled(p), scaled(r), scaled(q), scaled(u), scaled(w), 130004);
    assert(size(scaled(p) * k) <= k && size(scaled(r) * k) <= k) by {
        lemma_steps(scaled(p), k);
        lemma_steps(scaled(r), k);
    }
    lemma_step_is_small();
    assert(k * t == t * k) by (nonlinear_arith);
}

/// A step or none, in squares.
proof fn lemma_steps(p: int, k: int)
    requires
        size(p) <= 1,
        0 < k,
    ensures
        size(p * k) <= k,
{
    lemma_bounded(p, k, 1, 1, 1, k);
}

/// A step is small against a square.
proof fn lemma_step_is_small()
    ensures
        1000 * (INTEGERS * one()) <= one() * one(),
{
    let k = one();
    lemma_one_is_large();
    assert(1000 * (INTEGERS * k) <= k * k) by (nonlinear_arith)
        requires
            k >= 0x1_0000_0000_0000_0000,
    ;
}

/// Six sums, counted in squares of steps.
proof fn lemma_six_sums(k: int, p: Seq<int>, s: Seq<int>)
    requires
        0 < k,
        p.len() == 6,
        s.len() == 6,
        INTEGERS * size(s[0] - p[0]) <= 800000 * k,
        INTEGERS * size(s[1] - (s[0] + p[1])) <= 800000 * k,
        INTEGERS * size(s[2] - (s[1] + p[2])) <= 800000 * k,
        INTEGERS * size(s[3] - (s[2] + p[3])) <= 800000 * k,
        INTEGERS * size(s[4] - (s[3] + p[4])) <= 800000 * k,
        INTEGERS * size(s[5] - (s[4] + p[5])) <= 800000 * k,
    ensures
        INTEGERS * size(
            s[5] * k - (p[0] * k + p[1] * k + p[2] * k + p[3] * k + p[4] * k + p[5] * k),
        ) <= 4800000 * (k * k),
{
    let f = s[5] - (p[0] + p[1] + p[2] + p[3] + p[4] + p[5]);
    lemma_error_times(f, k, 4800000, 1, k, k);
    assert(f * k == s[5] * k - (p[0] * k + p[1] * k + p[2] * k + p[3] * k + p[4] * k + p[5] * k))
        by (nonlinear_arith)
        requires
            f == s[5] - (p[0] + p[1] + p[2] + p[3] + p[4] + p[5]),
    ;
}

/// The partial sums of an inner product of six entries.
proof fn lemma_inner_sums<F: Fn(Operation) -> u32>(fpu: F, p: Seq<u32>)
    requires
        accurate(fpu),
        p.len() == 6,
        forall|i: int| 0 <= i < 6 ==> finite(#[trigger] p[i]) && size(scaled(p[i])) <= 130001 * one(),
    ensures
        ({
            let k = one();
            let s0 = sum(fpu, 0, p[0]);
            let s1 = sum(fpu, s0, p[1]);
            let s2 = sum(fpu, s1, p[2]);
            let s3 = sum(fpu, s2, p[3]);
            let s4 = sum(fpu, s3, p[4]);
            let s5 = sum(fpu, s4, p[5]);
            INTEGERS * size(
                scaled(s5) * k - (scaled(p[0]) * k + scaled(p[1]) * k + scaled(p[2]) * k + scaled(p[3]) * k
                    + scaled(p[4]) * k + scaled(p[5]) * k),
            ) <= 4800000 * (k * k)
        }),
{
    let k = one();
    lemma_one_is_large();
    lemma_unit();
    let s0 = sum(fpu, 0, p[0]);
    lemma_added(fpu, 0, p[0], 0, 130001);
    let s1 = sum(fpu, s0, p[1]);
    lemma_added(fpu, s0, p[1], 130002, 130001);
    let s2 = sum(fpu, s1, p[2]);
    lemma_added(fpu, s1, p[2], 260004, 130001);
    let s3 = sum(fpu, s2, p[3]);
    lemma_added(fpu, s2, p[3], 390006, 130001);
    let s4 = sum(fpu, s3, p[4]);
    lemma_added(fpu, s3, p[4], 520008, 130001);
    let s5 = sum(fpu, s4, p[5]);
    lemma_added(fpu, s4, p[5], 650010, 130001);
    lemma_six_sums(
        k,
        seq![
            scaled(p[0]),
            scaled(p[1]),
            scaled(p[2]),
            scaled(p[3]),
            scaled(p[4]),
            scaled(p[5]),
        ],
        seq![scaled(s0), scaled(s1), scaled(s2), scaled(s3), scaled(s4), scaled(s5)],
    );
}

/// An inner product of six entries.
#[verifier::spinoff_prover]
#[verifier::rlimit(60)]
proof fn lemma_inner<F: Fn(Operation) -> u32>(fpu: F, a: Seq<u32>, b: Seq<u32>)
    requires
        accurate(fpu),
        a.len() == 6,
        b.len() == 6,
        forall|i: int|
            0 <= i < 6 ==> finite(#[trigger] a[i]) && finite(b[i]) && size(scaled(a[i]) * scaled(b[i]))
                <= 130000 * (one() * one()),
    ensures
        ({
            let k = one();
            INTEGERS * size(
                scaled(inner_product(fpu, a, b, 6)) * k - (scaled(a[0]) * scaled(b[0]) + scaled(a[1])
                    * scaled(b[1]) + scaled(a[2]) * scaled(b[2]) + scaled(a[3]) * scaled(b[3]) + scaled(
                    a[4],
                ) * scaled(b[4]) + scaled(a[5]) * scaled(b[5])),
            ) <= 5600000 * (k * k)
        }),
{
    let p = seq![
        product(fpu, a[0], b[0]),
        product(fpu, a[1], b[1]),
        product(fpu, a[2], b[2]),
        product(fpu, a[3], b[3]),
        product(fpu, a[4], b[4]),
        product(fpu, a[5], b[5]),
    ];
    lemma_share_of(fpu, a[0], b[0]);
    lemma_share_of(fpu, a[1], b[1]);
    lemma_share_of(fpu, a[2], b[2]);
    lemma_share_of(fpu, a[3], b[3]);
    lemma_share_of(fpu, a[4], b[4]);
    lemma_share_of(fpu, a[5], b[5]);
    assert forall|i: int| 0 <= i < 6 implies finite(#[trigger] p[i]) && size(scaled(p[i])) <= 130001
        * one() by {
        assert(i == 0 || i == 1 || i == 2 || i == 3 || i == 4 || i == 5);
    }
    lemma_inner_sums(fpu, p);
    assert(inner_product(fpu, a, b, 6) == sum(
        fpu,
        sum(fpu, sum(fpu, sum(fpu, sum(fpu, sum(fpu, 0, p[0]), p[1]), p[2]), p[3]), p[4]),
        p[5],
    )) by {
        reveal_with_fuel(inner_product, 7);
    }
    lemma_six_errors(
        one() * one(),
        scaled(inner_product(fpu, a, b, 6)) * one(),
        scaled(p[0]) * one(),
        scaled(p[1]) * one(),
        scaled(p[2]) * one(),
        scaled(p[3]) * one(),
        scaled(p[4]) * one(),
        scaled(p[5]) * one(),
        scaled(a[0]) * scaled(b[0]),
        scaled(a[1]) * scaled(b[1]),
        scaled(a[2]) * scaled(b[2]),
        scaled(a[3]) * scaled(b[3]),
        scaled(a[4]) * scaled(b[4]),
        scaled(a[5]) * scaled(b[5]),
    );
}

/// The errors of six products and of their sum.
proof fn lemma_six_errors(
    t: int,
    s: int,
    p0: int,
    p1: int,
    p2: int,
    p3: int,
    p4: int,
    p5: int,
    q0: int,
    q1: int,
    q2: int,
    q3: int,
    q4: int,
    q5: int,
)
    requires
        INTEGERS * size(s - (p0 + p1 + p2 + p3 + p4 + p5)) <= 4800000 * t,
        INTEGERS * size(p0 - q0) <= 130001 * t,
        INTEGERS * size(p1 - q1) <= 130001 * t,
        INTEGERS * size(p2 - q2) <= 130001 * t,
        INTEGERS * size(p3 - q3) <= 130001 * t,
        INTEGERS * size(p4 - q4) <= 130001 * t,
        INTEGERS * size(p5 - q5) <= 130001 * t,
    ensures
        INTEGERS * size(s - (q0 + q1 + q2 + q3 + q4 + q5)) <= 5600000 * t,
{
}

/// The row of a linkage: its last three entries are the moment of the rod.
proof fn lemma_row<F: Fn(Operation) -> u32>(fpu: F, rod: [u32; 3], c: [u32; 3])
    requires
        accurate(fpu),
        compact(rod),
        compact(c),
    ensures
        ({
            let (t, k) = (twist_row(fpu, rod, c), one());
            &&& finite(t@[0]) && finite(t@[1]) && finite(t@[2])
            &&& finite(t@[3]) && size(scaled(t@[3])) <= 125004 * k
            &&& finite(t@[4]) && size(scaled(t@[4])) <= 125004 * k
            &&& finite(t@[5]) && size(scaled(t@[5])) <= 125004 * k
            &&& INTEGERS * size(scaled(t@[3]) * k - moment(c, rod, 0)) <= 250010 * (k * k)
            &&& INTEGERS * size(scaled(t@[4]) * k - moment(c, rod, 1)) <= 250010 * (k * k)
            &&& INTEGERS * size(scaled(t@[5]) * k - moment(c, rod, 2)) <= 250010 * (k * k)
        }),
{
    lemma_moment(fpu, c@[1], rod@[2], c@[2], rod@[1]);
    lemma_moment(fpu, c@[2], rod@[0], c@[0], rod@[2]);
    lemma_moment(fpu, c@[0], rod@[1], c@[1], rod@[0]);
}

/// The gain of the pitch, from the moment of the rod about the y axis.
proof fn lemma_pitch_gain<F: Fn(Operation) -> u32>(fpu: F, rod: [u32; 3], c: [u32; 3])
    requires
        accurate(fpu),
        compact(rod),
        compact(c),
    ensures
        ({
            let (g, k) = (inner_product(fpu, twist_row(fpu, rod, c)@, pitch_twist()@, 6), one());
            INTEGERS * size(scaled(g) * k - moment(c, rod, 1)) <= 6000000 * (k * k)
        }),
{
    let k = one();
    let t = twist_row(fpu, rod, c);
    lemma_one_is_large();
    lemma_unit();
    lemma_row(fpu, rod, c);
    let w = pitch_twist();
    assert(finite(ONE) && finite(0));
    lemma_bounded(scaled(t@[4]), k, 130000, 1, k, k);
    lemma_square_of_one();
    assert forall|i: int| 0 <= i < 6 implies finite(#[trigger] t@[i]) && finite(w@[i]) && size(
        scaled(t@[i]) * scaled(w@[i]),
    ) <= 130000 * (k * k) by {
        assert(i == 0 || i == 1 || i == 2 || i == 3 || i == 4 || i == 5);
    }
    lemma_inner(fpu, t@, w@);
}

/// The square of one is positive.
proof fn lemma_square_of_one()
    ensures
        0 < one() * one(),
{
    let k = one();
    lemma_one_is_large();
    assert(0 < k * k) by (nonlinear_arith)
        requires
            0 < k,
    ;
}

/// The gain of the roll, from the moments of the rod about the axes of the pitched foot.
#[verifier::spinoff_prover]
#[verifier::rlimit(60)]
proof fn lemma_roll_gain<F: Fn(Operation) -> u32>(fpu: F, rod: [u32; 3], c: [u32; 3], pitch: u32)
    requires
        accurate(fpu),
        compact(rod),
        compact(c),
        finite(pitch),
        100 * size(scaled(pitch)) <= 132 * one(),
    ensures
        ({
            let (g, k) = (inner_product(fpu, twist_row(fpu, rod, c)@, roll_twist(fpu, pitch)@, 6), one());
            let (cos, sin) = (scaled(cosine(fpu, pitch)), scaled(sine(fpu, pitch)));
            INTEGERS * size(scaled(g) * (k * k) - (cos * moment(c, rod, 0) - sin * moment(c, rod, 2)))
                <= 6600000 * (k * (k * k))
        }),
{
    let (cos, sin) = (cosine(fpu, pitch), sine(fpu, pitch));
    assert(finite(cos) && finite(sin) && 100 * size(scaled(cos)) <= 102 * one() && 100 * size(scaled(sin))
        <= 102 * one()) by {
        sine_and_cosine_lie_on_the_unit_circle(fpu, pitch);
    }
    lemma_row(fpu, rod, c);
    lemma_about_two_axes(
        fpu,
        twist_row(fpu, rod, c),
        roll_twist(fpu, pitch),
        cos,
        sin,
        moment(c, rod, 0),
        moment(c, rod, 2),
    );
}

/// The gain of a turn about two axes.
#[verifier::spinoff_prover]
#[verifier::rlimit(60)]
proof fn lemma_about_two_axes<F: Fn(Operation) -> u32>(
    fpu: F,
    t: [u32; 6],
    w: [u32; 6],
    cos: u32,
    sin: u32,
    m: int,
    n: int,
)
    requires
        accurate(fpu),
        finite(t@[0]) && finite(t@[1]) && finite(t@[2]) && finite(t@[3]) && finite(t@[4]) && finite(t@[5]),
        size(scaled(t@[3])) <= 125004 * one(),
        size(scaled(t@[5])) <= 125004 * one(),
        INTEGERS * size(scaled(t@[3]) * one() - m) <= 250010 * (one() * one()),
        INTEGERS * size(scaled(t@[5]) * one() - n) <= 250010 * (one() * one()),
        w@[0] == 0 && w@[1] == 0 && w@[2] == 0 && w@[4] == 0,
        w@[3] == cos && w@[5] == negated(sin),
        finite(cos) && 100 * size(scaled(cos)) <= 102 * one(),
        finite(sin) && 100 * size(scaled(sin)) <= 102 * one(),
    ensures
        ({
            let (g, k) = (scaled(inner_product(fpu, t@, w@, 6)), one());
            INTEGERS * size(g * (k * k) - (scaled(cos) * m - scaled(sin) * n)) <= 6600000 * (k * (k * k))
        }),
{
    let k = one();
    lemma_one_is_large();
    assert(finite(negated(sin)) && scaled(negated(sin)) == -scaled(sin)) by {
        negation_undoes_itself(sin);
    }
    let g = scaled(inner_product(fpu, t@, w@, 6));
    let (u, v, x, y) = (scaled(t@[3]), scaled(t@[5]), scaled(cos), scaled(sin));
    assert(INTEGERS * size(g * k - (u * x + v * (-y))) <= 5600000 * (k * k)) by {
        lemma_two_terms(fpu, t, w);
    }
    lemma_roll(k, g, u, v, x, y, m, n);
}

/// An inner product with two entries that are not zero.
#[verifier::spinoff_prover]
#[verifier::rlimit(60)]
proof fn lemma_two_terms<F: Fn(Operation) -> u32>(fpu: F, t: [u32; 6], w: [u32; 6])
    requires
        accurate(fpu),
        finite(t@[0]) && finite(t@[1]) && finite(t@[2]) && finite(t@[3]) && finite(t@[4]) && finite(t@[5]),
        size(scaled(t@[3])) <= 125004 * one(),
        size(scaled(t@[5])) <= 125004 * one(),
        w@[0] == 0 && w@[1] == 0 && w@[2] == 0 && w@[4] == 0,
        finite(w@[3]) && 100 * size(scaled(w@[3])) <= 102 * one(),
        finite(w@[5]) && 100 * size(scaled(w@[5])) <= 102 * one(),
    ensures
        ({
            let (g, k) = (scaled(inner_product(fpu, t@, w@, 6)), one());
            INTEGERS * size(
                g * k - (scaled(t@[3]) * scaled(w@[3]) + scaled(t@[5]) * scaled(w@[5])),
            ) <= 5600000 * (k * k)
        }),
{
    let k = one();
    lemma_unit();
    lemma_square_of_one();
    assert(finite(0));
    lemma_term(scaled(t@[3]), scaled(w@[3]));
    lemma_term(scaled(t@[5]), scaled(w@[5]));
    assert forall|i: int| 0 <= i < 6 implies finite(#[trigger] t@[i]) && finite(w@[i]) && size(
        scaled(t@[i]) * scaled(w@[i]),
    ) <= 130000 * (k * k) by {
        assert(i == 0 || i == 1 || i == 2 || i == 3 || i == 4 || i == 5);
    }
    lemma_inner(fpu, t@, w@);
}

/// A moment times a sine or a cosine.
proof fn lemma_term(u: int, c: int)
    requires
        size(u) <= 125004 * one(),
        100 * size(c) <= 102 * one(),
    ensures
        size(u * c) <= 130000 * (one() * one()),
{
    let k = one();
    lemma_square_of_one();
    lemma_bounded(u, 100 * c, 125004, 102, k, k);
    assert(u * (100 * c) == 100 * (u * c)) by (nonlinear_arith);
}

/// The two moments that the roll turns about.
proof fn lemma_roll(k: int, g: int, u: int, v: int, cos: int, sin: int, m: int, n: int)
    requires
        0 < k,
        INTEGERS * size(g * k - (u * cos + v * (-sin))) <= 5600000 * (k * k),
        INTEGERS * size(u * k - m) <= 250010 * (k * k),
        INTEGERS * size(v * k - n) <= 250010 * (k * k),
        100 * size(cos) <= 102 * k,
        100 * size(sin) <= 102 * k,
    ensures
        INTEGERS * size(g * (k * k) - (cos * m - sin * n)) <= 6600000 * (k * (k * k)),
{
    let p2 = k * k;
    let p3 = k * p2;
    let (e, f, h) = (g * k - (u * cos + v * (-sin)), u * k - m, v * k - n);
    lemma_error_times(e, k, 5600000, 1, p2, k);
    lemma_error_times(f, 100 * cos, 250010, 102, p2, k);
    lemma_error_times(h, 100 * sin, 250010, 102, p2, k);
    assert(f * (100 * cos) == 100 * (f * cos) && h * (100 * sin) == 100 * (h * sin) && p2 * k == p3)
        by (nonlinear_arith)
        requires
            p3 == k * p2,
    ;
    assert(e * k == g * p2 - (u * k) * cos + (v * k) * sin) by {
        let (x, y, z) = (g * k, u * cos, v * (-sin));
        assert(e * k == x * k - y * k - z * k) by (nonlinear_arith)
            requires
                e == x - (y + z),
        ;
        assert((g * k) * k == g * (k * k)) by (nonlinear_arith);
        assert((u * cos) * k == (u * k) * cos) by (nonlinear_arith);
        assert((v * (-sin)) * k == -((v * k) * sin)) by (nonlinear_arith);
    }
    assert(f * cos == (u * k) * cos - cos * m && h * sin == (v * k) * sin - sin * n) by (nonlinear_arith)
        requires
            f == u * k - m,
            h == v * k - n,
    ;
    assert(0 < p3) by (nonlinear_arith)
        requires
            p3 == k * p2,
            p2 == k * k,
            0 < k,
    ;
}

/// A rate `j` of a motor whose gain is `g`, where the gain of the joint is `h`: `m` and
/// `n` are the moments behind the gains.
proof fn lemma_rate(k: int, j: int, g: int, h: int, m: int, n: int)
    requires
        0 < k,
        size(j * g - h * k) <= 4 * (k * k),
        1000 * k <= size(g) <= 10000 * k,
        size(h) <= 10000 * k,
        INTEGERS * size(g * k - m) <= 2000000 * (k * k),
        INTEGERS * size(h * (k * k) - n) <= 6600000 * (k * (k * k)),
    ensures
        size(j * m - n) <= 6 * (k * (k * k)),
{
    let p2 = k * k;
    let p3 = k * p2;
    assert(0 < p2) by (nonlinear_arith)
        requires
            p2 == k * k,
            0 < k,
    ;
    assert(0 < p3) by (nonlinear_arith)
        requires
            p3 == k * p2,
            0 < p2,
            0 < k,
    ;
    assert(size(j) <= 11 * k) by {
        lemma_bounded(h, k, 10000, 1, k, k);
        lemma_size_of_product(j, g, size(j), size(g));
        assert(size(j) <= 11 * k) by (nonlinear_arith)
            requires
                size(j) * size(g) <= 10004 * p2,
                1000 * k <= size(g),
                0 <= size(j),
                p2 == k * k,
                0 < k,
        ;
    }
    let (e, f, d) = (g * k - m, h * p2 - n, j * g - h * k);
    lemma_error_times(e, j, 2000000, 11, p2, k);
    lemma_bounded(d, k, 4, 1, p2, k);
    assert(p2 * k == p3) by (nonlinear_arith)
        requires
            p3 == k * p2,
    ;
    assert(d * k == (j * g) * k - h * p2) by (nonlinear_arith)
        requires
            d == j * g - h * k,
            p2 == k * k,
    ;
    assert(e * j == (j * g) * k - j * m) by (nonlinear_arith)
        requires
            e == g * k - m,
    ;
}

/// The motors' rates keep the rods' lengths: while a joint turns, each end of a rod moves
/// alike along it, when the motor turns at the rate that the Jacobian gives. So that
/// rate, times the moment of the rod about the motor's axis, is the moment of the rod
/// about the axis of the joint, within 6 square millimetres: the y axis for the pitch
/// (`c` is 0), and for the roll the x axis of the pitched foot.
#[verifier::spinoff_prover]
#[verifier::rlimit(60)]
pub proof fn rates_keep_the_rods<F: Fn(Operation) -> u32>(fpu: F, ik: IkResultAtom01, pitch: u32, r: int, c: int)
    requires
        accurate(fpu),
        moderate_matrix(joint_gains(fpu, ik, pitch)),
        sizable(motor_gains(fpu, ik)@[0]@[0]),
        sizable(motor_gains(fpu, ik)@[1]@[1]),
        finite(pitch),
        100 * size(scaled(pitch)) <= 132 * one(),
        0 <= r < 2,
        0 <= c < 2,
        compact(ik.r_bar@[r]) && compact(ik.r_rod@[r]) && compact(ik.r_c@[r]),
    ensures
        ({
            let k = one();
            let j = scaled(jacobian_at(fpu, ik, pitch).j_joint2motor@[r]@[c]);
            let (bar, rod, p) = (ik.r_bar@[r], ik.r_rod@[r], ik.r_c@[r]);
            let (cos, sin) = (scaled(cosine(fpu, pitch)), scaled(sine(fpu, pitch)));
            let turned = if c == 0 {
                k * moment(p, rod, 1)
            } else {
                cos * moment(p, rod, 0) - sin * moment(p, rod, 2)
            };
            size(j * moment(bar, rod, 1) - turned) <= 6 * (k * (k * k))
        }),
{
    let k = one();
    lemma_one_is_large();
    let (t, v) = (joint_gains(fpu, ik, pitch), motor_gains(fpu, ik));
    lemma_joint2motor(fpu, t, v);
    let (bar, rod, p) = (ik.r_bar@[r], ik.r_rod@[r], ik.r_c@[r]);
    lemma_motor_gain(fpu, bar, rod);
    let j = scaled(jacobian_at(fpu, ik, pitch).j_joint2motor@[r]@[c]);
    let g = scaled(v@[r]@[r]);
    let h = scaled(t@[r]@[c]);
    assert(r == 0 || r == 1);
    if c == 0 {
        lemma_pitch_gain(fpu, rod, p);
        let m = moment(p, rod, 1);
        let e = h * k - m;
        lemma_error_times(e, k, 6000000, 1, k * k, k);
        assert(e * k == h * (k * k) - k * m && (k * k) * k == k * (k * k)) by (nonlinear_arith)
            requires
                e == h * k - m,
        ;
        assert(0 < k * (k * k)) by (nonlinear_arith)
            requires
                0 < k,
        ;
        lemma_rate(k, j, g, h, moment(bar, rod, 1), k * m);
    } else {
        lemma_roll_gain(fpu, rod, p, pitch);
        let (cos, sin) = (scaled(cosine(fpu, pitch)), scaled(sine(fpu, pitch)));
        lemma_rate(
            k,
            j,
            g,
            h,
            moment(bar, rod, 1),
            cos * moment(p, rod, 0) - sin * moment(p, rod, 2),
        );
    }
}

} // verus!
