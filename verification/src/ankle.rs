//! Ankle linkage: geometry, kinematics both ways, and torques.
//!
//! Two motors drive each ankle through a parallel linkage with a long and a short
//! rod. The policy thinks in joint angles, pitch and roll; the motors know the
//! angles of their bars. Inverse kinematics gives the motor angles of a pose in
//! closed form; forward kinematics finds the pose of motor angles by Newton
//! iteration. Real numbers are bit patterns (see [`crate::binary32`]); they are
//! computed by the unit that is handed in (see [`crate::arithmetic`]).
use crate::arithmetic::{
    alike, defined, difference, difference_of_products, inner, inner_product, lemma_difference,
    lemma_product, lemma_quotient, lemma_sum, lemma_sum_of_products, minus, minus_of_times, over, plus,
    plus_of_times, product, quotient, respects_signs, sum, sum_of_products, times, Operation, HALF,
    MINUS_ONE, ONE, TWO,
};
use crate::binary32::{abs, absolute, below, clamp, clamped, finite, is_finite, is_nan, less_than};
use crate::binary32::{lemma_magnitude_order, lemma_positive, lemma_same_finite, lemma_same_pattern};
use crate::binary32::{nan, negate, negated, negation_undoes_itself, same, scaled, SIGN};
use vstd::prelude::*;

pub mod accuracy;
pub mod arc;
pub mod circle;
pub mod lengths;
pub mod rates;
pub mod rods;
pub mod root;
pub mod series;
pub mod solver;
pub mod vectors;

verus! {

/// Side of an ankle: `true` is left.
pub type Side = bool;

/// Length of the long rod, in millimetres: 180.0.
pub const ROD_LONG: u32 = 0x4334_0000;

/// Length of the short rod, in millimetres: 110.0.
pub const ROD_SHORT: u32 = 0x42DC_0000;

/// Length of the bars, in millimetres: 20.0.
pub const BAR: u32 = 0x41A0_0000;

/// The same length to the other side: -20.0.
pub const BAR_NEG: u32 = 0xC1A0_0000;

/// Distance of the rods from the middle, in millimetres, on the left: 42.35.
pub const SPACING_LEFT: u32 = 0x4229_6666;

/// Distance of the rods from the middle on the right: -42.35.
pub const SPACING_RIGHT: u32 = 0xC229_6666;

/// Half a turn, in radians.
pub const HALF_TURN: u32 = 0x4049_0FDB;

/// Half a turn backwards.
pub const HALF_TURN_NEG: u32 = 0xC049_0FDB;

/// A full turn, in radians.
pub const FULL_TURN: u32 = 0x40C9_0FDB;

/// A full turn backwards.
pub const FULL_TURN_NEG: u32 = 0xC0C9_0FDB;

/// Turns by which an angle is wound back at most.
pub const MAX_TURNS: u32 = 32;

/// Evaluations after which the solver gives up.
pub const MAX_ITER: u8 = 100;

/// Error of the motor angles below which the solver is done, in radians: 0.001.
pub const TOLERANCE: u32 = 0x3A83_126F;

/// Largest change of a joint angle in one step, in radians: 1.5.
pub const JOINT_LIMIT: u32 = 0x3FC0_0000;

/// Determinant below which a matrix counts as singular: 1e-9.
pub const SINGULAR: u32 = 0x3089_705F;

/// 1/6.
pub const SIN_3: u32 = 0x3E2A_AAAB;

/// 1/120.
pub const SIN_5: u32 = 0x3C08_8889;

/// 1/5040.
pub const SIN_7: u32 = 0x3950_0D01;

/// 1/362880.
pub const SIN_9: u32 = 0x3638_EF1D;

/// 1/24.
pub const COS_4: u32 = 0x3D2A_AAAB;

/// 1/720.
pub const COS_6: u32 = 0x3AB6_0B61;

/// 1/40320.
pub const COS_8: u32 = 0x37D0_0D01;

/// 3/40.
pub const ASIN_5: u32 = 0x3D99_999A;

/// 5/112.
pub const ASIN_7: u32 = 0x3D36_DB6E;

/// 35/1152.
pub const ASIN_9: u32 = 0x3CF8_E38E;

/// What half the pattern of a number lacks to the pattern of its square root, within
/// a few percent.
pub const ROOT_OFFSET: u32 = 0x1FBD_1DF5;

/// Newton steps from there to the root.
pub const ROOT_STEPS: u32 = 3;

/// Direction of the motor axes.
pub const S_BAR: [u32; 3] = [0, ONE, 0];

/// An angle wound back to half a turn either way, by at most `turns` full turns.
pub open spec fn wound_back<F: Fn(Operation) -> u32>(fpu: F, x: u32, turns: nat) -> u32
    decreases turns,
{
    if turns == 0 {
        x
    } else if below(HALF_TURN, x) {
        wound_back(fpu, difference(fpu, x, FULL_TURN), (turns - 1) as nat)
    } else if below(x, HALF_TURN_NEG) {
        wound_back(fpu, sum(fpu, x, FULL_TURN), (turns - 1) as nat)
    } else {
        x
    }
}

/// An angle lies within half a turn either way. A NaN counts as doing so.
pub open spec fn within_half_turn(x: u32) -> bool {
    !below(HALF_TURN, x) && !below(x, HALF_TURN_NEG)
}

/// An angle wound back by at most 32 turns. What is not finite, or too large to be
/// wound back by that many, stays as it is.
pub open spec fn wrapped<F: Fn(Operation) -> u32>(fpu: F, x: u32) -> u32 {
    let y = wound_back(fpu, x, MAX_TURNS as nat);
    if finite(x) && within_half_turn(y) {
        y
    } else {
        x
    }
}

/// Winds an angle back to half a turn either way. What is not finite, or needs
/// more than 32 turns, stays as it is: 32 turns bring back what lies within 65
/// half turns.
pub fn wrap_to_pi<F: Fn(Operation) -> u32>(x: u32, fpu: &F) -> (r: u32)
    requires
        defined(*fpu),
    ensures
        r == wrapped(*fpu, x),
{
    if !is_finite(x) {
        return x;
    }
    let mut y: u32 = x;
    let mut left: u32 = MAX_TURNS;
    while left > 0
        invariant
            left <= MAX_TURNS,
            defined(*fpu),
            finite(x),
            wound_back(*fpu, y, left as nat) == wound_back(*fpu, x, MAX_TURNS as nat),
        decreases left,
    {
        if less_than(HALF_TURN, y) {
            y = minus(fpu, y, FULL_TURN);
        } else if less_than(y, HALF_TURN_NEG) {
            y = plus(fpu, y, FULL_TURN);
        } else {
            return y;
        }
        left = left - 1;
    }
    if less_than(HALF_TURN, y) || less_than(y, HALF_TURN_NEG) {
        x
    } else {
        y
    }
}

/// Sine by five terms of its Taylor series:
/// `x - x^3/6 + x^5/120 - x^7/5040 + x^9/362880`.
pub open spec fn sine<F: Fn(Operation) -> u32>(fpu: F, angle: u32) -> u32 {
    let x = wrapped(fpu, angle);
    let x2 = product(fpu, x, x);
    let x3 = product(fpu, x2, x);
    let x5 = product(fpu, x3, x2);
    let x7 = product(fpu, x5, x2);
    let x9 = product(fpu, x7, x2);
    let cubic = difference(fpu, x, product(fpu, x3, SIN_3));
    let quintic = sum(fpu, cubic, product(fpu, x5, SIN_5));
    let septic = difference(fpu, quintic, product(fpu, x7, SIN_7));
    sum(fpu, septic, product(fpu, x9, SIN_9))
}

/// Cosine by five terms of its Taylor series:
/// `1 - x^2/2 + x^4/24 - x^6/720 + x^8/40320`.
pub open spec fn cosine<F: Fn(Operation) -> u32>(fpu: F, angle: u32) -> u32 {
    let x = wrapped(fpu, angle);
    let x2 = product(fpu, x, x);
    let x4 = product(fpu, x2, x2);
    let x6 = product(fpu, x4, x2);
    let x8 = product(fpu, x6, x2);
    let quadratic = difference(fpu, ONE, product(fpu, x2, HALF));
    let quartic = sum(fpu, quadratic, product(fpu, x4, COS_4));
    let sextic = difference(fpu, quartic, product(fpu, x6, COS_6));
    sum(fpu, sextic, product(fpu, x8, COS_8))
}

/// Arc sine of a number limited to one either way, by five terms of its Taylor
/// series: `x + x^3/6 + 3x^5/40 + 5x^7/112 + 35x^9/1152`.
pub open spec fn arc_sine<F: Fn(Operation) -> u32>(fpu: F, s: u32) -> u32 {
    let x = clamped(s, MINUS_ONE, ONE);
    let x2 = product(fpu, x, x);
    let x3 = product(fpu, x2, x);
    let x5 = product(fpu, x3, x2);
    let x7 = product(fpu, x5, x2);
    let x9 = product(fpu, x7, x2);
    let cubic = sum(fpu, x, product(fpu, x3, SIN_3));
    let quintic = sum(fpu, cubic, product(fpu, x5, ASIN_5));
    let septic = sum(fpu, quintic, product(fpu, x7, ASIN_7));
    sum(fpu, septic, product(fpu, x9, ASIN_9))
}

/// `n` Newton steps from `y` towards the square root of `x`.
pub open spec fn root_from<F: Fn(Operation) -> u32>(fpu: F, x: u32, y: u32, n: nat) -> u32
    decreases n,
{
    if n == 0 {
        y
    } else {
        let closer = product(fpu, HALF, sum(fpu, y, quotient(fpu, x, y)));
        root_from(fpu, x, closer, (n - 1) as nat)
    }
}

/// Square root; zero for a number that is not positive.
pub open spec fn square_root<F: Fn(Operation) -> u32>(fpu: F, x: u32) -> u32 {
    if !nan(x) && !below(0, x) {
        0
    } else {
        root_from(fpu, x, (x / 2 + ROOT_OFFSET) as u32, ROOT_STEPS as nat)
    }
}

/// Computes a sine.
pub fn sin_approx<F: Fn(Operation) -> u32>(angle: u32, fpu: &F) -> (r: u32)
    requires
        defined(*fpu),
    ensures
        r == sine(*fpu, angle),
{
    let x: u32 = wrap_to_pi(angle, fpu);
    let x2: u32 = times(fpu, x, x);
    let x3: u32 = times(fpu, x2, x);
    let x5: u32 = times(fpu, x3, x2);
    let x7: u32 = times(fpu, x5, x2);
    let x9: u32 = times(fpu, x7, x2);
    let cubic: u32 = minus(fpu, x, times(fpu, x3, SIN_3));
    let quintic: u32 = plus(fpu, cubic, times(fpu, x5, SIN_5));
    let septic: u32 = minus(fpu, quintic, times(fpu, x7, SIN_7));
    plus(fpu, septic, times(fpu, x9, SIN_9))
}

/// Computes a cosine.
pub fn cos_approx<F: Fn(Operation) -> u32>(angle: u32, fpu: &F) -> (r: u32)
    requires
        defined(*fpu),
    ensures
        r == cosine(*fpu, angle),
{
    let x: u32 = wrap_to_pi(angle, fpu);
    let x2: u32 = times(fpu, x, x);
    let x4: u32 = times(fpu, x2, x2);
    let x6: u32 = times(fpu, x4, x2);
    let x8: u32 = times(fpu, x6, x2);
    let quadratic: u32 = minus(fpu, ONE, times(fpu, x2, HALF));
    let quartic: u32 = plus(fpu, quadratic, times(fpu, x4, COS_4));
    let sextic: u32 = minus(fpu, quartic, times(fpu, x6, COS_6));
    plus(fpu, sextic, times(fpu, x8, COS_8))
}

/// Computes an arc sine.
pub fn asin_approx<F: Fn(Operation) -> u32>(s: u32, fpu: &F) -> (r: u32)
    requires
        defined(*fpu),
    ensures
        r == arc_sine(*fpu, s),
{
    let x: u32 = clamp(s, MINUS_ONE, ONE);
    let x2: u32 = times(fpu, x, x);
    let x3: u32 = times(fpu, x2, x);
    let x5: u32 = times(fpu, x3, x2);
    let x7: u32 = times(fpu, x5, x2);
    let x9: u32 = times(fpu, x7, x2);
    let cubic: u32 = plus(fpu, x, times(fpu, x3, SIN_3));
    let quintic: u32 = plus(fpu, cubic, times(fpu, x5, ASIN_5));
    let septic: u32 = plus(fpu, quintic, times(fpu, x7, ASIN_7));
    plus(fpu, septic, times(fpu, x9, ASIN_9))
}

/// Computes a square root. The start of the Newton steps has half the exponent of
/// the number, so that a few steps are enough for large and small numbers alike.
pub fn sqrt_approx<F: Fn(Operation) -> u32>(x: u32, fpu: &F) -> (r: u32)
    requires
        defined(*fpu),
    ensures
        r == square_root(*fpu, x),
{
    if !is_nan(x) && !less_than(0, x) {
        return 0;
    }
    let mut y: u32 = x / 2 + ROOT_OFFSET;
    let mut left: u32 = ROOT_STEPS;
    while left > 0
        invariant
            defined(*fpu),
            left <= ROOT_STEPS,
            nan(x) || below(0, x),
            root_from(*fpu, x, y, left as nat) == square_root(*fpu, x),
        decreases left,
    {
        y = times(fpu, HALF, plus(fpu, y, over(fpu, x, y)));
        left = left - 1;
    }
    y
}

/// The vector from `b` to `a`.
pub open spec fn apart<F: Fn(Operation) -> u32>(fpu: F, a: [u32; 3], b: [u32; 3]) -> [u32; 3] {
    [
        difference(fpu, a@[0], b@[0]),
        difference(fpu, a@[1], b@[1]),
        difference(fpu, a@[2], b@[2]),
    ]
}

/// Scalar product.
pub open spec fn scalar_product<F: Fn(Operation) -> u32>(fpu: F, a: [u32; 3], b: [u32; 3]) -> u32 {
    sum(fpu, sum_of_products(fpu, a@[0], b@[0], a@[1], b@[1]), product(fpu, a@[2], b@[2]))
}

/// Cross product.
pub open spec fn cross_product<F: Fn(Operation) -> u32>(fpu: F, a: [u32; 3], b: [u32; 3]) -> [u32; 3] {
    [
        difference_of_products(fpu, a@[1], b@[2], a@[2], b@[1]),
        difference_of_products(fpu, a@[2], b@[0], a@[0], b@[2]),
        difference_of_products(fpu, a@[0], b@[1], a@[1], b@[0]),
    ]
}

/// Inverse of a matrix by its adjugate; all zero if the matrix is singular.
pub open spec fn inverted<F: Fn(Operation) -> u32>(fpu: F, m: [[u32; 2]; 2]) -> [[u32; 2]; 2] {
    let det = difference_of_products(fpu, m@[0]@[0], m@[1]@[1], m@[0]@[1], m@[1]@[0]);
    let d = quotient(fpu, ONE, det);
    if below(absolute(det), SINGULAR) {
        [[0, 0], [0, 0]]
    } else {
        [
            [product(fpu, d, m@[1]@[1]), product(fpu, negated(d), m@[0]@[1])],
            [product(fpu, negated(d), m@[1]@[0]), product(fpu, d, m@[0]@[0])],
        ]
    }
}

/// A column of a matrix.
pub open spec fn column(m: [[u32; 2]; 2], c: int) -> [u32; 2] {
    [m@[0]@[c], m@[1]@[c]]
}

/// Matrix product: each entry is the inner product of a row and a column.
pub open spec fn matrix_product<F: Fn(Operation) -> u32>(fpu: F, a: [[u32; 2]; 2], b: [[u32; 2]; 2]) -> [[u32; 2]; 2] {
    [
        [
            inner_product(fpu, a@[0]@, column(b, 0)@, 2),
            inner_product(fpu, a@[0]@, column(b, 1)@, 2),
        ],
        [
            inner_product(fpu, a@[1]@, column(b, 0)@, 2),
            inner_product(fpu, a@[1]@, column(b, 1)@, 2),
        ],
    ]
}

/// Computes the vector from `b` to `a`.
fn minus3<F: Fn(Operation) -> u32>(a: &[u32; 3], b: &[u32; 3], fpu: &F) -> (r: [u32; 3])
    requires
        defined(*fpu),
    ensures
        r == apart(*fpu, *a, *b),
{
    [minus(fpu, a[0], b[0]), minus(fpu, a[1], b[1]), minus(fpu, a[2], b[2])]
}

/// Computes a scalar product.
pub fn dot3<F: Fn(Operation) -> u32>(a: &[u32; 3], b: &[u32; 3], fpu: &F) -> (r: u32)
    requires
        defined(*fpu),
    ensures
        r == scalar_product(*fpu, *a, *b),
{
    plus(fpu, plus_of_times(fpu, a[0], b[0], a[1], b[1]), times(fpu, a[2], b[2]))
}

/// Computes a cross product.
pub fn cross3<F: Fn(Operation) -> u32>(a: &[u32; 3], b: &[u32; 3], fpu: &F) -> (r: [u32; 3])
    requires
        defined(*fpu),
    ensures
        r == cross_product(*fpu, *a, *b),
{
    [
        minus_of_times(fpu, a[1], b[2], a[2], b[1]),
        minus_of_times(fpu, a[2], b[0], a[0], b[2]),
        minus_of_times(fpu, a[0], b[1], a[1], b[0]),
    ]
}

/// Computes the inverse of a matrix; all zero if the matrix is singular.
fn inverse<F: Fn(Operation) -> u32>(m: &[[u32; 2]; 2], fpu: &F) -> (r: [[u32; 2]; 2])
    requires
        defined(*fpu),
    ensures
        r == inverted(*fpu, *m),
{
    let row0: [u32; 2] = m[0];
    let row1: [u32; 2] = m[1];
    let det: u32 = minus_of_times(fpu, row0[0], row1[1], row0[1], row1[0]);
    if less_than(abs(det), SINGULAR) {
        return [[0, 0], [0, 0]];
    }
    let d: u32 = over(fpu, ONE, det);
    [
        [times(fpu, d, row1[1]), times(fpu, negate(d), row0[1])],
        [times(fpu, negate(d), row1[0]), times(fpu, d, row0[0])],
    ]
}

/// Computes a matrix product.
fn multiply<F: Fn(Operation) -> u32>(a: &[[u32; 2]; 2], b: &[[u32; 2]; 2], fpu: &F) -> (r: [[u32; 2]; 2])
    requires
        defined(*fpu),
    ensures
        r == matrix_product(*fpu, *a, *b),
{
    let a0: [u32; 2] = a[0];
    let a1: [u32; 2] = a[1];
    let b0: [u32; 2] = b[0];
    let b1: [u32; 2] = b[1];
    let left: [u32; 2] = [b0[0], b1[0]];
    let right: [u32; 2] = [b0[1], b1[1]];
    [
        [inner(fpu, a0.as_slice(), left.as_slice()), inner(fpu, a0.as_slice(), right.as_slice())],
        [inner(fpu, a1.as_slice(), left.as_slice()), inner(fpu, a1.as_slice(), right.as_slice())],
    ]
}

/// Dimensions of one ankle.
#[derive(Debug, Clone, Copy, PartialEq, Eq)]
pub struct AnkleParams {
    pub l_rod_long: u32,
    pub l_rod_short: u32,
    pub l_bar: u32,
    pub l_spacing: u32,
}

/// Distance of the rods from the middle on one side.
pub open spec fn spacing(side: Side) -> u32 {
    if side {
        SPACING_LEFT
    } else {
        SPACING_RIGHT
    }
}

/// Dimensions of the ankle on one side.
pub open spec fn params_of(side: Side) -> AnkleParams {
    AnkleParams {
        l_rod_long: ROD_LONG,
        l_rod_short: ROD_SHORT,
        l_bar: BAR,
        l_spacing: spacing(side),
    }
}

impl Default for AnkleParams {
    /// Dimensions of the left ankle.
    fn default() -> (r: Self)
        ensures
            r == params_of(true),
    {
        AnkleParams {
            l_rod_long: ROD_LONG,
            l_rod_short: ROD_SHORT,
            l_bar: BAR,
            l_spacing: SPACING_LEFT,
        }
    }
}

/// One of the two linkages of an ankle, in its zero pose: the pivots of the
/// motor, of bar and rod, and of rod and foot, and the angle of the motor.
#[derive(Debug, Clone, Copy, PartialEq, Eq)]
pub struct LinkParamsAtom01 {
    pub l_rod: u32,
    pub l_bar: u32,
    pub l_spacing: u32,
    pub r_a_0: [u32; 3],
    pub r_b_0: [u32; 3],
    pub r_c_0: [u32; 3],
    pub theta_0: u32,
}

/// The linkage hangs from its motor by a rod of length `rod` and reaches `reach`
/// from the motor's axis; its motor stands at `theta`.
pub open spec fn is_link(
    link: LinkParamsAtom01,
    side: Side,
    rod: u32,
    reach: u32,
    theta: u32,
) -> bool {
    &&& link.l_rod == rod
    &&& link.l_bar == BAR
    &&& link.l_spacing == spacing(side)
    &&& link.r_a_0@ == seq![0u32, spacing(side), rod]
    &&& link.r_b_0@ == seq![reach, spacing(side), rod]
    &&& link.r_c_0@ == seq![reach, spacing(side), 0u32]
    &&& link.theta_0 == theta
}

/// The long linkage and the short one, which points the other way.
pub open spec fn are_links(links: [LinkParamsAtom01; 2], side: Side) -> bool {
    &&& is_link(links@[0], side, ROD_LONG, BAR_NEG, 0)
    &&& is_link(links@[1], side, ROD_SHORT, BAR, HALF_TURN)
}

/// The two linkages of the ankle on one side.
pub fn build_links(is_left: bool) -> (r: [LinkParamsAtom01; 2])
    ensures
        are_links(r, is_left),
{
    let l_spacing: u32 = if is_left {
        SPACING_LEFT
    } else {
        SPACING_RIGHT
    };
    let long = LinkParamsAtom01 {
        l_rod: ROD_LONG,
        l_bar: BAR,
        l_spacing,
        r_a_0: [0, l_spacing, ROD_LONG],
        r_b_0: [BAR_NEG, l_spacing, ROD_LONG],
        r_c_0: [BAR_NEG, l_spacing, 0],
        theta_0: 0,
    };
    let short = LinkParamsAtom01 {
        l_rod: ROD_SHORT,
        l_bar: BAR,
        l_spacing,
        r_a_0: [0, l_spacing, ROD_SHORT],
        r_b_0: [BAR, l_spacing, ROD_SHORT],
        r_c_0: [BAR, l_spacing, 0],
        theta_0: HALF_TURN,
    };
    [long, short]
}

/// The geometry of one ankle.
#[derive(Debug, Clone, Copy, PartialEq, Eq)]
pub struct AnkleDecoupler {
    pub params: AnkleParams,
    pub side: Side,
    pub links_left: [LinkParamsAtom01; 2],
    pub links_right: [LinkParamsAtom01; 2],
}

impl AnkleDecoupler {
    /// Dimensions and linkages are those of the side.
    pub open spec fn wf(&self) -> bool {
        &&& self.params == params_of(self.side)
        &&& are_links(self.links_left, true)
        &&& are_links(self.links_right, false)
    }

    /// The ankle on one side.
    pub fn new(side: Side) -> (r: Self)
        ensures
            r.wf(),
            r.side == side,
    {
        let params = AnkleParams {
            l_rod_long: ROD_LONG,
            l_rod_short: ROD_SHORT,
            l_bar: BAR,
            l_spacing: if side {
                SPACING_LEFT
            } else {
                SPACING_RIGHT
            },
        };
        AnkleDecoupler {
            params,
            side,
            links_left: build_links(true),
            links_right: build_links(false),
        }
    }

    /// The linkages of this ankle.
    pub fn links(&self) -> (r: &[LinkParamsAtom01; 2])
        ensures
            *r == self.links_of(),
            self.wf() ==> are_links(*r, self.side),
    {
        if self.side {
            &self.links_left
        } else {
            &self.links_right
        }
    }
}

/// Pose of the two linkages: the bars, the rods, the pivots at the foot, and the
/// motor angles.
#[derive(Debug, Clone, Copy, PartialEq, Eq)]
pub struct IkResultAtom01 {
    pub r_bar: [[u32; 3]; 2],
    pub r_rod: [[u32; 3]; 2],
    pub r_c: [[u32; 3]; 2],
    pub theta: [u32; 2],
}

impl Default for IkResultAtom01 {
    /// All zero.
    fn default() -> (r: Self)
        ensures
            r == (IkResultAtom01 {
                r_bar: [[0, 0, 0], [0, 0, 0]],
                r_rod: [[0, 0, 0], [0, 0, 0]],
                r_c: [[0, 0, 0], [0, 0, 0]],
                theta: [0, 0],
            }),
    {
        IkResultAtom01 {
            r_bar: [[0, 0, 0], [0, 0, 0]],
            r_rod: [[0, 0, 0], [0, 0, 0]],
            r_c: [[0, 0, 0], [0, 0, 0]],
            theta: [0, 0],
        }
    }
}

/// Pose of one linkage.
#[derive(Debug, Clone, Copy, PartialEq, Eq)]
pub struct LinkPose {
    pub r_bar: [u32; 3],
    pub r_rod: [u32; 3],
    pub r_c: [u32; 3],
    pub theta: u32,
}

/// Sines and cosines of a pose.
#[derive(Debug, Clone, Copy, PartialEq, Eq)]
pub struct Attitude {
    pub cos_pitch: u32,
    pub sin_pitch: u32,
    pub cos_roll: u32,
    pub sin_roll: u32,
}

/// Sines and cosines of a pose.
pub open spec fn attitude_of<F: Fn(Operation) -> u32>(fpu: F, pitch: u32, roll: u32) -> Attitude {
    Attitude {
        cos_pitch: cosine(fpu, pitch),
        sin_pitch: sine(fpu, pitch),
        cos_roll: cosine(fpu, roll),
        sin_roll: sine(fpu, roll),
    }
}

/// A point of the foot, turned with it: by the roll about the x axis first, then
/// by the pitch about the y axis.
pub open spec fn turned_foot<F: Fn(Operation) -> u32>(fpu: F, at: Attitude, c: [u32; 3]) -> [u32; 3] {
    let x = c@[0];
    let y = difference_of_products(fpu, at.cos_roll, c@[1], at.sin_roll, c@[2]);
    let z = sum_of_products(fpu, at.sin_roll, c@[1], at.cos_roll, c@[2]);
    [
        sum_of_products(fpu, at.cos_pitch, x, at.sin_pitch, z),
        y,
        sum_of_products(fpu, negated(at.sin_pitch), x, at.cos_pitch, z),
    ]
}

/// Square of the distance of two points.
pub open spec fn squared_distance<F: Fn(Operation) -> u32>(fpu: F, p: [u32; 3], q: [u32; 3]) -> u32 {
    scalar_product(fpu, apart(fpu, p, q), apart(fpu, p, q))
}

/// The angle of the motor when the pivot at the foot is `c`. With `a` and `b` the
/// distances of `c` from the motor, forward and below, and `k` the excess of the
/// rod's square over those of the bar and of the distance, per two bars, its sine
/// is the larger root of `(a^2 + b^2) s^2 - 2 b k s + k^2 - a^2 = 0`; a negative
/// discriminant counts as zero. The bar turns the other way unless `c` lies
/// behind the motor.
pub open spec fn motor_angle<F: Fn(Operation) -> u32>(fpu: F, link: LinkParamsAtom01, c: [u32; 3]) -> u32 {
    let a = difference(fpu, c@[0], link.r_a_0@[0]);
    let b = difference(fpu, link.r_a_0@[2], c@[2]);
    let squares = difference_of_products(fpu, link.l_rod, link.l_rod, link.l_bar, link.l_bar);
    let k = quotient(
        fpu,
        difference(fpu, squares, squared_distance(fpu, c, link.r_a_0)),
        product(fpu, TWO, link.l_bar),
    );
    let a_sq = product(fpu, a, a);
    let b_sq = product(fpu, b, b);
    let k_sq = product(fpu, k, k);
    let discriminant = difference_of_products(
        fpu,
        b_sq,
        k_sq,
        sum(fpu, a_sq, b_sq),
        difference(fpu, k_sq, a_sq),
    );
    let root = square_root(
        fpu,
        if below(discriminant, 0) {
            0
        } else {
            discriminant
        },
    );
    let theta = arc_sine(
        fpu,
        quotient(fpu, sum(fpu, product(fpu, b, k), root), sum(fpu, a_sq, b_sq)),
    );
    if below(a, 0) {
        theta
    } else {
        negated(theta)
    }
}

/// The pivot of bar and rod when the bar is turned by `theta` about the y axis.
pub open spec fn turned_bar<F: Fn(Operation) -> u32>(fpu: F, link: LinkParamsAtom01, theta: u32) -> [u32; 3] {
    let a = link.r_a_0;
    let bar = apart(fpu, link.r_b_0, link.r_a_0);
    let cos = cosine(fpu, theta);
    let sin = sine(fpu, theta);
    [
        sum(fpu, sum(fpu, a@[0], product(fpu, cos, bar@[0])), product(fpu, sin, bar@[2])),
        sum(fpu, a@[1], bar@[1]),
        sum(fpu, difference(fpu, a@[2], product(fpu, sin, bar@[0])), product(fpu, cos, bar@[2])),
    ]
}

/// The pose of a linkage whose pivot at the foot is `c`.
pub open spec fn link_pose<F: Fn(Operation) -> u32>(fpu: F, link: LinkParamsAtom01, c: [u32; 3]) -> LinkPose {
    let theta = motor_angle(fpu, link, c);
    let b = turned_bar(fpu, link, theta);
    LinkPose {
        r_bar: apart(fpu, b, link.r_a_0),
        r_rod: apart(fpu, c, b),
        r_c: c,
        theta,
    }
}

/// The pose of both linkages at a pitch and a roll of the foot.
pub open spec fn linkage_pose<F: Fn(Operation) -> u32>(
    fpu: F,
    links: [LinkParamsAtom01; 2],
    pitch: u32,
    roll: u32,
) -> IkResultAtom01 {
    let at = attitude_of(fpu, pitch, roll);
    let long = link_pose(fpu, links@[0], turned_foot(fpu, at, links@[0].r_c_0));
    let short = link_pose(fpu, links@[1], turned_foot(fpu, at, links@[1].r_c_0));
    IkResultAtom01 {
        r_bar: [long.r_bar, short.r_bar],
        r_rod: [long.r_rod, short.r_rod],
        r_c: [long.r_c, short.r_c],
        theta: [long.theta, short.theta],
    }
}

/// Computes the sines and cosines of a pose.
fn attitude<F: Fn(Operation) -> u32>(pitch: u32, roll: u32, fpu: &F) -> (r: Attitude)
    requires
        defined(*fpu),
    ensures
        r == attitude_of(*fpu, pitch, roll),
{
    Attitude {
        cos_pitch: cos_approx(pitch, fpu),
        sin_pitch: sin_approx(pitch, fpu),
        cos_roll: cos_approx(roll, fpu),
        sin_roll: sin_approx(roll, fpu),
    }
}

/// Turns a point of the foot.
fn turn_foot<F: Fn(Operation) -> u32>(at: &Attitude, c: &[u32; 3], fpu: &F) -> (r: [u32; 3])
    requires
        defined(*fpu),
    ensures
        r == turned_foot(*fpu, *at, *c),
{
    let x: u32 = c[0];
    let y: u32 = minus_of_times(fpu, at.cos_roll, c[1], at.sin_roll, c[2]);
    let z: u32 = plus_of_times(fpu, at.sin_roll, c[1], at.cos_roll, c[2]);
    [
        plus_of_times(fpu, at.cos_pitch, x, at.sin_pitch, z),
        y,
        plus_of_times(fpu, negate(at.sin_pitch), x, at.cos_pitch, z),
    ]
}

/// Computes the angle of a motor.
fn solve_motor<F: Fn(Operation) -> u32>(link: &LinkParamsAtom01, c: &[u32; 3], fpu: &F) -> (r: u32)
    requires
        defined(*fpu),
    ensures
        r == motor_angle(*fpu, *link, *c),
{
    let a: u32 = minus(fpu, c[0], link.r_a_0[0]);
    let b: u32 = minus(fpu, link.r_a_0[2], c[2]);
    let squares: u32 = minus_of_times(fpu, link.l_rod, link.l_rod, link.l_bar, link.l_bar);
    let d: [u32; 3] = minus3(c, &link.r_a_0, fpu);
    let k: u32 = over(
        fpu,
        minus(fpu, squares, dot3(&d, &d, fpu)),
        times(fpu, TWO, link.l_bar),
    );
    let a_sq: u32 = times(fpu, a, a);
    let b_sq: u32 = times(fpu, b, b);
    let k_sq: u32 = times(fpu, k, k);
    let discriminant: u32 = minus_of_times(
        fpu,
        b_sq,
        k_sq,
        plus(fpu, a_sq, b_sq),
        minus(fpu, k_sq, a_sq),
    );
    let under_root: u32 = if less_than(discriminant, 0) {
        0
    } else {
        discriminant
    };
    let root: u32 = sqrt_approx(under_root, fpu);
    let theta: u32 = asin_approx(
        over(fpu, plus(fpu, times(fpu, b, k), root), plus(fpu, a_sq, b_sq)),
        fpu,
    );
    if less_than(a, 0) {
        theta
    } else {
        negate(theta)
    }
}

/// Turns a bar.
fn turn_bar<F: Fn(Operation) -> u32>(link: &LinkParamsAtom01, theta: u32, fpu: &F) -> (r: [u32; 3])
    requires
        defined(*fpu),
    ensures
        r == turned_bar(*fpu, *link, theta),
{
    let a: [u32; 3] = link.r_a_0;
    let bar: [u32; 3] = minus3(&link.r_b_0, &link.r_a_0, fpu);
    let cos: u32 = cos_approx(theta, fpu);
    let sin: u32 = sin_approx(theta, fpu);
    [
        plus(fpu, plus(fpu, a[0], times(fpu, cos, bar[0])), times(fpu, sin, bar[2])),
        plus(fpu, a[1], bar[1]),
        plus(fpu, minus(fpu, a[2], times(fpu, sin, bar[0])), times(fpu, cos, bar[2])),
    ]
}

/// Computes the pose of a linkage.
fn pose_link<F: Fn(Operation) -> u32>(link: &LinkParamsAtom01, c: &[u32; 3], fpu: &F) -> (r: LinkPose)
    requires
        defined(*fpu),
    ensures
        r == link_pose(*fpu, *link, *c),
{
    let theta: u32 = solve_motor(link, c, fpu);
    let b: [u32; 3] = turn_bar(link, theta, fpu);
    LinkPose {
        r_bar: minus3(&b, &link.r_a_0, fpu),
        r_rod: minus3(c, &b, fpu),
        r_c: *c,
        theta,
    }
}

/// Jacobian of an ankle, from motor to joint velocities and from joint to motor
/// velocities.
#[derive(Debug, Clone, Copy, PartialEq, Eq)]
pub struct JacobianResult {
    pub j_motor2joint: [[u32; 2]; 2],
    pub j_joint2motor: [[u32; 2]; 2],
}

impl Default for JacobianResult {
    /// All zero.
    fn default() -> (r: Self)
        ensures
            r == (JacobianResult {
                j_motor2joint: [[0, 0], [0, 0]],
                j_joint2motor: [[0, 0], [0, 0]],
            }),
    {
        JacobianResult { j_motor2joint: [[0, 0], [0, 0]], j_joint2motor: [[0, 0], [0, 0]] }
    }
}

impl From<[[u32; 2]; 2]> for JacobianResult {
    /// The same matrix both ways, where only the first is of interest.
    fn from(j_motor2joint: [[u32; 2]; 2]) -> (r: Self) {
        JacobianResult { j_motor2joint, j_joint2motor: j_motor2joint }
    }
}

impl vstd::std_specs::convert::FromSpecImpl<[[u32; 2]; 2]> for JacobianResult {
    open spec fn obeys_from_spec() -> bool {
        true
    }

    open spec fn from_spec(j_motor2joint: [[u32; 2]; 2]) -> Self {
        JacobianResult { j_motor2joint, j_joint2motor: j_motor2joint }
    }
}

/// The row of a linkage: what a velocity and a rotation of the foot do along its
/// rod.
pub open spec fn twist_row<F: Fn(Operation) -> u32>(fpu: F, rod: [u32; 3], c: [u32; 3]) -> [u32; 6] {
    let cross = cross_product(fpu, c, rod);
    [rod@[0], rod@[1], rod@[2], cross@[0], cross@[1], cross@[2]]
}

/// What turning the motor of a linkage does along its rod.
pub open spec fn motor_gain<F: Fn(Operation) -> u32>(fpu: F, bar: [u32; 3], rod: [u32; 3]) -> u32 {
    scalar_product(fpu, S_BAR, cross_product(fpu, bar, rod))
}

/// Velocity and rotation of the foot when the pitch turns: about the y axis.
pub open spec fn pitch_twist() -> [u32; 6] {
    [0, 0, 0, 0, ONE, 0]
}

/// Velocity and rotation of the foot when the roll turns: about the x axis of the
/// pitched foot.
pub open spec fn roll_twist<F: Fn(Operation) -> u32>(fpu: F, pitch: u32) -> [u32; 6] {
    [0, 0, 0, cosine(fpu, pitch), 0, negated(sine(fpu, pitch))]
}

/// What turning the joints does along both rods.
pub open spec fn joint_gains<F: Fn(Operation) -> u32>(fpu: F, ik: IkResultAtom01, pitch: u32) -> [[u32; 2]; 2] {
    let long = twist_row(fpu, ik.r_rod@[0], ik.r_c@[0]);
    let short = twist_row(fpu, ik.r_rod@[1], ik.r_c@[1]);
    [
        [
            inner_product(fpu, long@, pitch_twist()@, 6),
            inner_product(fpu, long@, roll_twist(fpu, pitch)@, 6),
        ],
        [
            inner_product(fpu, short@, pitch_twist()@, 6),
            inner_product(fpu, short@, roll_twist(fpu, pitch)@, 6),
        ],
    ]
}

/// What turning the motors does along both rods; each turns its own.
pub open spec fn motor_gains<F: Fn(Operation) -> u32>(fpu: F, ik: IkResultAtom01) -> [[u32; 2]; 2] {
    [
        [motor_gain(fpu, ik.r_bar@[0], ik.r_rod@[0]), 0],
        [0, motor_gain(fpu, ik.r_bar@[1], ik.r_rod@[1])],
    ]
}

/// The Jacobian at a pose: what the motors do along the rods equals what the
/// joints do along them.
pub open spec fn jacobian_at<F: Fn(Operation) -> u32>(fpu: F, ik: IkResultAtom01, pitch: u32) -> JacobianResult {
    let joints = joint_gains(fpu, ik, pitch);
    let motors = motor_gains(fpu, ik);
    JacobianResult {
        j_motor2joint: matrix_product(fpu, inverted(fpu, joints), motors),
        j_joint2motor: matrix_product(fpu, inverted(fpu, motors), joints),
    }
}

/// Computes the row of a linkage.
fn row_of<F: Fn(Operation) -> u32>(rod: &[u32; 3], c: &[u32; 3], fpu: &F) -> (r: [u32; 6])
    requires
        defined(*fpu),
    ensures
        r == twist_row(*fpu, *rod, *c),
{
    let cross: [u32; 3] = cross3(c, rod, fpu);
    [rod[0], rod[1], rod[2], cross[0], cross[1], cross[2]]
}

impl AnkleDecoupler {
    /// The linkages in use.
    pub open spec fn links_of(&self) -> [LinkParamsAtom01; 2] {
        if self.side {
            self.links_left
        } else {
            self.links_right
        }
    }

    /// The motor angles, and the pose of the linkages, at joint angles.
    pub fn inverse_kinematics<F: Fn(Operation) -> u32>(&self, q_pitch: u32, q_roll: u32, fpu: &F) -> (r: IkResultAtom01)
        requires
            defined(*fpu),
        ensures
            r == linkage_pose(*fpu, self.links_of(), q_pitch, q_roll),
    {
        let links = self.links();
        let at = attitude(q_pitch, q_roll, fpu);
        let foot_long: [u32; 3] = turn_foot(&at, &links[0].r_c_0, fpu);
        let foot_short: [u32; 3] = turn_foot(&at, &links[1].r_c_0, fpu);
        let long = pose_link(&links[0], &foot_long, fpu);
        let short = pose_link(&links[1], &foot_short, fpu);
        IkResultAtom01 {
            r_bar: [long.r_bar, short.r_bar],
            r_rod: [long.r_rod, short.r_rod],
            r_c: [long.r_c, short.r_c],
            theta: [long.theta, short.theta],
        }
    }

    /// The Jacobian at a pose of the linkages.
    pub fn jacobian<F: Fn(Operation) -> u32>(&self, ik: &IkResultAtom01, q_pitch: u32, fpu: &F) -> (r: JacobianResult)
        requires
            defined(*fpu),
        ensures
            r == jacobian_at(*fpu, *ik, q_pitch),
    {
        let long: [u32; 6] = row_of(&ik.r_rod[0], &ik.r_c[0], fpu);
        let short: [u32; 6] = row_of(&ik.r_rod[1], &ik.r_c[1], fpu);
        let pitch: [u32; 6] = [0, 0, 0, 0, ONE, 0];
        let cos_p: u32 = cos_approx(q_pitch, fpu);
        let sin_p: u32 = sin_approx(q_pitch, fpu);
        let roll: [u32; 6] = [0, 0, 0, cos_p, 0, negate(sin_p)];
        let joints: [[u32; 2]; 2] = [
            [inner(fpu, long.as_slice(), pitch.as_slice()), inner(fpu, long.as_slice(), roll.as_slice())],
            [inner(fpu, short.as_slice(), pitch.as_slice()), inner(fpu, short.as_slice(), roll.as_slice())],
        ];
        let gain_long: u32 = dot3(&S_BAR, &cross3(&ik.r_bar[0], &ik.r_rod[0], fpu), fpu);
        let gain_short: u32 = dot3(&S_BAR, &cross3(&ik.r_bar[1], &ik.r_rod[1], fpu), fpu);
        let motors: [[u32; 2]; 2] = [[gain_long, 0], [0, gain_short]];
        JacobianResult {
            j_motor2joint: multiply(&inverse(&joints, fpu), &motors, fpu),
            j_joint2motor: multiply(&inverse(&motors, fpu), &joints, fpu),
        }
    }

    /// Motor torques that hold joint torques, by the transposed Jacobian.
    pub open spec fn motor_torques<F: Fn(Operation) -> u32>(fpu: F, tau_joint: [u32; 2], jac: [[u32; 2]; 2]) -> [u32; 2] {
        [
            sum_of_products(fpu, jac@[0]@[0], tau_joint@[0], jac@[1]@[0], tau_joint@[1]),
            sum_of_products(fpu, jac@[0]@[1], tau_joint@[0], jac@[1]@[1], tau_joint@[1]),
        ]
    }

    /// Computes the motor torques that hold joint torques.
    pub fn joint_torque_to_motor<F: Fn(Operation) -> u32>(
        &self,
        tau_joint: &[u32; 2],
        jac: &JacobianResult,
        fpu: &F,
    ) -> (r: [u32; 2])
        requires
            defined(*fpu),
        ensures
            r == Self::motor_torques(*fpu, *tau_joint, jac.j_motor2joint),
    {
        let row0: [u32; 2] = jac.j_motor2joint[0];
        let row1: [u32; 2] = jac.j_motor2joint[1];
        [
            plus_of_times(fpu, row0[0], tau_joint[0], row1[0], tau_joint[1]),
            plus_of_times(fpu, row0[1], tau_joint[0], row1[1], tau_joint[1]),
        ]
    }
}

/// What one evaluation of the linkage gave: the Jacobian from motors to joints,
/// the error of the motor angles, the change of the joint angles that follows
/// from both, and the joint angles with that change.
#[derive(Debug, Clone, Copy, PartialEq, Eq)]
pub struct NewtonStep {
    pub jacobian: [[u32; 2]; 2],
    pub error: [u32; 2],
    pub update: [u32; 2],
    pub pose: [u32; 2],
}

/// Joint angles found, or given up.
#[derive(Debug, Clone, Copy, PartialEq, Eq)]
pub struct FkResult {
    pub pitch: u32,
    pub roll: u32,
    pub jacobian: [[u32; 2]; 2],
    pub iterations: u8,
    pub converged: bool,
}

/// Every entry of a matrix is finite.
pub open spec fn finite_matrix(m: [[u32; 2]; 2]) -> bool {
    forall|r: int, c: int| 0 <= r < 2 && 0 <= c < 2 ==> finite(#[trigger] m@[r]@[c])
}

/// A change of joint angles that leaves the reach of the mechanism.
pub open spec fn diverges(update: [u32; 2]) -> bool {
    exists|k: int|
        0 <= k < 2 && (!finite(#[trigger] update@[k]) || below(JOINT_LIMIT, absolute(update@[k])))
}

/// An error small enough to stop.
pub open spec fn within_tolerance(error: [u32; 2]) -> bool {
    forall|k: int| 0 <= k < 2 ==> below(absolute(#[trigger] error@[k]), TOLERANCE)
}

/// The evaluation is unusable.
pub open spec fn unusable(step: NewtonStep) -> bool {
    !finite_matrix(step.jacobian) || diverges(step.update)
}

/// Whether every entry of a matrix is finite.
pub fn is_finite_matrix(m: &[[u32; 2]; 2]) -> (r: bool)
    ensures
        r == finite_matrix(*m),
{
    let row0: [u32; 2] = m[0];
    let row1: [u32; 2] = m[1];
    let r = is_finite(row0[0]) && is_finite(row0[1]) && is_finite(row1[0]) && is_finite(row1[1]);
    proof {
        if r {
            assert forall|i: int, c: int| 0 <= i < 2 && 0 <= c < 2 implies finite(
                #[trigger] m@[i]@[c],
            ) by {
                assert(i == 0 || i == 1);
                assert(c == 0 || c == 1);
            }
        } else {
            assert(!finite(m@[0]@[0]) || !finite(m@[0]@[1]) || !finite(m@[1]@[0]) || !finite(
                m@[1]@[1],
            ));
        }
    }
    r
}

/// The result of giving up after `iterations` usable evaluations: the zero pose,
/// which is safe to command, and the identity in place of the Jacobian.
pub open spec fn gave_up(iterations: int) -> FkResult {
    FkResult {
        pitch: 0,
        roll: 0,
        jacobian: [[ONE, 0], [0, ONE]],
        iterations: iterations as u8,
        converged: false,
    }
}

/// The result of stopping at an evaluation, the `iterations`-th usable one.
pub open spec fn stopped_at(step: NewtonStep, iterations: int) -> FkResult {
    FkResult {
        pitch: step.pose@[0],
        roll: step.pose@[1],
        jacobian: step.jacobian,
        iterations: iterations as u8,
        converged: within_tolerance(step.error),
    }
}

/// The evaluation of an ankle at joint angles: the Jacobian there, how far the
/// motor angles are off, and the Newton step that follows.
pub open spec fn newton_step<F: Fn(Operation) -> u32>(
    fpu: F,
    links: [LinkParamsAtom01; 2],
    motor_angles: [u32; 2],
    pitch: u32,
    roll: u32,
) -> NewtonStep {
    let ik = linkage_pose(fpu, links, pitch, roll);
    let j = jacobian_at(fpu, ik, pitch).j_motor2joint;
    let error = [
        difference(fpu, motor_angles@[0], ik.theta@[0]),
        difference(fpu, motor_angles@[1], ik.theta@[1]),
    ];
    let update = [
        sum_of_products(fpu, j@[0]@[0], error@[0], j@[0]@[1], error@[1]),
        sum_of_products(fpu, j@[1]@[0], error@[0], j@[1]@[1], error@[1]),
    ];
    NewtonStep {
        jacobian: j,
        error,
        update,
        pose: [sum(fpu, pitch, update@[0]), sum(fpu, roll, update@[1])],
    }
}

/// The result of the Newton iteration that goes on at a pose after `iterations`
/// usable evaluations. It gives up on an unusable evaluation; it stops on a small
/// error, and after a hundred evaluations.
pub open spec fn solution<F: Fn(Operation) -> u32>(
    fpu: F,
    links: [LinkParamsAtom01; 2],
    motor_angles: [u32; 2],
    pitch: u32,
    roll: u32,
    iterations: int,
) -> FkResult
    decreases MAX_ITER - iterations,
{
    let step = newton_step(fpu, links, motor_angles, pitch, roll);
    if unusable(step) {
        gave_up(iterations)
    } else if within_tolerance(step.error) || iterations + 1 >= MAX_ITER {
        stopped_at(step, iterations + 1)
    } else {
        solution(fpu, links, motor_angles, step.pose@[0], step.pose@[1], iterations + 1)
    }
}

/// Whether a change of joint angles leaves the reach of the mechanism.
fn is_divergent(update: &[u32; 2]) -> (r: bool)
    ensures
        r == diverges(*update),
{
    let r = less_than(JOINT_LIMIT, abs(update[0])) || less_than(JOINT_LIMIT, abs(update[1]))
        || !is_finite(update[0]) || !is_finite(update[1]);
    assert(r == diverges(*update)) by {
        assert(update@[0] == update[0]);
        assert(update@[1] == update[1]);
    }
    r
}

/// Whether an error is small enough to stop.
fn is_small(error: &[u32; 2]) -> (r: bool)
    ensures
        r == within_tolerance(*error),
{
    less_than(abs(error[0]), TOLERANCE) && less_than(abs(error[1]), TOLERANCE)
}

impl AnkleDecoupler {
    /// Evaluates the ankle at joint angles.
    fn evaluate<F: Fn(Operation) -> u32>(&self, motor_angles: &[u32; 2], pitch: u32, roll: u32, fpu: &F) -> (r: NewtonStep)
        requires
            defined(*fpu),
        ensures
            r == newton_step(*fpu, self.links_of(), *motor_angles, pitch, roll),
    {
        let ik = self.inverse_kinematics(pitch, roll, fpu);
        let jacobian: [[u32; 2]; 2] = self.jacobian(&ik, pitch, fpu).j_motor2joint;
        let row0: [u32; 2] = jacobian[0];
        let row1: [u32; 2] = jacobian[1];
        let error: [u32; 2] = [
            minus(fpu, motor_angles[0], ik.theta[0]),
            minus(fpu, motor_angles[1], ik.theta[1]),
        ];
        let update: [u32; 2] = [
            plus_of_times(fpu, row0[0], error[0], row0[1], error[1]),
            plus_of_times(fpu, row1[0], error[0], row1[1], error[1]),
        ];
        NewtonStep {
            jacobian,
            error,
            update,
            pose: [plus(fpu, pitch, update[0]), plus(fpu, roll, update[1])],
        }
    }

    /// Joint angles from motor angles, by Newton iteration from the zero pose. The
    /// error shrinks quadratically: motor angles up to a radian either way take
    /// fewer than ten evaluations.
    pub fn forward_kinematics<F: Fn(Operation) -> u32>(&self, motor_angles: &[u32; 2], fpu: &F) -> (r: FkResult)
        requires
            defined(*fpu),
        ensures
            r == solution(*fpu, self.links_of(), *motor_angles, 0, 0, 0),
    {
        let mut pitch: u32 = 0;
        let mut roll: u32 = 0;
        let mut iterations: u8 = 0;
        loop
            invariant
                defined(*fpu),
                iterations < MAX_ITER,
                solution(*fpu, self.links_of(), *motor_angles, pitch, roll, iterations as int)
                    == solution(*fpu, self.links_of(), *motor_angles, 0, 0, 0),
            decreases MAX_ITER - iterations,
        {
            let step = self.evaluate(motor_angles, pitch, roll, fpu);
            if !is_finite_matrix(&step.jacobian) || is_divergent(&step.update) {
                return FkResult {
                    pitch: 0,
                    roll: 0,
                    jacobian: [[ONE, 0], [0, ONE]],
                    iterations,
                    converged: false,
                };
            }
            iterations = iterations + 1;
            let converged = is_small(&step.error);
            if converged || iterations == MAX_ITER {
                return FkResult {
                    pitch: step.pose[0],
                    roll: step.pose[1],
                    jacobian: step.jacobian,
                    iterations,
                    converged,
                };
            }
            pitch = step.pose[0];
            roll = step.pose[1];
        }
    }
}

/// Whatever the motor angles are, even not finite, and whatever the arithmetic
/// gives, the iteration stops after at most a hundred evaluations with a finite
/// Jacobian; if it gave up before, it answers with the zero pose.
#[verifier::spinoff_prover]
#[verifier::rlimit(60)]
pub proof fn solver_stops<F: Fn(Operation) -> u32>(
    fpu: F,
    links: [LinkParamsAtom01; 2],
    motor_angles: [u32; 2],
    pitch: u32,
    roll: u32,
    iterations: int,
)
    requires
        0 <= iterations < MAX_ITER,
    ensures
        ({
            let r = solution(fpu, links, motor_angles, pitch, roll, iterations);
            &&& iterations <= r.iterations <= MAX_ITER
            &&& finite_matrix(r.jacobian)
            &&& !r.converged && r.iterations < MAX_ITER ==> r == gave_up(r.iterations as int)
        }),
    decreases MAX_ITER - iterations,
{
    let step = newton_step(fpu, links, motor_angles, pitch, roll);
    if unusable(step) {
        let r = gave_up(iterations);
        assert forall|i: int, c: int| 0 <= i < 2 && 0 <= c < 2 implies finite(
            #[trigger] r.jacobian@[i]@[c],
        ) by {
            assert(i == 0 || i == 1);
            assert(c == 0 || c == 1);
        }
    } else if !within_tolerance(step.error) && iterations + 1 < MAX_ITER {
        solver_stops(fpu, links, motor_angles, step.pose@[0], step.pose@[1], iterations + 1);
    }
}

/// The result is that of an evaluation at the joint angles `pitch` and `roll`
/// which is finite, stays within reach and has both errors below the tolerance.
pub open spec fn earned<F: Fn(Operation) -> u32>(
    fpu: F,
    links: [LinkParamsAtom01; 2],
    motor_angles: [u32; 2],
    pitch: u32,
    roll: u32,
    r: FkResult,
) -> bool {
    let step = newton_step(fpu, links, motor_angles, pitch, roll);
    !unusable(step) && within_tolerance(step.error) && r == stopped_at(step, r.iterations as int)
}

/// The iteration claims to have converged only where the motor angles of some
/// pose are close to those that were asked for, and then gives that pose with
/// its last correction.
#[verifier::spinoff_prover]
#[verifier::rlimit(60)]
pub proof fn convergence_is_earned<F: Fn(Operation) -> u32>(
    fpu: F,
    links: [LinkParamsAtom01; 2],
    motor_angles: [u32; 2],
    pitch: u32,
    roll: u32,
    iterations: int,
)
    requires
        0 <= iterations < MAX_ITER,
        solution(fpu, links, motor_angles, pitch, roll, iterations).converged,
    ensures
        exists|p: u32, q: u32| #[trigger]
            earned(
                fpu,
                links,
                motor_angles,
                p,
                q,
                solution(fpu, links, motor_angles, pitch, roll, iterations),
            ),
    decreases MAX_ITER - iterations,
{
    let step = newton_step(fpu, links, motor_angles, pitch, roll);
    let r = solution(fpu, links, motor_angles, pitch, roll, iterations);
    if within_tolerance(step.error) || iterations + 1 >= MAX_ITER {
        assert(earned(fpu, links, motor_angles, pitch, roll, r));
    } else {
        convergence_is_earned(
            fpu,
            links,
            motor_angles,
            step.pose@[0],
            step.pose@[1],
            iterations + 1,
        );
    }
}

/// Adding a change of at most the joint limit to a finite number gives a finite
/// number, as with every unit that rounds to nearest.
pub open spec fn small_changes_stay_finite<F: Fn(Operation) -> u32>(fpu: F) -> bool {
    forall|a: u32, b: u32|
        finite(a) && finite(b) && !below(JOINT_LIMIT, absolute(b)) ==> finite(
            #[trigger] sum(fpu, a, b),
        )
}

/// Whatever the motor angles are, even not finite, the joint angles that come out
/// are finite: on convergence, on giving up, and after a hundred evaluations.
#[verifier::spinoff_prover]
#[verifier::rlimit(60)]
pub proof fn joint_angles_are_finite<F: Fn(Operation) -> u32>(
    fpu: F,
    links: [LinkParamsAtom01; 2],
    motor_angles: [u32; 2],
    pitch: u32,
    roll: u32,
    iterations: int,
)
    requires
        small_changes_stay_finite(fpu),
        finite(pitch),
        finite(roll),
    ensures
        finite(solution(fpu, links, motor_angles, pitch, roll, iterations).pitch),
        finite(solution(fpu, links, motor_angles, pitch, roll, iterations).roll),
    decreases MAX_ITER - iterations,
{
    let step = newton_step(fpu, links, motor_angles, pitch, roll);
    if !unusable(step) {
        assert(finite(step.update@[0]) && !below(JOINT_LIMIT, absolute(step.update@[0])));
        assert(finite(step.update@[1]) && !below(JOINT_LIMIT, absolute(step.update@[1])));
        assert(finite(step.pose@[0]) && finite(step.pose@[1]));
        if !within_tolerance(step.error) && iterations + 1 < MAX_ITER {
            joint_angles_are_finite(
                fpu,
                links,
                motor_angles,
                step.pose@[0],
                step.pose@[1],
                iterations + 1,
            );
        }
    }
}

/// A matrix whose determinant is zero has zeros for its inverse: nothing is ever
/// divided by a determinant of zero.
pub proof fn singular_matrices_have_no_inverse<F: Fn(Operation) -> u32>(fpu: F, m: [[u32; 2]; 2])
    requires
        difference_of_products(fpu, m@[0]@[0], m@[1]@[1], m@[0]@[1], m@[1]@[0]) == 0,
    ensures
        inverted(fpu, m) == [[0u32, 0u32], [0u32, 0u32]],
{
    lemma_magnitude_order(0, SINGULAR as int);
}

/// An angle that lies within half a turn either way is left alone.
pub proof fn wound_angles_stay<F: Fn(Operation) -> u32>(fpu: F, x: u32, turns: nat)
    requires
        !below(HALF_TURN, x),
        !below(x, HALF_TURN_NEG),
    ensures
        wound_back(fpu, x, turns) == x,
        wrapped(fpu, x) == x,
{
}

/// Two points mirror each other: same forward and upward, opposite sideways.
pub open spec fn mirrored(a: [u32; 3], b: [u32; 3]) -> bool {
    same(a@[0], b@[0]) && same(negated(a@[1]), b@[1]) && same(a@[2], b@[2])
}

/// Two linkages mirror each other.
pub open spec fn mirrored_links(l: LinkParamsAtom01, r: LinkParamsAtom01) -> bool {
    &&& l.l_rod == r.l_rod && l.l_bar == r.l_bar
    &&& mirrored(l.r_a_0, r.r_a_0)
    &&& mirrored(l.r_b_0, r.r_b_0)
    &&& mirrored(l.r_c_0, r.r_c_0)
}

/// Winding back alike angles gives alike angles.
#[verifier::rlimit(60)]
proof fn lemma_wound_back<F: Fn(Operation) -> u32>(fpu: F, f: bool, x: u32, y: u32, turns: nat)
    requires
        respects_signs(fpu),
        alike(f, x, y),
    ensures
        alike(f, wound_back(fpu, x, turns), wound_back(fpu, y, turns)),
    decreases turns,
{
    negation_undoes_itself(x);
    let low = difference(fpu, x, FULL_TURN);
    let high = sum(fpu, x, FULL_TURN);
    if turns > 0 {
        if below(HALF_TURN, x) {
            if f {
                lemma_flipped_turn(fpu, x, y);
                lemma_wound_back(fpu, f, low, sum(fpu, y, FULL_TURN), (turns - 1) as nat);
            } else {
                lemma_difference(fpu, f, x, FULL_TURN, y, FULL_TURN);
                lemma_wound_back(fpu, f, low, difference(fpu, y, FULL_TURN), (turns - 1) as nat);
            }
        } else if below(x, HALF_TURN_NEG) {
            if f {
                lemma_flipped_turn(fpu, x, y);
                lemma_wound_back(fpu, f, high, difference(fpu, y, FULL_TURN), (turns - 1) as nat);
            } else {
                lemma_sum(fpu, f, x, FULL_TURN, y, FULL_TURN);
                lemma_wound_back(fpu, f, high, sum(fpu, y, FULL_TURN), (turns - 1) as nat);
            }
        }
    }
}

/// A turn added to an angle is a turn taken from its opposite.
proof fn lemma_flipped_turn<F: Fn(Operation) -> u32>(fpu: F, x: u32, y: u32)
    requires
        respects_signs(fpu),
        alike(true, x, y),
    ensures
        alike(true, difference(fpu, x, FULL_TURN), sum(fpu, y, FULL_TURN)),
        alike(true, sum(fpu, x, FULL_TURN), difference(fpu, y, FULL_TURN)),
{
    reveal(respects_signs);
}

/// Wrapping alike angles gives alike angles.
#[verifier::rlimit(60)]
proof fn lemma_wrapped<F: Fn(Operation) -> u32>(fpu: F, f: bool, x: u32, y: u32)
    requires
        respects_signs(fpu),
        alike(f, x, y),
    ensures
        alike(f, wrapped(fpu, x), wrapped(fpu, y)),
{
    let (u, v) = (wound_back(fpu, x, MAX_TURNS as nat), wound_back(fpu, y, MAX_TURNS as nat));
    lemma_wound_back(fpu, f, x, y, MAX_TURNS as nat);
    negation_undoes_itself(x);
    negation_undoes_itself(u);
    lemma_same_finite(
        if f {
            negated(x)
        } else {
            x
        },
        y,
    );
}

/// The sine of an opposite angle is opposite, and the cosine the same.
#[verifier::rlimit(60)]
proof fn lemma_angles<F: Fn(Operation) -> u32>(fpu: F, f: bool, a: u32, b: u32)
    requires
        respects_signs(fpu),
        alike(f, a, b),
    ensures
        alike(f, sine(fpu, a), sine(fpu, b)),
        same(cosine(fpu, a), cosine(fpu, b)),
{
    lemma_wrapped(fpu, f, a, b);
    let (x, y) = (wrapped(fpu, a), wrapped(fpu, b));
    let (x2, y2) = (product(fpu, x, x), product(fpu, y, y));
    let (x3, y3) = (product(fpu, x2, x), product(fpu, y2, y));
    let (x5, y5) = (product(fpu, x3, x2), product(fpu, y3, y2));
    let (x7, y7) = (product(fpu, x5, x2), product(fpu, y5, y2));
    let (x9, y9) = (product(fpu, x7, x2), product(fpu, y7, y2));
    lemma_product(fpu, f, f, x, x, y, y);
    lemma_product(fpu, false, f, x2, x, y2, y);
    lemma_product(fpu, f, false, x3, x2, y3, y2);
    lemma_product(fpu, f, false, x5, x2, y5, y2);
    lemma_product(fpu, f, false, x7, x2, y7, y2);
    let (a3, b3) = (product(fpu, x3, SIN_3), product(fpu, y3, SIN_3));
    let (a5, b5) = (product(fpu, x5, SIN_5), product(fpu, y5, SIN_5));
    let (a7, b7) = (product(fpu, x7, SIN_7), product(fpu, y7, SIN_7));
    let (a9, b9) = (product(fpu, x9, SIN_9), product(fpu, y9, SIN_9));
    lemma_product(fpu, f, false, x3, SIN_3, y3, SIN_3);
    lemma_product(fpu, f, false, x5, SIN_5, y5, SIN_5);
    lemma_product(fpu, f, false, x7, SIN_7, y7, SIN_7);
    lemma_product(fpu, f, false, x9, SIN_9, y9, SIN_9);
    let (s3, t3) = (difference(fpu, x, a3), difference(fpu, y, b3));
    let (s5, t5) = (sum(fpu, s3, a5), sum(fpu, t3, b5));
    let (s7, t7) = (difference(fpu, s5, a7), difference(fpu, t5, b7));
    lemma_difference(fpu, f, x, a3, y, b3);
    lemma_sum(fpu, f, s3, a5, t3, b5);
    lemma_difference(fpu, f, s5, a7, t5, b7);
    lemma_sum(fpu, f, s7, a9, t7, b9);
    let (x4, y4) = (product(fpu, x2, x2), product(fpu, y2, y2));
    let (x6, y6) = (product(fpu, x4, x2), product(fpu, y4, y2));
    let (x8, y8) = (product(fpu, x6, x2), product(fpu, y6, y2));
    lemma_product(fpu, false, false, x2, x2, y2, y2);
    lemma_product(fpu, false, false, x4, x2, y4, y2);
    lemma_product(fpu, false, false, x6, x2, y6, y2);
    let (c2, d2) = (product(fpu, x2, HALF), product(fpu, y2, HALF));
    let (c4, d4) = (product(fpu, x4, COS_4), product(fpu, y4, COS_4));
    let (c6, d6) = (product(fpu, x6, COS_6), product(fpu, y6, COS_6));
    let (c8, d8) = (product(fpu, x8, COS_8), product(fpu, y8, COS_8));
    lemma_product(fpu, false, false, x2, HALF, y2, HALF);
    lemma_product(fpu, false, false, x4, COS_4, y4, COS_4);
    lemma_product(fpu, false, false, x6, COS_6, y6, COS_6);
    lemma_product(fpu, false, false, x8, COS_8, y8, COS_8);
    let (u2, v2) = (difference(fpu, ONE, c2), difference(fpu, ONE, d2));
    let (u4, v4) = (sum(fpu, u2, c4), sum(fpu, v2, d4));
    let (u6, v6) = (difference(fpu, u4, c6), difference(fpu, v4, d6));
    lemma_difference(fpu, false, ONE, c2, ONE, d2);
    lemma_sum(fpu, false, u2, c4, v2, d4);
    lemma_difference(fpu, false, u4, c6, v4, d6);
    lemma_sum(fpu, false, u6, c8, v6, d8);
}

/// The arc sine of the same number is the same.
#[verifier::rlimit(60)]
proof fn lemma_arc_sine<F: Fn(Operation) -> u32>(fpu: F, a: u32, b: u32)
    requires
        respects_signs(fpu),
        same(a, b),
    ensures
        same(arc_sine(fpu, a), arc_sine(fpu, b)),
{
    let (x, y) = (clamped(a, MINUS_ONE, ONE), clamped(b, MINUS_ONE, ONE));
    assert(alike(false, x, y));
    let (x2, y2) = (product(fpu, x, x), product(fpu, y, y));
    let (x3, y3) = (product(fpu, x2, x), product(fpu, y2, y));
    let (x5, y5) = (product(fpu, x3, x2), product(fpu, y3, y2));
    let (x7, y7) = (product(fpu, x5, x2), product(fpu, y5, y2));
    let (x9, y9) = (product(fpu, x7, x2), product(fpu, y7, y2));
    lemma_product(fpu, false, false, x, x, y, y);
    lemma_product(fpu, false, false, x2, x, y2, y);
    lemma_product(fpu, false, false, x3, x2, y3, y2);
    lemma_product(fpu, false, false, x5, x2, y5, y2);
    lemma_product(fpu, false, false, x7, x2, y7, y2);
    let (a3, b3) = (product(fpu, x3, SIN_3), product(fpu, y3, SIN_3));
    let (a5, b5) = (product(fpu, x5, ASIN_5), product(fpu, y5, ASIN_5));
    let (a7, b7) = (product(fpu, x7, ASIN_7), product(fpu, y7, ASIN_7));
    let (a9, b9) = (product(fpu, x9, ASIN_9), product(fpu, y9, ASIN_9));
    lemma_product(fpu, false, false, x3, SIN_3, y3, SIN_3);
    lemma_product(fpu, false, false, x5, ASIN_5, y5, ASIN_5);
    lemma_product(fpu, false, false, x7, ASIN_7, y7, ASIN_7);
    lemma_product(fpu, false, false, x9, ASIN_9, y9, ASIN_9);
    let (s3, t3) = (sum(fpu, x, a3), sum(fpu, y, b3));
    let (s5, t5) = (sum(fpu, s3, a5), sum(fpu, t3, b5));
    let (s7, t7) = (sum(fpu, s5, a7), sum(fpu, t5, b7));
    lemma_sum(fpu, false, x, a3, y, b3);
    lemma_sum(fpu, false, s3, a5, t3, b5);
    lemma_sum(fpu, false, s5, a7, t5, b7);
    lemma_sum(fpu, false, s7, a9, t7, b9);
}

/// The square root of a NaN is one.
proof fn lemma_root_of_nan<F: Fn(Operation) -> u32>(fpu: F, x: u32)
    requires
        respects_signs(fpu),
        nan(x),
    ensures
        nan(square_root(fpu, x)),
{
    reveal(respects_signs);
    reveal_with_fuel(root_from, 4);
}

/// The square root of the same number is the same.
#[verifier::rlimit(60)]
proof fn lemma_square_root<F: Fn(Operation) -> u32>(fpu: F, a: u32, b: u32)
    requires
        respects_signs(fpu),
        same(a, b),
    ensures
        same(square_root(fpu, a), square_root(fpu, b)),
{
    if nan(a) {
        lemma_root_of_nan(fpu, a);
        lemma_root_of_nan(fpu, b);
    } else if below(0, a) {
        lemma_positive(a);
        lemma_positive(b);
        lemma_same_pattern(a, b);
    }
}

/// Vectors between mirrored points are mirrored.
#[verifier::rlimit(60)]
proof fn lemma_apart<F: Fn(Operation) -> u32>(fpu: F, a: [u32; 3], b: [u32; 3], c: [u32; 3], d: [u32; 3])
    requires
        respects_signs(fpu),
        mirrored(a, c),
        mirrored(b, d),
    ensures
        mirrored(apart(fpu, a, b), apart(fpu, c, d)),
{
    lemma_difference(fpu, false, a@[0], b@[0], c@[0], d@[0]);
    lemma_difference(fpu, true, a@[1], b@[1], c@[1], d@[1]);
    lemma_difference(fpu, false, a@[2], b@[2], c@[2], d@[2]);
}

/// Sums of two squares of the same numbers are one pattern, unless they are NaN.
#[verifier::rlimit(60)]
proof fn lemma_squares<F: Fn(Operation) -> u32>(fpu: F, a: u32, b: u32, c: u32, d: u32)
    requires
        respects_signs(fpu),
        same(a, c),
        same(b, d),
    ensures
        ({
            let s = sum(fpu, product(fpu, a, a), product(fpu, b, b));
            let t = sum(fpu, product(fpu, c, c), product(fpu, d, d));
            same(s, t) && (s == t || nan(s) && nan(t))
        }),
{
    let s = sum(fpu, product(fpu, a, a), product(fpu, b, b));
    let t = sum(fpu, product(fpu, c, c), product(fpu, d, d));
    lemma_product(fpu, false, false, a, a, c, c);
    lemma_product(fpu, false, false, b, b, d, d);
    lemma_sum(
        fpu,
        false,
        product(fpu, a, a),
        product(fpu, b, b),
        product(fpu, c, c),
        product(fpu, d, d),
    );
    if !nan(s) {
        assert(s < SIGN && t < SIGN) by {
            reveal(respects_signs);
        }
        lemma_same_pattern(s, t);
    }
}

/// Motors of mirrored linkages stand alike.
#[verifier::rlimit(60)]
proof fn lemma_motor_angle<F: Fn(Operation) -> u32>(
    fpu: F,
    l: LinkParamsAtom01,
    r: LinkParamsAtom01,
    c: [u32; 3],
    d: [u32; 3],
)
    requires
        respects_signs(fpu),
        mirrored_links(l, r),
        mirrored(c, d),
    ensures
        same(motor_angle(fpu, l, c), motor_angle(fpu, r, d)),
{
    let (p, q) = (l.r_a_0, r.r_a_0);
    lemma_apart(fpu, c, p, d, q);
    lemma_difference(fpu, false, p@[2], c@[2], q@[2], d@[2]);
    let (u, v) = (apart(fpu, c, p), apart(fpu, d, q));
    let (a, a1) = (u@[0], v@[0]);
    let (b, b1) = (difference(fpu, p@[2], c@[2]), difference(fpu, q@[2], d@[2]));
    lemma_sum_of_products(
        fpu,
        false,
        true,
        false,
        (u@[0], u@[0], u@[1], u@[1]),
        (v@[0], v@[0], v@[1], v@[1]),
    );
    lemma_product(fpu, false, false, u@[2], u@[2], v@[2], v@[2]);
    let (m, m1) = (
        sum_of_products(fpu, u@[0], u@[0], u@[1], u@[1]),
        sum_of_products(fpu, v@[0], v@[0], v@[1], v@[1]),
    );
    lemma_sum(fpu, false, m, product(fpu, u@[2], u@[2]), m1, product(fpu, v@[2], v@[2]));
    let (e, e1) = (squared_distance(fpu, c, p), squared_distance(fpu, d, q));
    assert(same(e, e1));
    let squares = difference_of_products(fpu, l.l_rod, l.l_rod, l.l_bar, l.l_bar);
    let bars = product(fpu, TWO, l.l_bar);
    lemma_difference(fpu, false, squares, e, squares, e1);
    let (n, n1) = (difference(fpu, squares, e), difference(fpu, squares, e1));
    lemma_quotient(fpu, false, n, bars, n1, bars);
    let (k, k1) = (quotient(fpu, n, bars), quotient(fpu, n1, bars));
    let (a_sq, a1_sq) = (product(fpu, a, a), product(fpu, a1, a1));
    let (b_sq, b1_sq) = (product(fpu, b, b), product(fpu, b1, b1));
    let (k_sq, k1_sq) = (product(fpu, k, k), product(fpu, k1, k1));
    lemma_product(fpu, false, false, a, a, a1, a1);
    lemma_product(fpu, false, false, b, b, b1, b1);
    lemma_product(fpu, false, false, k, k, k1, k1);
    lemma_squares(fpu, a, b, a1, b1);
    let (s, s1) = (sum(fpu, a_sq, b_sq), sum(fpu, a1_sq, b1_sq));
    lemma_difference(fpu, false, k_sq, a_sq, k1_sq, a1_sq);
    let (g, g1) = (difference(fpu, k_sq, a_sq), difference(fpu, k1_sq, a1_sq));
    lemma_sum_of_products(fpu, false, false, false, (b_sq, k_sq, s, g), (b1_sq, k1_sq, s1, g1));
    let (h, h1) = (
        difference_of_products(fpu, b_sq, k_sq, s, g),
        difference_of_products(fpu, b1_sq, k1_sq, s1, g1),
    );
    let (w, w1) = (
        if below(h, 0) {
            0
        } else {
            h
        },
        if below(h1, 0) {
            0
        } else {
            h1
        },
    );
    lemma_square_root(fpu, w, w1);
    let (root, root1) = (square_root(fpu, w), square_root(fpu, w1));
    lemma_product(fpu, false, false, b, k, b1, k1);
    lemma_sum(fpu, false, product(fpu, b, k), root, product(fpu, b1, k1), root1);
    let (z, z1) = (sum(fpu, product(fpu, b, k), root), sum(fpu, product(fpu, b1, k1), root1));
    lemma_quotient(fpu, false, z, s, z1, s1);
    lemma_arc_sine(fpu, quotient(fpu, z, s), quotient(fpu, z1, s1));
    let (t, t1) = (
        arc_sine(fpu, quotient(fpu, z, s)),
        arc_sine(fpu, quotient(fpu, z1, s1)),
    );
    negation_undoes_itself(t);
    negation_undoes_itself(t1);
}

/// Bars of mirrored linkages, turned alike, end in mirrored points.
#[verifier::rlimit(60)]
proof fn lemma_turned_bar<F: Fn(Operation) -> u32>(fpu: F, l: LinkParamsAtom01, r: LinkParamsAtom01, s: u32, t: u32)
    requires
        respects_signs(fpu),
        mirrored_links(l, r),
        same(s, t),
    ensures
        mirrored(turned_bar(fpu, l, s), turned_bar(fpu, r, t)),
{
    lemma_angles(fpu, false, s, t);
    lemma_apart(fpu, l.r_b_0, l.r_a_0, r.r_b_0, r.r_a_0);
    let (a, b) = (l.r_a_0, r.r_a_0);
    let (u, v) = (apart(fpu, l.r_b_0, l.r_a_0), apart(fpu, r.r_b_0, r.r_a_0));
    let (cu, cv) = (cosine(fpu, s), cosine(fpu, t));
    let (su, sv) = (sine(fpu, s), sine(fpu, t));
    lemma_product(fpu, false, false, cu, u@[0], cv, v@[0]);
    lemma_product(fpu, false, false, su, u@[2], sv, v@[2]);
    lemma_product(fpu, false, false, su, u@[0], sv, v@[0]);
    lemma_product(fpu, false, false, cu, u@[2], cv, v@[2]);
    let (x0, y0) = (product(fpu, cu, u@[0]), product(fpu, cv, v@[0]));
    let (x1, y1) = (product(fpu, su, u@[0]), product(fpu, sv, v@[0]));
    lemma_sum(fpu, false, a@[0], x0, b@[0], y0);
    lemma_sum(
        fpu,
        false,
        sum(fpu, a@[0], x0),
        product(fpu, su, u@[2]),
        sum(fpu, b@[0], y0),
        product(fpu, sv, v@[2]),
    );
    lemma_sum(fpu, true, a@[1], u@[1], b@[1], v@[1]);
    lemma_difference(fpu, false, a@[2], x1, b@[2], y1);
    lemma_sum(
        fpu,
        false,
        difference(fpu, a@[2], x1),
        product(fpu, cu, u@[2]),
        difference(fpu, b@[2], y1),
        product(fpu, cv, v@[2]),
    );
}

/// Mirrored points of feet that roll opposite ways are turned to mirrored points.
#[verifier::rlimit(60)]
proof fn lemma_turned_foot<F: Fn(Operation) -> u32>(fpu: F, pitch: u32, roll: u32, c: [u32; 3], d: [u32; 3])
    requires
        respects_signs(fpu),
        mirrored(c, d),
    ensures
        mirrored(
            turned_foot(fpu, attitude_of(fpu, pitch, roll), c),
            turned_foot(fpu, attitude_of(fpu, pitch, negated(roll)), d),
        ),
{
    lemma_angles(fpu, true, roll, negated(roll));
    let (at, to) = (attitude_of(fpu, pitch, roll), attitude_of(fpu, pitch, negated(roll)));
    lemma_sum_of_products(
        fpu,
        false,
        true,
        true,
        (at.cos_roll, c@[1], at.sin_roll, c@[2]),
        (to.cos_roll, d@[1], to.sin_roll, d@[2]),
    );
    lemma_sum_of_products(
        fpu,
        true,
        false,
        false,
        (at.sin_roll, c@[1], at.cos_roll, c@[2]),
        (to.sin_roll, d@[1], to.cos_roll, d@[2]),
    );
    let (z, w) = (
        sum_of_products(fpu, at.sin_roll, c@[1], at.cos_roll, c@[2]),
        sum_of_products(fpu, to.sin_roll, d@[1], to.cos_roll, d@[2]),
    );
    lemma_sum_of_products(
        fpu,
        false,
        false,
        false,
        (at.cos_pitch, c@[0], at.sin_pitch, z),
        (to.cos_pitch, d@[0], to.sin_pitch, w),
    );
    lemma_sum_of_products(
        fpu,
        false,
        false,
        false,
        (negated(at.sin_pitch), c@[0], at.cos_pitch, z),
        (negated(to.sin_pitch), d@[0], to.cos_pitch, w),
    );
}

/// Two linkages stand as mirror images.
pub open spec fn mirrored_poses(a: LinkPose, b: LinkPose) -> bool {
    &&& same(a.theta, b.theta)
    &&& mirrored(a.r_bar, b.r_bar)
    &&& mirrored(a.r_rod, b.r_rod)
    &&& mirrored(a.r_c, b.r_c)
}

#[verifier::rlimit(60)]
proof fn lemma_link_pose<F: Fn(Operation) -> u32>(
    fpu: F,
    l: LinkParamsAtom01,
    r: LinkParamsAtom01,
    pitch: u32,
    roll: u32,
)
    requires
        respects_signs(fpu),
        mirrored_links(l, r),
    ensures
        ({
            let c = turned_foot(fpu, attitude_of(fpu, pitch, roll), l.r_c_0);
            let d = turned_foot(fpu, attitude_of(fpu, pitch, negated(roll)), r.r_c_0);
            mirrored_poses(link_pose(fpu, l, c), link_pose(fpu, r, d))
        }),
{
    let c = turned_foot(fpu, attitude_of(fpu, pitch, roll), l.r_c_0);
    let d = turned_foot(fpu, attitude_of(fpu, pitch, negated(roll)), r.r_c_0);
    lemma_turned_foot(fpu, pitch, roll, l.r_c_0, r.r_c_0);
    lemma_motor_angle(fpu, l, r, c, d);
    let (s, t) = (motor_angle(fpu, l, c), motor_angle(fpu, r, d));
    lemma_turned_bar(fpu, l, r, s, t);
    lemma_apart(fpu, turned_bar(fpu, l, s), l.r_a_0, turned_bar(fpu, r, t), r.r_a_0);
    lemma_apart(fpu, c, turned_bar(fpu, l, s), d, turned_bar(fpu, r, t));
}

/// The right ankle at the opposite roll is the mirror image of the left one: its
/// motors stand at the same angles, and its bars, rods and pivots are mirrored.
/// This holds at every pose, with a unit that respects signs.
#[verifier::spinoff_prover]
#[verifier::rlimit(60)]
pub proof fn ankles_mirror_each_other<F: Fn(Operation) -> u32>(
    fpu: F,
    left: [LinkParamsAtom01; 2],
    right: [LinkParamsAtom01; 2],
    pitch: u32,
    roll: u32,
)
    requires
        respects_signs(fpu),
        are_links(left, true),
        are_links(right, false),
    ensures
        ({
            let l = linkage_pose(fpu, left, pitch, roll);
            let r = linkage_pose(fpu, right, pitch, negated(roll));
            forall|i: int|
                0 <= i < 2 ==> {
                    &&& same(#[trigger] l.theta@[i], r.theta@[i])
                    &&& mirrored(l.r_bar@[i], r.r_bar@[i])
                    &&& mirrored(l.r_rod@[i], r.r_rod@[i])
                    &&& mirrored(l.r_c@[i], r.r_c@[i])
                }
        }),
{
    lemma_link_pose(fpu, left@[0], right@[0], pitch, roll);
    lemma_link_pose(fpu, left@[1], right@[1], pitch, roll);
}

/// The two ankles are mirror images: their rods lie equally far from the middle,
/// on opposite sides.
pub proof fn sides_are_mirrored()
    ensures
        spacing(false) == negated(spacing(true)),
        scaled(spacing(false)) == -scaled(spacing(true)),
        scaled(spacing(true)) > 0,
{
    lemma_magnitude_order(0, SPACING_LEFT as int);
}

} // verus!
