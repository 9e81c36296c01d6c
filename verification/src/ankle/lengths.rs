//! Lengths in the ankle linkage.
use crate::ankle::accuracy::lemma_unit;
use crate::ankle::circle::sine_and_cosine_lie_on_the_unit_circle;
use crate::ankle::{
    apart, are_links, cosine, link_pose, motor_angle, sine, turned_bar, LinkParamsAtom01, Side, BAR,
    BAR_NEG, ROD_LONG, ROD_SHORT, SPACING_LEFT, SPACING_RIGHT,
};
use crate::arithmetic::{
    accurate, difference, lemma_difference_error, lemma_one_is_large, lemma_product_error,
    lemma_size_of_product, lemma_sum_error, product, reach, size, sum, Operation, INTEGERS,
};
use crate::binary32::{finite, one, scaled};
use vstd::arithmetic::power2::{lemma2_to64, lemma_pow2_adds, pow2};
use vstd::prelude::*;

verus! {

/// Lengths of the linkages, counted in smallest steps.
pub proof fn lemma_lengths()
    ensures
        finite(BAR) && scaled(BAR) == 20 * one(),
        finite(BAR_NEG) && scaled(BAR_NEG) == -20 * one(),
        finite(ROD_LONG) && scaled(ROD_LONG) == 180 * one(),
        finite(ROD_SHORT) && scaled(ROD_SHORT) == 110 * one(),
        finite(SPACING_LEFT) && size(scaled(SPACING_LEFT)) <= 43 * one(),
        finite(SPACING_RIGHT) && size(scaled(SPACING_RIGHT)) <= 43 * one(),
{
    lemma2_to64();
    lemma_pow2_adds(130, 19);
    lemma_pow2_adds(133, 16);
    lemma_pow2_adds(132, 17);
    lemma_pow2_adds(131, 18);
    assert(scaled(BAR) == 0xA0_0000 * pow2(130));
    assert(scaled(BAR_NEG) == -0xA0_0000 * pow2(130));
    assert(scaled(ROD_LONG) == 0xB4_0000 * pow2(133));
    assert(scaled(ROD_SHORT) == 0xDC_0000 * pow2(132));
    assert(scaled(SPACING_LEFT) == 0xA9_6666 * pow2(131));
    assert(scaled(SPACING_RIGHT) == -0xA9_6666 * pow2(131));
}

/// The product with the length of a bar.
proof fn lemma_bar_product<F: Fn(Operation) -> u32>(fpu: F, c: u32, b: u32, h: int)
    requires
        accurate(fpu),
        finite(c),
        100 * size(scaled(c)) <= 102 * one(),
        finite(b),
        scaled(b) == h * one(),
        h == 20 || h == -20 || h == 0,
    ensures
        ({
            let p = product(fpu, c, b);
            &&& finite(p)
            &&& size(scaled(p)) <= 21 * one()
            &&& INTEGERS * size(scaled(p) - h * scaled(c)) <= 21 * one()
            &&& h == 0 ==> size(scaled(p)) <= 1
        }),
{
    let (k, x, y) = (one(), scaled(c), scaled(b));
    lemma_one_is_large();
    assert(x * y == (h * x) * k) by (nonlinear_arith)
        requires
            y == h * k,
    ;
    let z = h * x;
    assert(z == 20 * x || z == -20 * x || z == 0) by (nonlinear_arith)
        requires
            z == h * x,
            h == 20 || h == -20 || h == 0,
    ;
    assert(10 * size(z) <= 204 * k);
    assert(size(z * k) == size(z) * k && size(z) * k <= 21 * (k * k) && 21 * (k * k) <= reach() * k)
        by (nonlinear_arith)
        requires
            0 < k,
            10 * size(z) <= 204 * k,
            reach() == 0x1_0000_0000_0000_0000 * k,
    ;
    lemma_product_error(fpu, c, b);
    let p = scaled(product(fpu, c, b));
    let e = p - z;
    assert(e * k == p * k - z * k) by (nonlinear_arith)
        requires
            e == p - z,
    ;
    assert(size(e * k) == size(e) * k) by (nonlinear_arith)
        requires
            0 < k,
    ;
    assert(INTEGERS * size(e) <= size(z) + INTEGERS) by (nonlinear_arith)
        requires
            INTEGERS * (size(e) * k) <= size(z) * k + INTEGERS * k,
            0 < k,
    ;
}

/// The forward coordinate of a bar: `p`, and `n` which is next to nothing.
proof fn lemma_forward<F: Fn(Operation) -> u32>(fpu: F, a: u32, p: u32, n: u32)
    requires
        accurate(fpu),
        finite(a) && finite(p) && finite(n),
        scaled(a) == 0,
        size(scaled(p)) <= 21 * one(),
        size(scaled(n)) <= 1,
    ensures
        ({
            let s = sum(fpu, sum(fpu, a, p), n);
            let r = difference(fpu, s, a);
            &&& finite(s) && INTEGERS * size(scaled(s) - scaled(p)) <= 22 * one()
            &&& finite(r) && INTEGERS * size(scaled(r) - scaled(p)) <= 44 * one()
        }),
{
    lemma_one_is_large();
    lemma_sum_error(fpu, a, p);
    let s = sum(fpu, sum(fpu, a, p), n);
    lemma_sum_error(fpu, sum(fpu, a, p), n);
    assert(size(scaled(s)) <= 22 * one() && INTEGERS * size(scaled(s) - scaled(p)) <= 22 * one());
    lemma_difference_error(fpu, s, a);
}

/// The sideways coordinate of a bar.
proof fn lemma_sideways<F: Fn(Operation) -> u32>(fpu: F, a: u32, z: u32)
    requires
        accurate(fpu),
        finite(a) && finite(z),
        size(scaled(a)) <= 43 * one(),
        scaled(z) == 0,
    ensures
        ({
            let s = sum(fpu, a, z);
            let r = difference(fpu, s, a);
            &&& finite(s) && INTEGERS * size(scaled(s) - scaled(a)) <= 44 * one()
            &&& finite(r) && INTEGERS * size(scaled(r)) <= 65 * one()
        }),
{
    lemma_one_is_large();
    lemma_sum_error(fpu, a, z);
    lemma_difference_error(fpu, sum(fpu, a, z), a);
}

/// The upward coordinate of a bar: `-p`, and `n` which is next to nothing.
proof fn lemma_upward<F: Fn(Operation) -> u32>(fpu: F, a: u32, p: u32, n: u32)
    requires
        accurate(fpu),
        finite(a) && finite(p) && finite(n),
        size(scaled(a)) <= 180 * one(),
        size(scaled(p)) <= 21 * one(),
        size(scaled(n)) <= 1,
    ensures
        ({
            let s = sum(fpu, difference(fpu, a, p), n);
            let r = difference(fpu, s, a);
            &&& finite(s) && INTEGERS * size(scaled(s) - (scaled(a) - scaled(p))) <= 405 * one()
            &&& finite(r) && INTEGERS * size(scaled(r) + scaled(p)) <= 428 * one()
        }),
{
    lemma_one_is_large();
    let d = difference(fpu, a, p);
    lemma_difference_error(fpu, a, p);
    assert(INTEGERS * size(scaled(d) - (scaled(a) - scaled(p))) <= 201 * one() && size(scaled(d)) <= 202
        * one());
    let s = sum(fpu, d, n);
    lemma_sum_error(fpu, d, n);
    assert(INTEGERS * size(scaled(s) - scaled(d)) <= 203 * one());
    assert(size(scaled(s) - scaled(a)) <= 22 * one());
    lemma_difference_error(fpu, s, a);
}

/// The bar of a linkage that is turned by an angle.
pub proof fn lemma_bar<F: Fn(Operation) -> u32>(fpu: F, link: LinkParamsAtom01, theta: u32, h: int)
    requires
        accurate(fpu),
        h == 20 || h == -20,
        finite(link.r_a_0@[0]) && finite(link.r_a_0@[1]) && finite(link.r_a_0@[2]),
        scaled(link.r_a_0@[0]) == 0,
        size(scaled(link.r_a_0@[1])) <= 43 * one(),
        size(scaled(link.r_a_0@[2])) <= 180 * one(),
        finite(link.r_b_0@[0]),
        scaled(link.r_b_0@[0]) == h * one(),
        link.r_b_0@[1] == link.r_a_0@[1],
        link.r_b_0@[2] == link.r_a_0@[2],
        finite(sine(fpu, theta)) && finite(cosine(fpu, theta)),
        100 * size(scaled(sine(fpu, theta))) <= 102 * one(),
        100 * size(scaled(cosine(fpu, theta))) <= 102 * one(),
    ensures
        ({
            let b = turned_bar(fpu, link, theta);
            let r = apart(fpu, b, link.r_a_0);
            &&& finite(b@[0]) && finite(b@[1]) && finite(b@[2])
            &&& INTEGERS * size(scaled(b@[0]) - h * scaled(cosine(fpu, theta))) <= 45 * one()
            &&& INTEGERS * size(scaled(b@[1]) - scaled(link.r_a_0@[1])) <= 44 * one()
            &&& INTEGERS * size(
                scaled(b@[2]) - (scaled(link.r_a_0@[2]) - h * scaled(sine(fpu, theta))),
            ) <= 430 * one()
            &&& finite(r@[0]) && finite(r@[1]) && finite(r@[2])
            &&& INTEGERS * size(scaled(r@[0]) - h * scaled(cosine(fpu, theta))) <= 65 * one()
            &&& INTEGERS * size(scaled(r@[1])) <= 65 * one()
            &&& INTEGERS * size(scaled(r@[2]) + h * scaled(sine(fpu, theta))) <= 450 * one()
        }),
{
    let k = one();
    lemma_one_is_large();
    let (a, b) = (link.r_a_0, link.r_b_0);
    let bar = apart(fpu, b, a);
    let (cos, sin) = (cosine(fpu, theta), sine(fpu, theta));
    assert(finite(bar@[0]) && scaled(bar@[0]) == h * k) by {
        lemma_difference_error(fpu, b@[0], a@[0]);
        reveal(accurate);
        assert(scaled(b@[0]) == scaled(b@[0]) - scaled(a@[0]));
    }
    lemma_difference_error(fpu, b@[1], a@[1]);
    lemma_difference_error(fpu, b@[2], a@[2]);
    assert(scaled(bar@[1]) == 0 && scaled(bar@[2]) == 0);
    lemma_bar_product(fpu, cos, bar@[0], h);
    lemma_bar_product(fpu, sin, bar@[0], h);
    lemma_bar_product(fpu, cos, bar@[2], 0);
    lemma_bar_product(fpu, sin, bar@[2], 0);
    lemma_forward(fpu, a@[0], product(fpu, cos, bar@[0]), product(fpu, sin, bar@[2]));
    lemma_sideways(fpu, a@[1], bar@[1]);
    lemma_upward(fpu, a@[2], product(fpu, sin, bar@[0]), product(fpu, cos, bar@[2]));
}

/// A coordinate near a share of a length of 20.
proof fn lemma_coordinate(r: int, c: int, h: int, k: int)
    requires
        0 < k,
        h == 20 || h == -20,
        100 * size(c) <= 102 * k,
        INTEGERS * size(r - h * c) <= 450 * k,
    ensures
        INTEGERS * size(r * r - 400 * (c * c)) <= 20000 * (k * k),
{
    let z = h * c;
    let (f, g) = (r - z, r + z);
    assert(z * z == 400 * (c * c)) by (nonlinear_arith)
        requires
            z == h * c,
            h == 20 || h == -20,
    ;
    assert(r * r - z * z == f * g) by (nonlinear_arith)
        requires
            f == r - z,
            g == r + z,
    ;
    assert(z == 20 * c || z == -20 * c) by (nonlinear_arith)
        requires
            z == h * c,
            h == 20 || h == -20,
    ;
    assert(10 * size(z) <= 204 * k);
    lemma_size_of_product(INTEGERS * f, g, 450 * k, 42 * k);
    assert((INTEGERS * f) * g == INTEGERS * (f * g)) by (nonlinear_arith);
    assert((450 * k) * (42 * k) == 18900 * (k * k)) by (nonlinear_arith);
    assert(0 < k * k) by (nonlinear_arith)
        requires
            0 < k,
    ;
}

/// The bars keep their length of 20 millimetres, within a thousandth: its square is 400
/// within 1/25, whenever the motor's angle is at most 1.32 radians.
pub proof fn bars_keep_their_length<F: Fn(Operation) -> u32>(
    fpu: F,
    links: [LinkParamsAtom01; 2],
    side: Side,
    i: int,
    c: [u32; 3],
)
    requires
        accurate(fpu),
        are_links(links, side),
        0 <= i < 2,
        finite(motor_angle(fpu, links@[i], c)),
        100 * size(scaled(motor_angle(fpu, links@[i], c))) <= 132 * one(),
    ensures
        ({
            let r = link_pose(fpu, links@[i], c).r_bar;
            let (x, y, z) = (scaled(r@[0]), scaled(r@[1]), scaled(r@[2]));
            25 * size(x * x + y * y + z * z - 400 * (one() * one())) <= one() * one()
        }),
{
    let k = one();
    let link = links@[i];
    let theta = motor_angle(fpu, link, c);
    let h: int = if i == 0 {
        -20
    } else {
        20
    };
    lemma_one_is_large();
    lemma_lengths();
    lemma_unit();
    sine_and_cosine_lie_on_the_unit_circle(fpu, theta);
    lemma_bar(fpu, link, theta, h);
    let r = link_pose(fpu, link, c).r_bar;
    let (x, y, z) = (scaled(r@[0]), scaled(r@[1]), scaled(r@[2]));
    let (cos, sin) = (scaled(cosine(fpu, theta)), scaled(sine(fpu, theta)));
    lemma_coordinate(x, cos, h, k);
    assert(z - (-h) * sin == z + h * sin) by (nonlinear_arith);
    lemma_coordinate(z, sin, -h, k);
    lemma_size_of_product(INTEGERS * y, INTEGERS * y, 65 * k, 65 * k);
    assert((INTEGERS * y) * (INTEGERS * y) == INTEGERS * (INTEGERS * (y * y))) by (nonlinear_arith);
    assert((65 * k) * (65 * k) == 4225 * (k * k)) by (nonlinear_arith);
    assert(0 < k * k && 0 <= y * y) by (nonlinear_arith)
        requires
            0 < k,
    ;
}

} // verus!
