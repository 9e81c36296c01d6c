//! Arithmetic of single precision numbers, as a function that is handed in.
//!
//! This crate computes with real numbers but does not contain the arithmetic
//! itself: it asks a floating-point unit, a function from an [`Operation`] to the
//! pattern of its result. Everything that is computed is stated over [`value`],
//! what the unit gives for an operation, and holds for every unit that gives one
//! result per operation.
use crate::binary32::{at_most, below, finite, nan, negated, one, same, scaled, SIGN};
use vstd::arithmetic::power2::{lemma2_to64, lemma_pow2_adds, lemma_pow2_pos, pow2};
use vstd::prelude::*;

verus! {

/// The number 1.0.
pub const ONE: u32 = 0x3F80_0000;

/// The number -1.0.
pub const MINUS_ONE: u32 = 0xBF80_0000;

/// The number 0.5.
pub const HALF: u32 = 0x3F00_0000;

/// The number 2.0.
pub const TWO: u32 = 0x4000_0000;

/// An elementary operation. Operands and results are patterns (see
/// [`crate::binary32`]), but for the operand of `OfInteger` and the result of
/// `Whole`, which are integers.
#[derive(Debug, Clone, Copy, PartialEq, Eq)]
pub enum Operation {
    /// First operand plus the second.
    Sum(u32, u32),
    /// First operand minus the second.
    Difference(u32, u32),
    /// First operand times the second.
    Product(u32, u32),
    /// First operand divided by the second.
    Quotient(u32, u32),
    /// An integer as a number.
    OfInteger(u32),
    /// The whole part of a number; zero for a negative number or a NaN, the
    /// largest integer for a number beyond it.
    Whole(u32),
}

/// The unit takes every operation and gives it one result.
pub open spec fn defined<F: Fn(Operation) -> u32>(fpu: F) -> bool {
    &&& forall|op: Operation| #[trigger] call_requires(fpu, (op,))
    &&& forall|op: Operation, r: u32, s: u32| #[trigger]
        call_ensures(fpu, (op,), r) && #[trigger] call_ensures(fpu, (op,), s) ==> r == s
}

/// What the unit gives for an operation.
pub closed spec fn value<F: Fn(Operation) -> u32>(fpu: F, op: Operation) -> u32 {
    choose|r: u32| call_ensures(fpu, (op,), r)
}

/// `a + b`.
pub open spec fn sum<F: Fn(Operation) -> u32>(fpu: F, a: u32, b: u32) -> u32 {
    value(fpu, Operation::Sum(a, b))
}

/// `a - b`.
pub open spec fn difference<F: Fn(Operation) -> u32>(fpu: F, a: u32, b: u32) -> u32 {
    value(fpu, Operation::Difference(a, b))
}

/// `a * b`.
pub open spec fn product<F: Fn(Operation) -> u32>(fpu: F, a: u32, b: u32) -> u32 {
    value(fpu, Operation::Product(a, b))
}

/// `a / b`.
pub open spec fn quotient<F: Fn(Operation) -> u32>(fpu: F, a: u32, b: u32) -> u32 {
    value(fpu, Operation::Quotient(a, b))
}

/// The integer `n` as a number.
pub open spec fn of_integer<F: Fn(Operation) -> u32>(fpu: F, n: u32) -> u32 {
    value(fpu, Operation::OfInteger(n))
}

/// The whole part of `x`.
pub open spec fn whole<F: Fn(Operation) -> u32>(fpu: F, x: u32) -> u32 {
    value(fpu, Operation::Whole(x))
}

/// `a * b + c * d`.
pub open spec fn sum_of_products<F: Fn(Operation) -> u32>(
    fpu: F,
    a: u32,
    b: u32,
    c: u32,
    d: u32,
) -> u32 {
    sum(fpu, product(fpu, a, b), product(fpu, c, d))
}

/// `a * b - c * d`.
pub open spec fn difference_of_products<F: Fn(Operation) -> u32>(
    fpu: F,
    a: u32,
    b: u32,
    c: u32,
    d: u32,
) -> u32 {
    difference(fpu, product(fpu, a, b), product(fpu, c, d))
}

/// The products of the first `n` entries of `a` and `b`, added to zero one after
/// the other.
pub open spec fn inner_product<F: Fn(Operation) -> u32>(
    fpu: F,
    a: Seq<u32>,
    b: Seq<u32>,
    n: nat,
) -> u32
    decreases n,
{
    if n == 0 {
        0
    } else {
        sum(
            fpu,
            inner_product(fpu, a, b, (n - 1) as nat),
            product(fpu, a[n - 1], b[n - 1]),
        )
    }
}

/// Integers below this, 2^24, are single precision numbers.
pub const INTEGERS: u32 = 0x0100_0000;

/// Integers below this, 2^22, are such numbers with a half added as well.
pub const HALVES: u32 = 0x0040_0000;

/// The unit keeps order, as one that rounds to nearest does: sums, differences,
/// products and quotients grow with their operands, no result is rounded past
/// one that is exact, and small integers are exact.
#[verifier::opaque]
pub open spec fn keeps_order<F: Fn(Operation) -> u32>(fpu: F) -> bool {
    &&& forall|a: u32, b: u32, m: u32|
        at_most(a, b) && finite(a) && finite(b) && finite(m) ==> at_most(
            #[trigger] difference(fpu, a, m),
            #[trigger] difference(fpu, b, m),
        )
    &&& forall|m: u32| finite(m) ==> same(#[trigger] difference(fpu, m, m), 0)
    &&& forall|a: u32, b: u32|
        below(a, b) && finite(a) && finite(b) ==> below(0, #[trigger] difference(fpu, b, a))
    &&& forall|a: u32, b: u32, d: u32|
        at_most(a, b) && finite(a) && finite(b) && finite(d) && below(0, d) ==> at_most(
            #[trigger] quotient(fpu, a, d),
            #[trigger] quotient(fpu, b, d),
        )
    &&& forall|d: u32|
        finite(d) && below(0, d) ==> same(#[trigger] quotient(fpu, 0, d), 0) && same(
            quotient(fpu, d, d),
            ONE,
        )
    &&& forall|a: u32, b: u32, s: u32|
        at_most(a, b) && finite(a) && finite(b) && finite(s) && at_most(0, s) ==> at_most(
            #[trigger] product(fpu, a, s),
            #[trigger] product(fpu, b, s),
        )
    &&& forall|s: u32|
        finite(s) ==> same(#[trigger] product(fpu, 0, s), 0) && same(product(fpu, ONE, s), s)
    &&& forall|m: u32, a: u32, b: u32|
        at_most(a, b) && finite(a) && finite(b) && finite(m) ==> at_most(
            #[trigger] sum(fpu, m, a),
            #[trigger] sum(fpu, m, b),
        )
    &&& forall|m: u32, a: u32, b: u32|
        at_most(a, b) && finite(a) && finite(b) && finite(m) ==> at_most(
            #[trigger] sum(fpu, a, m),
            #[trigger] sum(fpu, b, m),
        )
    &&& forall|n: u32|
        n < INTEGERS ==> finite(#[trigger] of_integer(fpu, n)) && scaled(of_integer(fpu, n)) == n
            * one()
    &&& forall|m: u32, n: u32, x: u32|
        m + n < INTEGERS && !nan(x) && scaled(x) == n * one() ==> same(
            #[trigger] sum(fpu, of_integer(fpu, m), x),
            #[trigger] of_integer(fpu, (m + n) as u32),
        )
    &&& forall|n: u32, x: u32|
        n < HALVES && same(x, #[trigger] of_integer(fpu, n)) ==> whole(
            fpu,
            #[trigger] sum(fpu, x, HALF),
        ) == n
    &&& forall|a: u32, b: u32|
        at_most(a, b) ==> #[trigger] whole(fpu, a) <= #[trigger] whole(fpu, b)
}

/// `b` is the same number as `a`, or as `a` with its sign flipped.
pub open spec fn alike(flipped: bool, a: u32, b: u32) -> bool {
    same(
        if flipped {
            negated(a)
        } else {
            a
        },
        b,
    )
}

/// The unit respects signs, as every one does that follows IEEE 754: flipping the
/// signs of operands flips the sign of the result as in exact arithmetic, it makes
/// no difference which zero an operand is unless it is divided by, squares and
/// their sums have their sign bits clear, and a NaN stays one.
#[verifier::opaque]
pub open spec fn respects_signs<F: Fn(Operation) -> u32>(fpu: F) -> bool {
    &&& forall|f: bool, a: u32, b: u32, c: u32, d: u32|
        #[trigger] alike(f, a, c) && #[trigger] alike(f, b, d) ==> alike(
            f,
            #[trigger] sum(fpu, a, b),
            #[trigger] sum(fpu, c, d),
        )
    &&& forall|f: bool, a: u32, b: u32, c: u32, d: u32|
        #[trigger] alike(f, a, c) && #[trigger] alike(f, b, d) ==> alike(
            f,
            #[trigger] difference(fpu, a, b),
            #[trigger] difference(fpu, c, d),
        )
    &&& forall|f: bool, g: bool, a: u32, b: u32, c: u32, d: u32|
        #[trigger] alike(f, a, c) && #[trigger] alike(g, b, d) ==> alike(
            f != g,
            #[trigger] product(fpu, a, b),
            #[trigger] product(fpu, c, d),
        )
    &&& forall|f: bool, a: u32, c: u32, d: u32|
        #[trigger] alike(f, a, c) ==> alike(
            f,
            #[trigger] quotient(fpu, a, d),
            #[trigger] quotient(fpu, c, d),
        )
    &&& forall|a: u32, b: u32, c: u32|
        alike(true, a, c) ==> alike(
            true,
            #[trigger] difference(fpu, a, b),
            #[trigger] sum(fpu, c, b),
        )
    &&& forall|a: u32, b: u32, c: u32|
        alike(true, a, c) ==> alike(
            true,
            #[trigger] sum(fpu, a, b),
            #[trigger] difference(fpu, c, b),
        )
    &&& forall|a: u32| #[trigger] product(fpu, a, a) < SIGN || nan(product(fpu, a, a))
    &&& forall|a: u32, b: u32|
        a < SIGN && b < SIGN ==> #[trigger] sum(fpu, a, b) < SIGN || nan(sum(fpu, a, b))
    &&& forall|a: u32, b: u32| nan(a) || nan(b) ==> nan(#[trigger] sum(fpu, a, b))
    &&& forall|a: u32, b: u32| nan(a) || nan(b) ==> nan(#[trigger] product(fpu, a, b))
    &&& forall|a: u32, b: u32| nan(a) || nan(b) ==> nan(#[trigger] quotient(fpu, a, b))
}

/// The absolute value of an integer.
pub open spec fn size(n: int) -> int {
    if n < 0 {
        -n
    } else {
        n
    }
}

/// Results up to 2^64 are numbers on every unit that is accurate.
pub open spec fn reach() -> int {
    0x1_0000_0000_0000_0000 * one()
}

/// The unit is accurate, as one that rounds single precision to nearest is: within
/// its reach a result is finite and off by at most one part in 2^24, products and
/// quotients by one smallest step more. Adding zero and doubling are exact, and so
/// is a difference that is a number, a small integer, and a whole part. All of it
/// is counted in smallest positive steps (see [`scaled`]).
#[verifier::opaque]
pub open spec fn accurate<F: Fn(Operation) -> u32>(fpu: F) -> bool {
    &&& forall|a: u32, b: u32|
        finite(a) && finite(b) && size(scaled(a) + scaled(b)) <= reach() ==> finite(
            #[trigger] sum(fpu, a, b),
        ) && INTEGERS * size(scaled(sum(fpu, a, b)) - (scaled(a) + scaled(b))) <= size(
            scaled(a) + scaled(b),
        )
    &&& forall|a: u32, b: u32|
        finite(a) && finite(b) && size(scaled(a) - scaled(b)) <= reach() ==> finite(
            #[trigger] difference(fpu, a, b),
        ) && INTEGERS * size(scaled(difference(fpu, a, b)) - (scaled(a) - scaled(b))) <= size(
            scaled(a) - scaled(b),
        )
    &&& forall|a: u32, b: u32|
        finite(a) && finite(b) && size(scaled(a) * scaled(b)) <= reach() * one() ==> finite(
            #[trigger] product(fpu, a, b),
        ) && INTEGERS * size(scaled(product(fpu, a, b)) * one() - scaled(a) * scaled(b)) <= size(
            scaled(a) * scaled(b),
        ) + INTEGERS * one()
    &&& forall|a: u32, b: u32|
        finite(a) && finite(b) && scaled(b) != 0 && size(scaled(a) * one()) <= reach() * size(
            scaled(b),
        ) ==> finite(#[trigger] quotient(fpu, a, b)) && INTEGERS * size(
            scaled(quotient(fpu, a, b)) * scaled(b) - scaled(a) * one(),
        ) <= size(scaled(a) * one()) + INTEGERS * size(scaled(b))
    &&& forall|a: u32, b: u32|
        finite(a) && finite(b) && scaled(a) == 0 ==> scaled(#[trigger] sum(fpu, a, b)) == scaled(b)
    &&& forall|a: u32|
        finite(a) && size(2 * scaled(a)) <= reach() ==> finite(#[trigger] product(fpu, a, TWO))
            && scaled(product(fpu, a, TWO)) == 2 * scaled(a)
    &&& forall|a: u32, b: u32, c: u32|
        finite(a) && finite(b) && finite(c) && #[trigger] scaled(c) == scaled(a) - scaled(b)
            ==> scaled(#[trigger] difference(fpu, a, b)) == scaled(c)
    &&& forall|n: u32|
        n < INTEGERS ==> finite(#[trigger] of_integer(fpu, n)) && scaled(of_integer(fpu, n)) == n
            * one()
    &&& forall|x: u32|
        finite(x) && 0 <= scaled(x) < 0x1_0000_0000 * one() ==> #[trigger] whole(fpu, x) * one()
            <= scaled(x) < (whole(fpu, x) + 1) * one()
}

/// Has the unit perform an operation.
pub fn perform<F: Fn(Operation) -> u32>(fpu: &F, op: Operation) -> (r: u32)
    requires
        defined(*fpu),
    ensures
        r == value(*fpu, op),
        call_ensures(*fpu, (op,), r),
{
    fpu(op)
}

/// `a + b`.
pub fn plus<F: Fn(Operation) -> u32>(fpu: &F, a: u32, b: u32) -> (r: u32)
    requires
        defined(*fpu),
    ensures
        r == sum(*fpu, a, b),
{
    perform(fpu, Operation::Sum(a, b))
}

/// `a - b`.
pub fn minus<F: Fn(Operation) -> u32>(fpu: &F, a: u32, b: u32) -> (r: u32)
    requires
        defined(*fpu),
    ensures
        r == difference(*fpu, a, b),
{
    perform(fpu, Operation::Difference(a, b))
}

/// `a * b`.
pub fn times<F: Fn(Operation) -> u32>(fpu: &F, a: u32, b: u32) -> (r: u32)
    requires
        defined(*fpu),
    ensures
        r == product(*fpu, a, b),
{
    perform(fpu, Operation::Product(a, b))
}

/// `a / b`.
pub fn over<F: Fn(Operation) -> u32>(fpu: &F, a: u32, b: u32) -> (r: u32)
    requires
        defined(*fpu),
    ensures
        r == quotient(*fpu, a, b),
{
    perform(fpu, Operation::Quotient(a, b))
}

/// `a * b + c * d`.
pub fn plus_of_times<F: Fn(Operation) -> u32>(fpu: &F, a: u32, b: u32, c: u32, d: u32) -> (r: u32)
    requires
        defined(*fpu),
    ensures
        r == sum_of_products(*fpu, a, b, c, d),
{
    plus(fpu, times(fpu, a, b), times(fpu, c, d))
}

/// `a * b - c * d`.
pub fn minus_of_times<F: Fn(Operation) -> u32>(fpu: &F, a: u32, b: u32, c: u32, d: u32) -> (r: u32)
    requires
        defined(*fpu),
    ensures
        r == difference_of_products(*fpu, a, b, c, d),
{
    minus(fpu, times(fpu, a, b), times(fpu, c, d))
}

/// The products of the entries of `a` and `b`, added to zero one after the other.
pub fn inner<F: Fn(Operation) -> u32>(fpu: &F, a: &[u32], b: &[u32]) -> (r: u32)
    requires
        defined(*fpu),
        a@.len() == b@.len(),
    ensures
        r == inner_product(*fpu, a@, b@, a@.len()),
{
    let mut r: u32 = 0;
    let mut k: usize = 0;
    while k < a.len()
        invariant
            defined(*fpu),
            a@.len() == b@.len(),
            k <= a@.len(),
            r == inner_product(*fpu, a@, b@, k as nat),
        decreases a@.len() - k,
    {
        r = plus(fpu, r, times(fpu, a[k], b[k]));
        k += 1;
    }
    r
}

/// Sums of alike numbers are alike.
pub proof fn lemma_sum<F: Fn(Operation) -> u32>(fpu: F, f: bool, a: u32, b: u32, c: u32, d: u32)
    requires
        respects_signs(fpu),
        alike(f, a, c),
        alike(f, b, d),
    ensures
        alike(f, sum(fpu, a, b), sum(fpu, c, d)),
{
    reveal(respects_signs);
}

/// Differences of alike numbers are alike.
pub proof fn lemma_difference<F: Fn(Operation) -> u32>(fpu: F, f: bool, a: u32, b: u32, c: u32, d: u32)
    requires
        respects_signs(fpu),
        alike(f, a, c),
        alike(f, b, d),
    ensures
        alike(f, difference(fpu, a, b), difference(fpu, c, d)),
{
    reveal(respects_signs);
}

/// Products of alike numbers are alike, flipped if one factor is.
pub proof fn lemma_product<F: Fn(Operation) -> u32>(fpu: F, f: bool, g: bool, a: u32, b: u32, c: u32, d: u32)
    requires
        respects_signs(fpu),
        alike(f, a, c),
        alike(g, b, d),
    ensures
        alike(f != g, product(fpu, a, b), product(fpu, c, d)),
{
    reveal(respects_signs);
}

/// Quotients of alike numbers by one number, or by NaNs, are alike.
pub proof fn lemma_quotient<F: Fn(Operation) -> u32>(fpu: F, f: bool, a: u32, b: u32, c: u32, d: u32)
    requires
        respects_signs(fpu),
        alike(f, a, c),
        b == d || nan(b) && nan(d),
    ensures
        alike(f, quotient(fpu, a, b), quotient(fpu, c, d)),
{
    reveal(respects_signs);
}

/// Sums of products of alike numbers are alike.
pub proof fn lemma_sum_of_products<F: Fn(Operation) -> u32>(
    fpu: F,
    f: bool,
    g: bool,
    h: bool,
    x: (u32, u32, u32, u32),
    y: (u32, u32, u32, u32),
)
    requires
        respects_signs(fpu),
        alike(f, x.0, y.0),
        alike(f != h, x.1, y.1),
        alike(g, x.2, y.2),
        alike(g != h, x.3, y.3),
    ensures
        alike(
            h,
            sum_of_products(fpu, x.0, x.1, x.2, x.3),
            sum_of_products(fpu, y.0, y.1, y.2, y.3),
        ),
        alike(
            h,
            difference_of_products(fpu, x.0, x.1, x.2, x.3),
            difference_of_products(fpu, y.0, y.1, y.2, y.3),
        ),
{
    lemma_product(fpu, f, f != h, x.0, x.1, y.0, y.1);
    lemma_product(fpu, g, g != h, x.2, x.3, y.2, y.3);
    let (p, q) = (product(fpu, x.0, x.1), product(fpu, y.0, y.1));
    let (r, s) = (product(fpu, x.2, x.3), product(fpu, y.2, y.3));
    lemma_sum(fpu, h, p, r, q, s);
    lemma_difference(fpu, h, p, r, q, s);
}

/// A sum is off by one part in 2^24.
pub proof fn lemma_sum_error<F: Fn(Operation) -> u32>(fpu: F, a: u32, b: u32)
    requires
        accurate(fpu),
        finite(a),
        finite(b),
        size(scaled(a) + scaled(b)) <= reach(),
    ensures
        finite(sum(fpu, a, b)),
        INTEGERS * size(scaled(sum(fpu, a, b)) - (scaled(a) + scaled(b))) <= size(
            scaled(a) + scaled(b),
        ),
        scaled(a) == 0 ==> scaled(sum(fpu, a, b)) == scaled(b),
{
    reveal(accurate);
}

/// A difference is off by one part in 2^24.
pub proof fn lemma_difference_error<F: Fn(Operation) -> u32>(fpu: F, a: u32, b: u32)
    requires
        accurate(fpu),
        finite(a),
        finite(b),
        size(scaled(a) - scaled(b)) <= reach(),
    ensures
        finite(difference(fpu, a, b)),
        INTEGERS * size(scaled(difference(fpu, a, b)) - (scaled(a) - scaled(b))) <= size(
            scaled(a) - scaled(b),
        ),
{
    reveal(accurate);
}

/// A product is off by one part in 2^24 and one smallest step.
pub proof fn lemma_product_error<F: Fn(Operation) -> u32>(fpu: F, a: u32, b: u32)
    requires
        accurate(fpu),
        finite(a),
        finite(b),
        size(scaled(a) * scaled(b)) <= reach() * one(),
    ensures
        finite(product(fpu, a, b)),
        INTEGERS * size(scaled(product(fpu, a, b)) * one() - scaled(a) * scaled(b)) <= size(
            scaled(a) * scaled(b),
        ) + INTEGERS * one(),
{
    reveal(accurate);
}

/// Doubling is exact.
pub proof fn lemma_doubling<F: Fn(Operation) -> u32>(fpu: F, a: u32)
    requires
        accurate(fpu),
        finite(a),
        size(2 * scaled(a)) <= reach(),
    ensures
        finite(product(fpu, a, TWO)),
        scaled(product(fpu, a, TWO)) == 2 * scaled(a),
{
    reveal(accurate);
}

/// The product with a number that is a fraction `n / m`.
pub proof fn lemma_fraction_of<F: Fn(Operation) -> u32>(fpu: F, a: u32, b: u32, n: int, m: int)
    requires
        accurate(fpu),
        finite(a),
        finite(b),
        0 < n <= 0x1_0000,
        0 < m <= 0x1_0000,
        m * scaled(b) == n * one(),
        size(scaled(a)) <= 0x1_0000_0000 * one(),
    ensures
        finite(product(fpu, a, b)),
        INTEGERS * size(m * scaled(product(fpu, a, b)) - n * scaled(a)) <= n * size(scaled(a))
            + INTEGERS * m,
{
    let (x, y, k) = (scaled(a), scaled(b), one());
    let p = scaled(product(fpu, a, b));
    lemma_pow2_pos(149);
    assert(0 < y <= 0x1_0000 * k) by (nonlinear_arith)
        requires
            m * y == n * k,
            0 < n <= 0x1_0000,
            0 < m,
            0 < k,
    ;
    assert(size(x * y) == size(x) * y) by (nonlinear_arith)
        requires
            0 < y,
    ;
    assert(size(x) * y <= (0x1_0000_0000 * k) * (0x1_0000 * k)) by (nonlinear_arith)
        requires
            0 <= size(x) <= 0x1_0000_0000 * k,
            0 < y <= 0x1_0000 * k,
    ;
    assert((0x1_0000_0000 * k) * (0x1_0000 * k) <= (0x1_0000_0000_0000_0000 * k) * k)
        by (nonlinear_arith)
        requires
            0 < k,
    ;
    lemma_product_error(fpu, a, b);
    let e = p * k - x * y;
    assert(m * e == (m * p - n * x) * k) by (nonlinear_arith)
        requires
            e == p * k - x * y,
            m * y == n * k,
    ;
    assert(size(m * e) == m * size(e)) by (nonlinear_arith)
        requires
            0 < m,
    ;
    let f = m * p - n * x;
    assert(size(f * k) == size(f) * k) by (nonlinear_arith)
        requires
            0 < k,
    ;
    assert(m * (size(x) * y) == (n * size(x)) * k) by (nonlinear_arith)
        requires
            m * y == n * k,
    ;
    assert(m * (INTEGERS * size(e)) <= m * (size(x) * y + INTEGERS * k)) by (nonlinear_arith)
        requires
            INTEGERS * size(e) <= size(x) * y + INTEGERS * k,
            0 < m,
    ;
    assert(m * (INTEGERS * size(e)) == (INTEGERS * size(f)) * k) by (nonlinear_arith)
        requires
            m * size(e) == size(f) * k,
    ;
    assert(m * (size(x) * y + INTEGERS * k) == (n * size(x) + INTEGERS * m) * k)
        by (nonlinear_arith)
        requires
            m * (size(x) * y) == (n * size(x)) * k,
    ;
    assert(INTEGERS * size(f) <= n * size(x) + INTEGERS * m) by (nonlinear_arith)
        requires
            (INTEGERS * size(f)) * k <= (n * size(x) + INTEGERS * m) * k,
            0 < k,
    ;
}

/// The quotient by a number that is an integer `n`.
pub proof fn lemma_part_of<F: Fn(Operation) -> u32>(fpu: F, a: u32, b: u32, n: int)
    requires
        accurate(fpu),
        finite(a),
        finite(b),
        0 < n,
        scaled(b) == n * one(),
        size(scaled(a)) <= 0x1_0000_0000 * one(),
    ensures
        finite(quotient(fpu, a, b)),
        INTEGERS * size(n * scaled(quotient(fpu, a, b)) - scaled(a)) <= size(scaled(a)) + INTEGERS
            * n,
{
    reveal(accurate);
    let (x, y, k) = (scaled(a), scaled(b), one());
    let q = scaled(quotient(fpu, a, b));
    lemma_pow2_pos(149);
    assert(k <= y) by (nonlinear_arith)
        requires
            y == n * k,
            0 < n,
            0 < k,
    ;
    assert(size(x * k) == size(x) * k) by (nonlinear_arith)
        requires
            0 < k,
    ;
    assert(size(x) * k <= (0x1_0000_0000_0000_0000 * k) * y) by (nonlinear_arith)
        requires
            size(x) <= 0x1_0000_0000 * k,
            0 < k,
            k <= y,
    ;
    let f = n * q - x;
    assert(q * y - x * k == f * k) by (nonlinear_arith)
        requires
            y == n * k,
            f == n * q - x,
    ;
    assert(size(f * k) == size(f) * k) by (nonlinear_arith)
        requires
            0 < k,
    ;
    assert(INTEGERS * size(f) <= size(x) + INTEGERS * n) by (nonlinear_arith)
        requires
            INTEGERS * (size(f) * k) <= size(x) * k + INTEGERS * (n * k),
            0 < k,
    ;
}

/// Two factors at most as large as others have a product at most as large.
pub proof fn lemma_size_of_product(a: int, b: int, m: int, n: int)
    requires
        size(a) <= m,
        size(b) <= n,
    ensures
        size(a * b) == size(a) * size(b),
        size(a * b) <= m * n,
{
    assert(size(a * b) == size(a) * size(b)) by (nonlinear_arith);
    assert(size(a) * size(b) <= m * n) by (nonlinear_arith)
        requires
            0 <= size(a) <= m,
            0 <= size(b) <= n,
    ;
}

/// The number one is a large count of smallest steps: more than 2^64, and more than
/// the square of that.
pub proof fn lemma_one_is_large()
    ensures
        one() >= 0x1_0000_0000_0000_0000,
        one() >= 0x1_0000_0000_0000_0000 * 0x1_0000_0000_0000_0000,
{
    lemma2_to64();
    lemma_pow2_adds(64, 85);
    lemma_pow2_adds(64, 21);
    assert(pow2(149) == 0x1_0000_0000_0000_0000 * (0x1_0000_0000_0000_0000 * pow2(21)));
}

/// Sums and differences of two products that are at most 1.1.
pub proof fn lemma_products_error<F: Fn(Operation) -> u32>(fpu: F, a: u32, b: u32, c: u32, d: u32)
    requires
        accurate(fpu),
        finite(a) && finite(b) && finite(c) && finite(d),
        10 * size(scaled(a) * scaled(b)) <= 11 * (one() * one()),
        10 * size(scaled(c) * scaled(d)) <= 11 * (one() * one()),
    ensures
        ({
            let (p, q) = (scaled(a) * scaled(b), scaled(c) * scaled(d));
            let r = sum_of_products(fpu, a, b, c, d);
            let s = difference_of_products(fpu, a, b, c, d);
            &&& finite(r) && size(scaled(r)) <= 3 * one()
            &&& finite(s) && size(scaled(s)) <= 3 * one()
            &&& INTEGERS * size(scaled(r) * one() - (p + q)) <= 6 * (one() * one())
            &&& INTEGERS * size(scaled(s) * one() - (p - q)) <= 6 * (one() * one())
        }),
{
    let k = one();
    lemma_one_is_large();
    assert(2 * (k * k) <= reach() * k && INTEGERS * (0x1_0000_0000 * k) <= k * k) by (nonlinear_arith)
        requires
            k >= 0x1_0000_0000_0000_0000,
            reach() == 0x1_0000_0000_0000_0000 * k,
    ;
    lemma_product_error(fpu, a, b);
    lemma_product_error(fpu, c, d);
    let (x, y) = (scaled(product(fpu, a, b)), scaled(product(fpu, c, d)));
    let (p, q) = (scaled(a) * scaled(b), scaled(c) * scaled(d));
    assert(100 * size(x * k) <= 111 * (k * k) && 100 * size(y * k) <= 111 * (k * k));
    assert(100 * size(x) <= 111 * k && 100 * size(y) <= 111 * k) by (nonlinear_arith)
        requires
            100 * size(x * k) <= 111 * (k * k),
            100 * size(y * k) <= 111 * (k * k),
            k > 0,
    ;
    lemma_sum_error(fpu, product(fpu, a, b), product(fpu, c, d));
    lemma_difference_error(fpu, product(fpu, a, b), product(fpu, c, d));
    let r = scaled(sum_of_products(fpu, a, b, c, d));
    let s = scaled(difference_of_products(fpu, a, b, c, d));
    lemma_scaled_up(r - (x + y), 1, 3 * k);
    lemma_scaled_up(s - (x - y), 1, 3 * k);
    assert(r * k - (p + q) == (r - (x + y)) * k + (x * k - p) + (y * k - q)) by (nonlinear_arith);
    assert(s * k - (p - q) == (s - (x - y)) * k + (x * k - p) - (y * k - q)) by (nonlinear_arith);
    assert((3 * k) * k == 3 * (k * k)) by (nonlinear_arith);
}

/// An error counted in steps, counted in squares of steps.
pub proof fn lemma_scaled_up(e: int, n: int, m: int)
    requires
        INTEGERS * size(e) <= n * m,
    ensures
        INTEGERS * size(e * one()) <= n * (m * one()),
{
    let k = one();
    lemma_one_is_large();
    assert(size(e * k) == size(e) * k) by (nonlinear_arith)
        requires
            0 < k,
    ;
    assert(INTEGERS * (size(e) * k) <= n * (m * k)) by (nonlinear_arith)
        requires
            INTEGERS * size(e) <= n * m,
            0 < k,
    ;
}

/// A result that the unit may give for an operation is its value.
pub proof fn results_are_values<F: Fn(Operation) -> u32>(fpu: F, op: Operation, r: u32)
    requires
        defined(fpu),
        call_ensures(fpu, (op,), r),
    ensures
        r == value(fpu, op),
{
}

} // verus!
