//! Exact fractions for the slopes of the visibility scan.
//!
//! A slope is kept as a plain numerator and denominator. The arithmetic on
//! it is done by `num_rational::Ratio<i32>`; the functions here hand the
//! two numbers over and take the result back.

use num_rational::Rational32;
use vstd::arithmetic::div_mod::lemma_fundamental_div_mod_converse;
use vstd::prelude::*;

verus! {

/// A fraction `numer / denom`. It need not be in lowest terms.
#[derive(Debug, Clone, Copy, PartialEq, Eq, Structural)]
pub struct Slope {
    pub numer: i32,
    pub denom: i32,
}

/// The absolute value.
pub open spec fn magnitude(n: int) -> int {
    if n < 0 {
        -n
    } else {
        n
    }
}

impl Slope {
    /// Whether the denominator is positive and both numbers are small
    /// enough for sums and products of two such fractions to fit in `i32`.
    pub open spec fn bounded(self) -> bool {
        0 < self.denom <= 16384 && -16384 <= self.numer <= 16384
    }

    /// Whether the fraction has the value `numer / denom`, for a positive
    /// `denom`.
    pub open spec fn is_fraction(self, numer: int, denom: int) -> bool {
        self.denom > 0 && self.numer * denom == numer * self.denom
    }

    /// Whether neither number of the fraction is larger than the one of
    /// `numer / denom`.
    pub open spec fn no_larger(self, numer: int, denom: int) -> bool {
        self.denom <= denom && magnitude(self.numer as int) <= magnitude(numer)
    }
}

/// `Ratio::mul` on `Ratio<i32>`, the operands made by `Ratio::new`: the
/// product of the two fractions, in terms that are not larger than the
/// products of the numerators and of the denominators.
#[verifier::external_body]
fn ratio_mul(a: Slope, b: Slope) -> (product: Slope)
    requires
        a.bounded(),
        b.bounded(),
    ensures
        product.is_fraction(a.numer * b.numer, a.denom * b.denom),
        product.no_larger(a.numer * b.numer, a.denom * b.denom),
{
    let product = Rational32::new(a.numer, a.denom) * Rational32::new(b.numer, b.denom);
    Slope { numer: *product.numer(), denom: *product.denom() }
}

/// `Ratio::add` on `Ratio<i32>`, the operands made by `Ratio::new`: the
/// sum of the two fractions, in terms that are not larger than those of
/// the sum over the product of the denominators.
#[verifier::external_body]
fn ratio_add(a: Slope, b: Slope) -> (sum: Slope)
    requires
        a.bounded(),
        b.bounded(),
    ensures
        sum.is_fraction(a.numer * b.denom + b.numer * a.denom, a.denom * b.denom),
        sum.denom <= a.denom * b.denom,
        magnitude(sum.numer as int) <= magnitude(a.numer as int) * b.denom + magnitude(
            b.numer as int,
        ) * a.denom,
{
    let sum = Rational32::new(a.numer, a.denom) + Rational32::new(b.numer, b.denom);
    Slope { numer: *sum.numer(), denom: *sum.denom() }
}

/// `Ratio::sub` on `Ratio<i32>`, the operands made by `Ratio::new`: the
/// difference of the two fractions, in terms that are not larger than
/// those of the difference over the product of the denominators.
#[verifier::external_body]
fn ratio_sub(a: Slope, b: Slope) -> (difference: Slope)
    requires
        a.bounded(),
        b.bounded(),
    ensures
        difference.is_fraction(a.numer * b.denom - b.numer * a.denom, a.denom * b.denom),
        difference.denom <= a.denom * b.denom,
        magnitude(difference.numer as int) <= magnitude(a.numer as int) * b.denom + magnitude(
            b.numer as int,
        ) * a.denom,
{
    let difference = Rational32::new(a.numer, a.denom) - Rational32::new(b.numer, b.denom);
    Slope { numer: *difference.numer(), denom: *difference.denom() }
}

/// `Ratio::floor` on `Ratio<i32>`, read with `Ratio::to_integer`: the
/// greatest whole number that is not above the fraction.
#[verifier::external_body]
fn ratio_floor(a: Slope) -> (floor: i32)
    requires
        a.bounded(),
    ensures
        floor * a.denom <= a.numer < (floor + 1) * a.denom,
{
    Rational32::new(a.numer, a.denom).floor().to_integer()
}

/// `Ratio::ceil` on `Ratio<i32>`, read with `Ratio::to_integer`: the least
/// whole number that is not below the fraction.
#[verifier::external_body]
fn ratio_ceil(a: Slope) -> (ceil: i32)
    requires
        a.bounded(),
    ensures
        (ceil - 1) * a.denom < a.numer <= ceil * a.denom,
{
    Rational32::new(a.numer, a.denom).ceil().to_integer()
}

/// `<=` on `Ratio<i32>`: whether the first fraction is at most the second.
#[verifier::external_body]
fn ratio_le(a: Slope, b: Slope) -> (at_most: bool)
    requires
        a.bounded(),
        b.bounded(),
    ensures
        at_most == (a.numer * b.denom <= b.numer * a.denom),
{
    Rational32::new(a.numer, a.denom) <= Rational32::new(b.numer, b.denom)
}

/// `>=` on `Ratio<i32>`: whether the first fraction is at least the second.
#[verifier::external_body]
fn ratio_ge(a: Slope, b: Slope) -> (at_least: bool)
    requires
        a.bounded(),
        b.bounded(),
    ensures
        at_least == (a.numer * b.denom >= b.numer * a.denom),
{
    Rational32::new(a.numer, a.denom) >= Rational32::new(b.numer, b.denom)
}

/// The fraction rounded to the nearest whole number, a half rounded up.
pub open spec fn spec_round_ties_up(numer: int, denom: int) -> int {
    (2 * numer + denom) / (2 * denom)
}

/// The fraction rounded to the nearest whole number, a half rounded down.
pub open spec fn spec_round_ties_down(numer: int, denom: int) -> int {
    -((denom - 2 * numer) / (2 * denom))
}

/// Two fractions of one value have the same whole numbers below them.
proof fn lemma_floor_transfer(r: int, a1: int, b1: int, a2: int, b2: int)
    requires
        b1 > 0,
        b2 > 0,
        a1 * b2 == a2 * b1,
        r * b1 <= a1 < (r + 1) * b1,
    ensures
        r * b2 <= a2 < (r + 1) * b2,
{
    assert((r * b1) * b2 <= a1 * b2 < ((r + 1) * b1) * b2) by (nonlinear_arith)
        requires
            b2 > 0,
            r * b1 <= a1 < (r + 1) * b1,
    ;
    assert((r * b2) * b1 == (r * b1) * b2 && ((r + 1) * b2) * b1 == ((r + 1) * b1) * b2)
        by (nonlinear_arith);
    assert(r * b2 <= a2 < (r + 1) * b2) by (nonlinear_arith)
        requires
            b1 > 0,
            (r * b2) * b1 <= a2 * b1 < ((r + 1) * b2) * b1,
    ;
}

/// The whole number just below a fraction is the quotient of its terms.
proof fn lemma_floor_is_quotient(r: int, a: int, b: int)
    requires
        b > 0,
        r * b <= a < (r + 1) * b,
    ensures
        r == a / b,
{
    assert((r + 1) * b == r * b + b) by (nonlinear_arith);
    lemma_fundamental_div_mod_converse(a, b, r, a - r * b);
}

/// Two fractions of one value have the same whole numbers above them.
proof fn lemma_ceil_transfer(r: int, a1: int, b1: int, a2: int, b2: int)
    requires
        b1 > 0,
        b2 > 0,
        a1 * b2 == a2 * b1,
        (r - 1) * b1 < a1 <= r * b1,
    ensures
        (r - 1) * b2 < a2 <= r * b2,
{
    assert(((r - 1) * b1) * b2 < a1 * b2 <= (r * b1) * b2) by (nonlinear_arith)
        requires
            b2 > 0,
            (r - 1) * b1 < a1 <= r * b1,
    ;
    assert((r * b2) * b1 == (r * b1) * b2 && ((r - 1) * b2) * b1 == ((r - 1) * b1) * b2)
        by (nonlinear_arith);
    assert((r - 1) * b2 < a2 <= r * b2) by (nonlinear_arith)
        requires
            b1 > 0,
            ((r - 1) * b2) * b1 < a2 * b1 <= (r * b2) * b1,
    ;
}

/// Two fractions of one value compare alike with a whole number.
proof fn lemma_compare_transfer(x: int, a1: int, b1: int, a2: int, b2: int)
    requires
        b1 > 0,
        b2 > 0,
        a1 * b2 == a2 * b1,
    ensures
        (x * b1 <= a1) == (x * b2 <= a2),
        (x * b1 >= a1) == (x * b2 >= a2),
{
    assert((x * b1) * b2 == (x * b2) * b1) by (nonlinear_arith);
    assert((x * b1 <= a1) == ((x * b1) * b2 <= a1 * b2)) by (nonlinear_arith)
        requires
            b2 > 0,
    ;
    assert((x * b2 <= a2) == ((x * b2) * b1 <= a2 * b1)) by (nonlinear_arith)
        requires
            b1 > 0,
    ;
    assert((x * b1 >= a1) == ((x * b1) * b2 >= a1 * b2)) by (nonlinear_arith)
        requires
            b2 > 0,
    ;
    assert((x * b2 >= a2) == ((x * b2) * b1 >= a2 * b1)) by (nonlinear_arith)
        requires
            b1 > 0,
    ;
}

/// The product of a whole number and a slope, as the scan needs it.
pub fn times(depth: i32, slope: Slope) -> (product: Slope)
    requires
        -32 <= depth <= 32,
        0 < slope.denom <= 128,
        -128 <= slope.numer <= 128,
    ensures
        product.is_fraction(depth * slope.numer, slope.denom as int),
        0 < product.denom <= 128,
        -4096 <= product.numer <= 4096,
{
    let product = ratio_mul(Slope { numer: depth, denom: 1 }, slope);
    proof {
        assert(-4096 <= depth * slope.numer <= 4096) by (nonlinear_arith)
            requires
                -32 <= depth <= 32,
                -128 <= slope.numer <= 128,
        ;
    }
    product
}

/// Rounds a fraction to the nearest whole number, a half up.
pub fn round_ties_up(n: Slope) -> (rounded: i32)
    requires
        0 < n.denom <= 128,
        -4096 <= n.numer <= 4096,
    ensures
        rounded * (2 * n.denom) <= 2 * n.numer + n.denom < (rounded + 1) * (2 * n.denom),
        rounded == spec_round_ties_up(n.numer as int, n.denom as int),
{
    let half = Slope { numer: 1, denom: 2 };
    let sum = ratio_add(n, half);
    proof {
        assert(sum.denom <= 256 && magnitude(n.numer as int) * 2 + 1 * n.denom <= 8192 + 128);
    }
    let rounded = ratio_floor(sum);
    proof {
        let a = 2 * n.numer + n.denom;
        let b = 2 * n.denom;
        assert(n.numer * 2 + 1 * n.denom == a && n.denom * 2 == b);
        lemma_floor_transfer(rounded as int, sum.numer as int, sum.denom as int, a, b);
        lemma_floor_is_quotient(rounded as int, a, b);
    }
    rounded
}

/// Rounds a fraction to the nearest whole number, a half down.
pub fn round_ties_down(n: Slope) -> (rounded: i32)
    requires
        0 < n.denom <= 128,
        -4096 <= n.numer <= 4096,
    ensures
        (rounded - 1) * (2 * n.denom) < 2 * n.numer - n.denom <= rounded * (2 * n.denom),
        rounded == spec_round_ties_down(n.numer as int, n.denom as int),
{
    let half = Slope { numer: 1, denom: 2 };
    let difference = ratio_sub(n, half);
    proof {
        assert(difference.denom <= 256 && magnitude(n.numer as int) * 2 + 1 * n.denom <= 8192
            + 128);
    }
    let rounded = ratio_ceil(difference);
    proof {
        let a = 2 * n.numer - n.denom;
        let b = 2 * n.denom;
        assert(n.numer * 2 - 1 * n.denom == a && n.denom * 2 == b);
        lemma_ceil_transfer(rounded as int, difference.numer as int, difference.denom as int, a, b);
        assert((-rounded) * b == -(rounded * b) && (-rounded + 1) * b == -((rounded - 1) * b))
            by (nonlinear_arith);
        lemma_floor_is_quotient(-rounded as int, -a, b);
    }
    rounded
}

/// Whether the whole number `x` lies between the two fractions, the ends
/// counted in.
pub fn between(x: i32, low: Slope, high: Slope) -> (inside: bool)
    requires
        -64 <= x <= 64,
        0 < low.denom <= 128,
        -4096 <= low.numer <= 4096,
        0 < high.denom <= 128,
        -4096 <= high.numer <= 4096,
    ensures
        inside == (x * low.denom >= low.numer && x * high.denom <= high.numer),
{
    let whole = Slope { numer: x, denom: 1 };
    let above = ratio_ge(whole, low);
    let below = ratio_le(whole, high);
    proof {
        assert(x * low.denom == low.denom * x && x * high.denom == high.denom * x)
            by (nonlinear_arith);
    }
    above && below
}

/// Carries a comparison over from a fraction to another of the same value.
pub proof fn lemma_between_transfer(
    x: int,
    low: Slope,
    low_numer: int,
    low_denom: int,
    high: Slope,
    high_numer: int,
    high_denom: int,
)
    requires
        low_denom > 0,
        high_denom > 0,
        low.is_fraction(low_numer, low_denom),
        high.is_fraction(high_numer, high_denom),
    ensures
        (x * low.denom >= low.numer && x * high.denom <= high.numer) == (x * low_denom >= low_numer
            && x * high_denom <= high_numer),
{
    lemma_compare_transfer(x, low.numer as int, low.denom as int, low_numer, low_denom);
    lemma_compare_transfer(x, high.numer as int, high.denom as int, high_numer, high_denom);
}

/// Carries a rounding over from a fraction to another of the same value.
pub proof fn lemma_round_transfer(n: Slope, numer: int, denom: int)
    requires
        denom > 0,
        n.is_fraction(numer, denom),
    ensures
        spec_round_ties_up(n.numer as int, n.denom as int) == spec_round_ties_up(numer, denom),
        spec_round_ties_down(n.numer as int, n.denom as int) == spec_round_ties_down(numer, denom),
{
    let a1 = 2 * n.numer + n.denom;
    let b1 = 2 * n.denom;
    let a2 = 2 * numer + denom;
    let b2 = 2 * denom;
    let up = a1 / b1;
    assert(a1 * b2 == a2 * b1) by (nonlinear_arith)
        requires
            n.numer * denom == numer * n.denom,
            a1 == 2 * n.numer + n.denom,
            b1 == 2 * n.denom,
            a2 == 2 * numer + denom,
            b2 == 2 * denom,
    ;
    vstd::arithmetic::div_mod::lemma_fundamental_div_mod(a1, b1);
    vstd::arithmetic::div_mod::lemma_mod_bound(a1, b1);
    assert(up * b1 == b1 * up) by (nonlinear_arith);
    assert((up + 1) * b1 == up * b1 + b1) by (nonlinear_arith);
    lemma_floor_transfer(up, a1, b1, a2, b2);
    lemma_floor_is_quotient(up, a2, b2);
    let c1 = n.denom - 2 * n.numer;
    let c2 = denom - 2 * numer;
    let down = c1 / b1;
    assert(c1 * b2 == c2 * b1) by (nonlinear_arith)
        requires
            n.numer * denom == numer * n.denom,
            c1 == n.denom - 2 * n.numer,
            b1 == 2 * n.denom,
            c2 == denom - 2 * numer,
            b2 == 2 * denom,
    ;
    vstd::arithmetic::div_mod::lemma_fundamental_div_mod(c1, b1);
    vstd::arithmetic::div_mod::lemma_mod_bound(c1, b1);
    assert(down * b1 == b1 * down) by (nonlinear_arith);
    assert((down + 1) * b1 == down * b1 + b1) by (nonlinear_arith);
    lemma_floor_transfer(down, c1, b1, c2, b2);
    lemma_floor_is_quotient(down, c2, b2);
}

} // verus!
