//! How well a level separates intensities, in double-precision arithmetic.

use vstd::prelude::*;

use crate::rounding::{
    lemma_divides_spacing, lemma_nearest, lemma_nearest_between, lemma_rounded_multiple,
    lemma_rounded_scaled, lemma_spacing, lemma_spacing_divides, round_quotient, round_to, rounded,
    rounded_quotient, spacing, two_to, DOUBLE,
};

verus! {

/// What a mean intensity counts in one: two to the 76th, so fine that no mean of
/// a picture needs more.
pub const MEAN_UNIT: u128 = 75557863725914323419136;

/// The mean intensity of one side of a split.
pub open spec fn side_mean(sum: int, weight: int) -> int {
    rounded_quotient(sum * MEAN_UNIT, weight, DOUBLE as int)
}

/// The distance between the mean intensities of the two sides of a split.
pub open spec fn side_gap(dark: int, weight: int, bright: int, rest: int) -> int {
    let (a, b) = (side_mean(dark, weight), side_mean(bright, rest));
    rounded(
        if a >= b {
            a - b
        } else {
            b - a
        },
        DOUBLE as int,
    )
}

/// The variance between the two sides of a split, given the sums of their
/// intensities and their weights.
pub open spec fn between_variance(dark: int, weight: int, bright: int, rest: int) -> int {
    let gap = side_gap(dark, weight, bright, rest);
    rounded(weight * rest * rounded(gap * gap, DOUBLE as int), DOUBLE as int)
}

proof fn lemma_powers()
    ensures
        two_to(23) == 8388608,
        two_to(31) == 2147483648,
        two_to(48) == 281474976710656,
        two_to(51) == 2251799813685248,
        two_to(100) == 1267650600228229401496703205376,
{
    reveal_with_fuel(two_to, 53);
    assert(two_to(51) == 2251799813685248);
    assert(two_to(76) == MEAN_UNIT);
}

/// Whole intensities are multiples of every step that a mean is rounded to.
proof fn lemma_whole_step(n: int, k: int)
    requires
        0 <= n <= 255 * MEAN_UNIT,
        0 <= k,
    ensures
        1 <= spacing(n, DOUBLE as int),
        (k * MEAN_UNIT) % spacing(n, DOUBLE as int) == 0,
{
    lemma_powers();
    lemma_spacing_divides(n, DOUBLE as int, 31);
    let s = spacing(n, DOUBLE as int);
    let c = two_to(31) / s;
    vstd::arithmetic::div_mod::lemma_fundamental_div_mod(two_to(31), s);
    assert(k * MEAN_UNIT == (k * 35184372088832 * c) * s) by (nonlinear_arith)
        requires
            2147483648 == s * c,
            MEAN_UNIT == 35184372088832 * 2147483648,
    ;
    vstd::arithmetic::div_mod::lemma_mod_multiples_basic(k * 35184372088832 * c, s);
}

/// A mean lies between the whole intensities that its side lies between.
pub(crate) proof fn lemma_mean(sum: int, weight: int, low: int, high: int)
    requires
        1 <= weight,
        0 <= low <= high <= 255,
        low * weight <= sum <= high * weight,
    ensures
        low * MEAN_UNIT <= side_mean(sum, weight) <= high * MEAN_UNIT,
{
    let n = sum * MEAN_UNIT;
    assert(weight * (low * MEAN_UNIT) <= n && n <= weight * (high * MEAN_UNIT) && 0 <= n)
        by (nonlinear_arith)
        requires
            n == sum * MEAN_UNIT,
            low * weight <= sum <= high * weight,
            0 <= low,
            1 <= weight,
            0 <= MEAN_UNIT,
    ;
    let whole = n / weight;
    assert(0 <= whole <= high * MEAN_UNIT) by (nonlinear_arith)
        requires
            whole == n / weight,
            0 <= n <= weight * (high * MEAN_UNIT),
            1 <= weight,
    ;
    lemma_whole_step(whole, low);
    lemma_whole_step(whole, high);
    let step = spacing(whole, DOUBLE as int);
    lemma_nearest_between(n, weight, step, low * MEAN_UNIT);
    lemma_nearest_between(n, weight, step, high * MEAN_UNIT);
}

/// Who is divided by one number is divided by all that divide it.
proof fn lemma_divides(n: int, step: int, part: int)
    requires
        1 <= step,
        1 <= part,
        n % step == 0,
        step % part == 0,
    ensures
        n % part == 0,
{
    let (a, b) = (n / step, step / part);
    vstd::arithmetic::div_mod::lemma_fundamental_div_mod(n, step);
    vstd::arithmetic::div_mod::lemma_fundamental_div_mod(step, part);
    assert(n == (a * b) * part) by (nonlinear_arith)
        requires
            n == step * a,
            step == part * b,
    ;
    vstd::arithmetic::div_mod::lemma_mod_multiples_basic(a * b, part);
}

proof fn lemma_gap(diff: int)
    requires
        MEAN_UNIT <= diff <= 255 * MEAN_UNIT,
    ensures
        MEAN_UNIT <= rounded(diff, DOUBLE as int) <= 255 * MEAN_UNIT,
        rounded(diff, DOUBLE as int) % 16777216 == 0,
{
    let d = DOUBLE as int;
    lemma_powers();
    lemma_divides_spacing(diff, d, 23);
    lemma_rounded_multiple(diff, d);
    lemma_whole_step(diff, 1);
    lemma_whole_step(diff, 255);
    let step = spacing(diff, d);
    lemma_divides(rounded(diff, d), step, 16777216);
    lemma_nearest_between(diff, 1, step, MEAN_UNIT as int);
    lemma_nearest_between(diff, 1, step, 255 * MEAN_UNIT);
}

proof fn lemma_square(m: int)
    requires
        4503599627370496 <= m <= 255 * 4503599627370496,
    ensures
        0 <= m * m <= 65025 * (4503599627370496 * 4503599627370496),
        rounded(m * m, DOUBLE as int) % 4503599627370496 == 0,
        0 <= rounded(m * m, DOUBLE as int),
{
    let d = DOUBLE as int;
    assert(4503599627370496 * 4503599627370496 <= m * m <= 65025 * (4503599627370496
        * 4503599627370496)) by (nonlinear_arith)
        requires
            4503599627370496 <= m <= 255 * 4503599627370496,
    ;
    lemma_powers();
    lemma_divides_spacing(m * m, d, 51);
    lemma_rounded_multiple(m * m, d);
    lemma_spacing(m * m, d);
    lemma_nearest(m * m, 1, spacing(m * m, d));
    lemma_divides(rounded(m * m, d), spacing(m * m, d), 4503599627370496);
}

proof fn lemma_variance(gap: int, m: int, s: int, weights: int)
    requires
        gap == 16777216 * m,
        0 <= m,
        0 <= s,
        0 <= weights,
        rounded(m * m, DOUBLE as int) == 4503599627370496 * s,
    ensures
        rounded(weights * rounded(gap * gap, DOUBLE as int), DOUBLE as int) == two_to(100)
            * rounded(weights * s, DOUBLE as int),
{
    let d = DOUBLE as int;
    lemma_powers();
    assert(gap * gap == two_to(48) * (m * m) && 0 <= m * m) by (nonlinear_arith)
        requires
            gap == 16777216 * m,
            two_to(48) == 16777216 * 16777216,
            0 <= m,
    ;
    lemma_rounded_scaled(m * m, d, 48);
    assert(rounded(gap * gap, d) == two_to(100) * s);
    assert(weights * (two_to(100) * s) == two_to(100) * (weights * s) && 0 <= weights * s)
        by (nonlinear_arith)
        requires
            0 <= weights,
            0 <= s,
    ;
    lemma_rounded_scaled(weights * s, d, 100);
}

/// The variance between two sides, all of whose intensities are up to `level` and
/// above it, in units of two to the hundredth.
pub(crate) fn variance_of(
    dark: u128,
    weight: u128,
    bright: u128,
    rest: u128,
    Ghost(level): Ghost<int>,
) -> (variance: u128)
    requires
        1 <= weight <= 16777216,
        1 <= rest <= 16777216,
        0 <= level < 255,
        dark <= level * weight,
        (level + 1) * rest <= bright <= 255 * rest,
    ensures
        two_to(100) * variance == between_variance(
            dark as int,
            weight as int,
            bright as int,
            rest as int,
        ),
{
    let ghost d = DOUBLE as int;
    proof {
        assert(0 * weight <= dark);
        lemma_mean(dark as int, weight as int, 0, level);
        lemma_mean(bright as int, rest as int, level + 1, 255);
        assert(level * weight <= 255 * 16777216) by (nonlinear_arith)
            requires
                0 <= level < 255,
                1 <= weight <= 16777216,
        ;
        assert(level * MEAN_UNIT + MEAN_UNIT == (level + 1) * MEAN_UNIT) by (nonlinear_arith);
    }
    let a: u128 = round_quotient(dark * MEAN_UNIT, weight, DOUBLE);
    let b: u128 = round_quotient(bright * MEAN_UNIT, rest, DOUBLE);
    let gap: u128 = round_to(b - a, DOUBLE);
    proof {
        lemma_gap(b - a);
    }
    let m: u128 = gap / 16777216;
    proof {
        vstd::arithmetic::div_mod::lemma_fundamental_div_mod(gap as int, 16777216);
        lemma_square(m as int);
    }
    let square: u128 = round_to(m * m, DOUBLE);
    let s: u128 = square / 4503599627370496;
    proof {
        vstd::arithmetic::div_mod::lemma_fundamental_div_mod(square as int, 4503599627370496);
        assert(0 <= weight * rest <= 16777216 * 16777216) by (nonlinear_arith)
            requires
                1 <= weight <= 16777216,
                1 <= rest <= 16777216,
        ;
        assert(0 <= weight * rest * s <= 16777216 * 16777216 * (65026 * (2
            * 4503599627370496))) by (nonlinear_arith)
            requires
                0 <= weight * rest <= 16777216 * 16777216,
                0 <= s <= 65026 * (2 * 4503599627370496),
        ;
        lemma_variance(gap as int, m as int, s as int, weight * rest);
    }
    round_to(weight * rest * s, DOUBLE)
}

/// More units are more variance.
pub(crate) proof fn lemma_more_variance(a: int, b: int)
    ensures
        (two_to(100) * a > two_to(100) * b) == (a > b),
{
    lemma_powers();
}

} // verus!
