//! How well Otsu's level separates dark from bright.

use vstd::prelude::*;

use crate::image::{
    best_split, lemma_best_split_range, mass, otsu_level_is_best, otsu_split, split_variance,
    splits, tally,
};
use crate::otsu::{between_variance, side_gap, side_mean, MEAN_UNIT};
use crate::preflight_laws::apart;
use crate::rounding::{
    lemma_spacing, lemma_spacing_divides, lemma_spacing_range, rounded, spacing, two_to, DOUBLE,
};
use crate::rounding_laws::{quotients_round_to_nearest, rounding_is_to_nearest};

verus! {

/// How many of the first `n` values are at most `level`.
pub open spec fn dark_count(values: Seq<u8>, level: int, n: int) -> int
    decreases n,
{
    if n <= 0 {
        0
    } else if values[n - 1] <= level {
        dark_count(values, level, n - 1) + 1
    } else {
        dark_count(values, level, n - 1)
    }
}

/// The sum of those of the first `n` values that are at most `level`.
pub open spec fn dark_sum(values: Seq<u8>, level: int, n: int) -> int
    decreases n,
{
    if n <= 0 {
        0
    } else if values[n - 1] <= level {
        dark_sum(values, level, n - 1) + values[n - 1]
    } else {
        dark_sum(values, level, n - 1)
    }
}

/// The sum of those of the first `n` values that are above `level`.
pub open spec fn bright_sum(values: Seq<u8>, level: int, n: int) -> int
    decreases n,
{
    if n <= 0 {
        0
    } else if values[n - 1] > level {
        bright_sum(values, level, n - 1) + values[n - 1]
    } else {
        bright_sum(values, level, n - 1)
    }
}

/// The product of the weights of the two sides of a split.
pub open spec fn weight_product(values: Seq<u8>, level: int) -> int {
    let n = values.len() as int;
    dark_count(values, level, n) * (n - dark_count(values, level, n))
}

/// The distance between the means of the two sides of a split, times the product
/// of their weights.
pub open spec fn weighted_gap(values: Seq<u8>, level: int) -> int {
    let n = values.len() as int;
    bright_sum(values, level, n) * dark_count(values, level, n) - dark_sum(values, level, n) * (n
        - dark_count(values, level, n))
}

proof fn lemma_sides(values: Seq<u8>, level: int, n: int)
    requires
        0 <= n <= values.len(),
        0 <= level <= 255,
    ensures
        dark_count(values, level, n) == tally(values, 0, level, n),
        dark_sum(values, level, n) == mass(values, level, n),
        bright_sum(values, level, n) == mass(values, 255, n) - mass(values, level, n),
        0 <= dark_count(values, level, n) <= n,
        0 <= dark_sum(values, level, n) <= level * dark_count(values, level, n),
        (level + 1) * (n - dark_count(values, level, n)) <= bright_sum(values, level, n) <= 255 * (n
            - dark_count(values, level, n)),
    decreases n,
{
    if n > 0 {
        lemma_sides(values, level, n - 1);
        let c = dark_count(values, level, n - 1);
        let r = n - 1 - c;
        assert(level * (c + 1) == level * c + level) by (nonlinear_arith);
        assert((level + 1) * (r + 1) == (level + 1) * r + (level + 1)) by (nonlinear_arith);
    } else {
        assert(level * 0 == 0 && (level + 1) * 0 == 0);
    }
}

proof fn lemma_step_bound(n: int)
    requires
        0 <= n <= 255 * MEAN_UNIT,
    ensures
        1 <= spacing(n, DOUBLE as int) <= 2_147_483_648,
{
    assert(two_to(31) == 2_147_483_648) by {
        reveal_with_fuel(two_to, 32);
    }
    lemma_spacing(n, DOUBLE as int);
    lemma_spacing_divides(n, DOUBLE as int, 31);
    let s = spacing(n, DOUBLE as int);
    vstd::arithmetic::div_mod::lemma_fundamental_div_mod(two_to(31), s);
    assert(s <= 2_147_483_648) by (nonlinear_arith)
        requires
            2_147_483_648 == s * (two_to(31) / s),
            s >= 1,
    ;
}

proof fn lemma_mean_error(sum: int, weight: int)
    requires
        1 <= weight,
        0 <= sum <= 255 * weight,
    ensures
        apart(side_mean(sum, weight) * weight, sum * MEAN_UNIT) <= weight * 1_073_741_824,
{
    let n = sum * MEAN_UNIT;
    assert(0 <= n && 0 <= n / weight <= 255 * MEAN_UNIT) by (nonlinear_arith)
        requires
            n == sum * MEAN_UNIT,
            0 <= sum <= 255 * weight,
            1 <= weight,
    ;
    quotients_round_to_nearest(n, weight, DOUBLE as int);
    lemma_step_bound(n / weight);
    let s = spacing(n / weight, DOUBLE as int);
    assert(weight * s <= weight * 2_147_483_648) by (nonlinear_arith)
        requires
            s <= 2_147_483_648,
            1 <= weight,
    ;
}

proof fn lemma_relative_error(n: int)
    requires
        0 <= n,
    ensures
        9_007_199_254_740_992 * apart(rounded(n, DOUBLE as int), n) <= n,
        0 <= rounded(n, DOUBLE as int),
{
    let d = DOUBLE as int;
    rounding_is_to_nearest(n, d);
    lemma_spacing(n, d);
    lemma_spacing_range(n, d);
    crate::rounding::lemma_nearest(n, 1, spacing(n, d));
}

/// The distance of the means, held against the exact one.
proof fn lemma_gap_error(dark: int, weight: int, bright: int, rest: int, level: int)
    requires
        1 <= weight,
        1 <= rest,
        0 <= level < 255,
        0 <= dark <= level * weight,
        (level + 1) * rest <= bright <= 255 * rest,
    ensures
        ({
            let x = MEAN_UNIT * (bright * weight - dark * rest);
            let y = (weight * rest) * side_gap(dark, weight, bright, rest);
            &&& 17_592_186_044_416 * apart(y, x) <= x
            &&& 0 <= y
            &&& MEAN_UNIT <= x
        }),
{
    let (a, b) = (side_mean(dark, weight), side_mean(bright, rest));
    let u = MEAN_UNIT as int;
    let w = weight * rest;
    let x = u * (bright * weight - dark * rest);
    assert(dark <= 255 * weight) by (nonlinear_arith)
        requires
            dark <= level * weight,
            level < 255,
            1 <= weight,
    ;
    lemma_mean_error(dark, weight);
    assert(0 <= bright) by (nonlinear_arith)
        requires
            (level + 1) * rest <= bright,
            0 <= level,
            1 <= rest,
    ;
    lemma_mean_error(bright, rest);
    let e = a * weight - dark * u;
    let f = b * rest - bright * u;
    let (rb, bu, aw, du) = (b * rest, bright * u, a * weight, dark * u);
    assert(weight * f == weight * rb - weight * bu) by (nonlinear_arith)
        requires
            f == rb - bu,
    ;
    assert(rest * e == rest * aw - rest * du) by (nonlinear_arith)
        requires
            e == aw - du,
    ;
    assert(w * (b - a) == weight * rb - rest * aw) by (nonlinear_arith)
        requires
            w == weight * rest,
            rb == b * rest,
            aw == a * weight,
    ;
    assert(x == weight * bu - rest * du) by (nonlinear_arith)
        requires
            x == u * (bright * weight - dark * rest),
            bu == bright * u,
            du == dark * u,
    ;
    assert(w * (b - a) - x == weight * f - rest * e);
    assert(-(w * 1_073_741_824) <= weight * f <= w * 1_073_741_824 && -(w * 1_073_741_824) <= rest
        * e <= w * 1_073_741_824) by (nonlinear_arith)
        requires
            w == weight * rest,
            -(rest * 1_073_741_824) <= f <= rest * 1_073_741_824,
            -(weight * 1_073_741_824) <= e <= weight * 1_073_741_824,
            1 <= weight,
            1 <= rest,
    ;
    assert(w >= 1) by (nonlinear_arith)
        requires
            w == weight * rest,
            1 <= weight,
            1 <= rest,
    ;
    assert(bright * weight - dark * rest >= w) by (nonlinear_arith)
        requires
            w == weight * rest,
            dark <= level * weight,
            (level + 1) * rest <= bright,
            1 <= weight,
            1 <= rest,
            0 <= level,
    ;
    assert(x >= u * w && x >= u) by (nonlinear_arith)
        requires
            x == u * (bright * weight - dark * rest),
            bright * weight - dark * rest >= w,
            w >= 1,
            u >= 0,
    ;
    let diff = b - a;
    assert(w * diff >= u * w - w * 2_147_483_648);
    assert(diff >= 1) by (nonlinear_arith)
        requires
            w * diff >= u * w - w * 2_147_483_648,
            w >= 1,
            u == 75_557_863_725_914_323_419_136,
    ;
    lemma_means_within(dark, weight, bright, rest, level);
    lemma_step_bound(diff);
    rounding_is_to_nearest(diff, DOUBLE as int);
    let gap = side_gap(dark, weight, bright, rest);
    assert(gap == rounded(diff, DOUBLE as int));
    let y = w * gap;
    assert(-(w * 1_073_741_824) <= y - w * diff <= w * 1_073_741_824) by (nonlinear_arith)
        requires
            y == w * gap,
            -1_073_741_824 <= gap - diff <= 1_073_741_824,
            w >= 1,
    ;
    assert(apart(y, x) <= w * 4_294_967_296);
    assert(17_592_186_044_416 * (w * 4_294_967_296) == u * w) by (nonlinear_arith)
        requires
            u == 17_592_186_044_416 * 4_294_967_296,
    ;
    crate::rounding::lemma_nearest(diff, 1, spacing(diff, DOUBLE as int));
    assert(0 <= y) by (nonlinear_arith)
        requires
            y == w * gap,
            gap >= 0,
            w >= 1,
    ;
}

proof fn lemma_means_within(dark: int, weight: int, bright: int, rest: int, level: int)
    requires
        1 <= weight,
        1 <= rest,
        0 <= level < 255,
        0 <= dark <= level * weight,
        (level + 1) * rest <= bright <= 255 * rest,
    ensures
        0 <= side_mean(dark, weight),
        side_mean(bright, rest) <= 255 * MEAN_UNIT,
{
    assert(0 * weight <= dark);
    crate::otsu::lemma_mean(dark, weight, 0, level);
    crate::otsu::lemma_mean(bright, rest, level + 1, 255);
}

/// The variance between the sides, held against the exact one.
proof fn lemma_variance_error(dark: int, weight: int, bright: int, rest: int, level: int)
    requires
        1 <= weight,
        1 <= rest,
        0 <= level < 255,
        0 <= dark <= level * weight,
        (level + 1) * rest <= bright <= 255 * rest,
    ensures
        ({
            let x = MEAN_UNIT * (bright * weight - dark * rest);
            let v = (weight * rest) * between_variance(dark, weight, bright, rest);
            4_398_046_511_104 * apart(v, x * x) <= x * x
        }),
{
    let w = weight * rest;
    let x = MEAN_UNIT * (bright * weight - dark * rest);
    let gap = side_gap(dark, weight, bright, rest);
    let y = w * gap;
    lemma_gap_error(dark, weight, bright, rest, level);
    let z = apart(y, x);
    let (p, r, aa, bb) = (z * x, z * z, x * x, y * y);
    assert(17_592_186_044_416 * p <= aa && 17_592_186_044_416 * r <= p && 0 <= r && 0 <= p)
        by (nonlinear_arith)
        requires
            p == z * x,
            r == z * z,
            aa == x * x,
            17_592_186_044_416 * z <= x,
            0 <= z,
            0 <= x,
    ;
    assert(y == x + z || y == x - z);
    assert(y == x + z ==> bb == aa + 2 * p + r) by (nonlinear_arith)
        requires
            p == z * x,
            r == z * z,
            aa == x * x,
            bb == y * y,
    ;
    assert(y == x - z ==> bb == aa - 2 * p + r) by (nonlinear_arith)
        requires
            p == z * x,
            r == z * z,
            aa == x * x,
            bb == y * y,
    ;
    let g = gap * gap;
    assert(0 <= g) by (nonlinear_arith)
        requires
            g == gap * gap,
    ;
    lemma_relative_error(g);
    let h = rounded(g, DOUBLE as int);
    let ww = w * w;
    let cc = ww * h;
    assert(bb == ww * g) by (nonlinear_arith)
        requires
            bb == y * y,
            y == w * gap,
            ww == w * w,
            g == gap * gap,
    ;
    assert(9_007_199_254_740_992 * apart(cc, bb) <= bb) by {
        let t = h - g;
        assert(cc - bb == ww * t) by (nonlinear_arith)
            requires
                cc == ww * h,
                bb == ww * g,
                t == h - g,
        ;
        assert(0 <= ww) by (nonlinear_arith)
            requires
                ww == w * w,
        ;
        assert(-(ww * g) <= 9_007_199_254_740_992 * (ww * t) <= ww * g) by (nonlinear_arith)
            requires
                -g <= 9_007_199_254_740_992 * t <= g,
                0 <= ww,
        ;
    }
    assert(w >= 1) by (nonlinear_arith)
        requires
            w == weight * rest,
            1 <= weight,
            1 <= rest,
    ;
    let inner = weight * rest * h;
    assert(0 <= inner) by (nonlinear_arith)
        requires
            inner == weight * rest * h,
            0 <= h,
            1 <= weight,
            1 <= rest,
    ;
    lemma_relative_error(inner);
    let v0 = rounded(inner, DOUBLE as int);
    assert(v0 == between_variance(dark, weight, bright, rest));
    let ee = w * v0;
    assert(w * inner == cc) by (nonlinear_arith)
        requires
            inner == weight * rest * h,
            w == weight * rest,
            cc == ww * h,
            ww == w * w,
    ;
    assert(9_007_199_254_740_992 * apart(ee, cc) <= cc) by {
        let t = v0 - inner;
        assert(ee - cc == w * t) by (nonlinear_arith)
            requires
                ee == w * v0,
                cc == w * inner,
                t == v0 - inner,
        ;
        assert(-(w * inner) <= 9_007_199_254_740_992 * (w * t) <= w * inner) by (nonlinear_arith)
            requires
                -inner <= 9_007_199_254_740_992 * t <= inner,
                1 <= w,
        ;
    }
}

/// Otsu's level separates the intensities at least as well as any other level: the
/// variance between the dark and the bright side, the product of their weights
/// times the square of the distance of their means over the square of all, is not
/// smaller, but for rounding by one part in two to the 41st.
pub proof fn otsu_levels_separate_best(values: Seq<u8>, level: int)
    requires
        1 <= values.len() <= 16_777_216,
        0 <= level < 256,
        0 < dark_count(values, level, values.len() as int) < values.len(),
    ensures
        ({
            let chosen = otsu_split(values);
            &&& 0 <= chosen < 255
            &&& 0 < dark_count(values, chosen, values.len() as int) < values.len()
            &&& 4_398_046_511_103 * (weighted_gap(values, level) * weighted_gap(values, level)
                * weight_product(values, chosen)) <= 4_398_046_511_105 * (weighted_gap(
                values,
                chosen,
            ) * weighted_gap(values, chosen) * weight_product(values, level))
        }),
{
    let n = values.len() as int;
    lemma_sides(values, level, n);
    otsu_level_is_best(values, level, 256);
    let chosen = otsu_split(values);
    lemma_sides(values, chosen, n);
    lemma_whole(values, n);
    assert(chosen < 255);
    assert(level < 255);
    let (w1, w2) = (weight_product(values, level), weight_product(values, chosen));
    let (d1, d2) = (weighted_gap(values, level), weighted_gap(values, chosen));
    let (k1, k2) = (dark_count(values, level, n), dark_count(values, chosen, n));
    lemma_variance_error(
        dark_sum(values, level, n),
        k1,
        bright_sum(values, level, n),
        n - k1,
        level,
    );
    lemma_variance_error(
        dark_sum(values, chosen, n),
        k2,
        bright_sum(values, chosen, n),
        n - k2,
        chosen,
    );
    let (v1, v2) = (split_variance(values, level), split_variance(values, chosen));
    assert(v1 <= v2);
    let u = MEAN_UNIT as int;
    let (x1, x2) = (u * d1, u * d2);
    assert(w1 >= 1 && w2 >= 1) by (nonlinear_arith)
        requires
            w1 == k1 * (n - k1),
            w2 == k2 * (n - k2),
            0 < k1 < n,
            0 < k2 < n,
    ;
    let (a1, a2) = (x1 * x1, x2 * x2);
    assert(4_398_046_511_103 * a1 <= 4_398_046_511_104 * (w1 * v1));
    assert(4_398_046_511_104 * (w2 * v2) <= 4_398_046_511_105 * a2);
    assert(4_398_046_511_103 * (a1 * w2) <= 4_398_046_511_105 * (a2 * w1)) by (nonlinear_arith)
        requires
            4_398_046_511_103 * a1 <= 4_398_046_511_104 * (w1 * v1),
            4_398_046_511_104 * (w2 * v2) <= 4_398_046_511_105 * a2,
            v1 <= v2,
            w1 >= 1,
            w2 >= 1,
    ;
    let (s1, s2) = (d1 * d1 * w2, d2 * d2 * w1);
    assert(a1 * w2 == (u * u) * s1 && a2 * w1 == (u * u) * s2) by (nonlinear_arith)
        requires
            a1 == x1 * x1,
            a2 == x2 * x2,
            x1 == u * d1,
            x2 == u * d2,
            s1 == d1 * d1 * w2,
            s2 == d2 * d2 * w1,
    ;
    let uu = u * u;
    assert(uu >= 1) by (nonlinear_arith)
        requires
            uu == u * u,
            u == 75_557_863_725_914_323_419_136,
    ;
    assert(4_398_046_511_103 * s1 <= 4_398_046_511_105 * s2) by (nonlinear_arith)
        requires
            4_398_046_511_103 * (uu * s1) <= 4_398_046_511_105 * (uu * s2),
            uu >= 1,
    ;
}

proof fn lemma_whole(values: Seq<u8>, n: int)
    requires
        0 <= n <= values.len(),
    ensures
        dark_count(values, 255, n) == n,
    decreases n,
{
    if n > 0 {
        lemma_whole(values, n - 1);
    }
}

/// Where all intensities are equal, Otsu's level is the middle one, 127.
pub proof fn uniform_pictures_have_the_middle_level(values: Seq<u8>, value: u8)
    requires
        values.len() >= 1,
        forall|i: int| 0 <= i < values.len() ==> #[trigger] values[i] == value,
    ensures
        otsu_split(values) == 127,
{
    lemma_no_split(values, value, 256);
}

proof fn lemma_no_split(values: Seq<u8>, value: u8, n: int)
    requires
        0 <= n <= 256,
        values.len() >= 1,
        forall|i: int| 0 <= i < values.len() ==> #[trigger] values[i] == value,
    ensures
        best_split(values, n) is None,
    decreases n,
{
    if n > 0 {
        lemma_no_split(values, value, n - 1);
        lemma_uniform_tally(values, value, n - 1, values.len() as int);
    }
}

proof fn lemma_uniform_tally(values: Seq<u8>, value: u8, level: int, n: int)
    requires
        0 <= n <= values.len(),
        0 <= level,
        forall|i: int| 0 <= i < values.len() ==> #[trigger] values[i] == value,
    ensures
        tally(values, 0, level, n) == (if value <= level {
            n
        } else {
            0
        }),
    decreases n,
{
    if n > 0 {
        lemma_uniform_tally(values, value, level, n - 1);
    }
}

proof fn lemma_first_best(values: Seq<u8>, level: int, n: int)
    requires
        0 <= level < n <= 256,
        best_split(values, n) is Some,
        level < best_split(values, n)->Some_0,
        splits(values, level),
    ensures
        split_variance(values, level) < split_variance(values, best_split(values, n)->Some_0),
    decreases n,
{
    let chosen = best_split(values, n)->Some_0;
    lemma_best_split_range(values, n);
    if level < n - 1 {
        if chosen == n - 1 {
            lemma_some_split(values, level, n - 1);
            let before = best_split(values, n - 1)->Some_0;
            lemma_best_split_range(values, n - 1);
            if level < before {
                lemma_first_best(values, level, n - 1);
            } else {
                lemma_not_better(values, level, n - 1);
            }
        } else {
            lemma_first_best(values, level, n - 1);
        }
    }
}

proof fn lemma_some_split(values: Seq<u8>, level: int, n: int)
    requires
        0 <= level < n <= 256,
        splits(values, level),
    ensures
        best_split(values, n) is Some,
    decreases n,
{
    if level < n - 1 {
        lemma_some_split(values, level, n - 1);
    }
}

proof fn lemma_not_better(values: Seq<u8>, level: int, n: int)
    requires
        0 <= level < n <= 256,
        splits(values, level),
    ensures
        best_split(values, n) is Some,
        split_variance(values, level) <= split_variance(values, best_split(values, n)->Some_0),
    decreases n,
{
    if level < n - 1 {
        lemma_not_better(values, level, n - 1);
    }
}

proof fn lemma_same_side(values: Seq<u8>, level: int, n: int)
    requires
        0 <= n <= values.len(),
        1 <= level,
        forall|i: int| 0 <= i < values.len() ==> #[trigger] values[i] != level,
    ensures
        tally(values, 0, level, n) == tally(values, 0, level - 1, n),
        mass(values, level, n) == mass(values, level - 1, n),
    decreases n,
{
    if n > 0 {
        lemma_same_side(values, level, n - 1);
        assert(values[n - 1] != level);
    }
}

/// Of levels that separate the intensities alike the lowest is chosen, so that some
/// pixel has the intensity of the level.
pub proof fn otsu_levels_occur(values: Seq<u8>, level: int)
    requires
        1 <= values.len() <= 16_777_216,
        0 <= level < 256,
        0 < dark_count(values, level, values.len() as int) < values.len(),
    ensures
        exists|i: int| 0 <= i < values.len() && #[trigger] values[i] == otsu_split(values),
{
    let n = values.len() as int;
    let chosen = otsu_split(values);
    lemma_sides(values, level, n);
    lemma_some_split(values, level, 256);
    lemma_best_split_range(values, 256);
    if forall|i: int| 0 <= i < values.len() ==> #[trigger] values[i] != chosen {
        if chosen == 0 {
            lemma_no_zero(values, n);
        } else {
            lemma_same_side(values, chosen, n);
            assert(splits(values, chosen - 1));
            lemma_first_best(values, chosen - 1, 256);
        }
    }
}

proof fn lemma_no_zero(values: Seq<u8>, n: int)
    requires
        0 <= n <= values.len(),
        forall|i: int| 0 <= i < values.len() ==> #[trigger] values[i] != 0,
    ensures
        tally(values, 0, 0, n) == 0,
    decreases n,
{
    if n > 0 {
        lemma_no_zero(values, n - 1);
        assert(values[n - 1] != 0);
    }
}

} // verus!
