//! What speaks for a reading, and how grids are held against each other.

use vstd::prelude::*;

use crate::codewords::FULL_RELIABILITY;
use crate::formats::{
    all_hypotheses, by_fit, fits_better, format_distance, format_distances, function_error,
    function_weight, grid_hypotheses, hypotheses, level_at, ranked_formats, supposed,
    with_hypothesis, Hypothesis,
};
use crate::function_pattern::{function_map, function_matrix};
use crate::grids::{
    dark_votes, detected_version, is_grid, module_weight, share, version_offset, vote_confidence,
    vote_lead, voted_grid, votes, GridModel, SHARE_UNIT,
};
use crate::layout::{symbol_side, valid_version, EcLevel};
use crate::options::{payload_points, regex_accepts, regex_rejection, RecoveryOptions};
use crate::order::sorted_indices_in_order;
use crate::phrases::stands_at;
use crate::preflight_laws::apart;
use crate::reading::{
    agreement, attempt_limit, deformed_components, deformed_reading, matched_confidence,
    plain_components, share_points, total_confidence, Variant, LEAST_AGREEMENT,
};
use crate::recovery_result::{component_total, is_deformed, total_score, Component, POINT};
use crate::rounding::{
    lemma_exact, lemma_nearest, lemma_nearest_between, lemma_rounded_monotone, lemma_rounded_scaled,
    lemma_signed_monotone, lemma_spacing_divides, nearest, rounded, rounded_quotient,
    rounded_signed, spacing, two_to, DOUBLE, SINGLE,
};
use crate::rounding_laws::{quotients_round_to_nearest, rounded_quotients_keep_order};
use crate::search_laws::sorting_keeps_all;

verus! {

proof fn lemma_full_power()
    ensures
        two_to(30) == FULL_RELIABILITY,
        two_to(20) == 1_048_576,
{
    reveal_with_fuel(two_to, 31);
}

proof fn lemma_whole_sums(k: int)
    requires
        0 <= k < 16_777_216,
    ensures
        rounded(FULL_RELIABILITY * k, SINGLE as int) == FULL_RELIABILITY * k,
{
    lemma_full_power();
    lemma_rounded_scaled(k, SINGLE as int, 30);
    assert(spacing(k, SINGLE as int) == 1);
    assert(nearest(k, 1, 1) == k);
}

/// How many of the first `n` modules a symbol shows as a grid does.
pub open spec fn matches(matrix: Seq<u8>, modules: Seq<u8>, n: int) -> int
    decreases n,
{
    if n <= 0 {
        0
    } else {
        matches(matrix, modules, n - 1) + (if matrix[n - 1] == modules[n - 1] {
            1int
        } else {
            0
        })
    }
}

/// Whether all modules of a grid are fully certain.
pub open spec fn is_certain(grid: GridModel) -> bool {
    forall|i: int|
        0 <= i < grid.confidence.len() ==> #[trigger] grid.confidence[i] == FULL_RELIABILITY
}

proof fn lemma_certain_sums(matrix: Seq<u8>, grid: GridModel, n: int)
    requires
        is_certain(grid),
        0 <= n <= grid.confidence.len(),
        n < 16_777_216,
    ensures
        0 <= matches(matrix, grid.modules, n) <= n,
        matched_confidence(matrix, grid, n) == FULL_RELIABILITY * matches(matrix, grid.modules, n),
        total_confidence(grid, n) == FULL_RELIABILITY * n,
    decreases n,
{
    if n > 0 {
        lemma_certain_sums(matrix, grid, n - 1);
        lemma_whole_sums(n);
        lemma_whole_sums(matches(matrix, grid.modules, n));
        assert(grid.confidence[n - 1] == FULL_RELIABILITY);
    }
}

proof fn lemma_share_of_counts(c: int, n: int, parts: int)
    requires
        0 <= c <= n,
        1 <= n < 16_777_216,
        0 <= parts <= 1024,
    ensures
        1024 * c <= parts * n ==> share(FULL_RELIABILITY * c, FULL_RELIABILITY * n) <= parts
            * 17_179_869_184,
        1024 * c >= parts * n ==> share(FULL_RELIABILITY * c, FULL_RELIABILITY * n) >= parts
            * 17_179_869_184,
{
    let part = FULL_RELIABILITY * c * SHARE_UNIT;
    let d = FULL_RELIABILITY * n;
    let single = SINGLE as int;
    let bound = parts * 17_179_869_184;
    lemma_full_power();
    let quotient = part / d;
    assert(part <= d * SHARE_UNIT && 0 <= part) by (nonlinear_arith)
        requires
            part == FULL_RELIABILITY * c * SHARE_UNIT,
            d == FULL_RELIABILITY * n,
            0 <= c <= n,
    ;
    vstd::arithmetic::div_mod::lemma_fundamental_div_mod(part, d);
    vstd::arithmetic::div_mod::lemma_mod_bound(part, d);
    assert(0 <= quotient <= SHARE_UNIT) by (nonlinear_arith)
        requires
            part == d * quotient + part % d,
            0 <= part % d < d,
            0 <= part <= d * SHARE_UNIT,
            d >= 1,
    ;
    assert(two_to(21) == 2 * two_to(20));
    lemma_spacing_divides(quotient, single, 21);
    let s = spacing(quotient, single);
    vstd::arithmetic::div_mod::lemma_fundamental_div_mod(two_to(21), s);
    let m = two_to(21) / s;
    assert(bound == s * (parts * 8192 * m)) by (nonlinear_arith)
        requires
            bound == parts * 17_179_869_184,
            2_097_152 == s * m,
    ;
    assert(bound == (parts * 8192 * m) * s) by (nonlinear_arith)
        requires
            bound == s * (parts * 8192 * m),
    ;
    vstd::arithmetic::div_mod::lemma_mod_multiples_basic(parts * 8192 * m, s);
    lemma_nearest_between(part, d, s, bound);
    assert(1024 * c <= parts * n ==> part <= d * bound) by (nonlinear_arith)
        requires
            part == FULL_RELIABILITY * c * SHARE_UNIT,
            d == FULL_RELIABILITY * n,
            bound == parts * 17_179_869_184,
            SHARE_UNIT == 1024 * 17_179_869_184,
            FULL_RELIABILITY == 1_073_741_824,
    ;
    assert(1024 * c >= parts * n ==> part >= d * bound) by (nonlinear_arith)
        requires
            part == FULL_RELIABILITY * c * SHARE_UNIT,
            d == FULL_RELIABILITY * n,
            bound == parts * 17_179_869_184,
            SHARE_UNIT == 1024 * 17_179_869_184,
            FULL_RELIABILITY == 1_073_741_824,
    ;
}

/// Where all modules are certain, a symbol agrees with an image if at least
/// eighty-two in a hundred modules match, up to rounding: less than 819 in a
/// thousand is not enough, and 821 are.
pub proof fn eighty_two_percent_must_match(matrix: Seq<u8>, grid: GridModel)
    requires
        is_grid(grid),
        is_certain(grid),
    ensures
        ({
            let n = grid.modules.len() as int;
            let c = matches(matrix, grid.modules, n);
            &&& agreement(matrix, grid) >= LEAST_AGREEMENT ==> 1000 * c > 819 * n
            &&& 1000 * c >= 821 * n ==> agreement(matrix, grid) >= LEAST_AGREEMENT
        }),
{
    let n = grid.modules.len() as int;
    let side = symbol_side(grid.version);
    assert(441 <= side * side <= 31_329) by (nonlinear_arith)
        requires
            21 <= side <= 177,
    ;
    lemma_certain_sums(matrix, grid, n);
    let c = matches(matrix, grid.modules, n);
    lemma_share_of_counts(c, n, 839);
    lemma_share_of_counts(c, n, 840);
}

proof fn lemma_matched_order(a: Seq<u8>, b: Seq<u8>, grid: GridModel, n: int)
    requires
        0 <= n,
        forall|i: int|
            0 <= i < n && b[i] == grid.modules[i] ==> #[trigger] a[i] == grid.modules[i],
    ensures
        0 <= matched_confidence(b, grid, n) <= matched_confidence(a, grid, n)
            <= total_confidence(grid, n),
    decreases n,
{
    let single = SINGLE as int;
    if n > 0 {
        lemma_matched_order(a, b, grid, n - 1);
        assert(b[n - 1] == grid.modules[n - 1] ==> a[n - 1] == grid.modules[n - 1]);
        let c = grid.confidence[n - 1] as int;
        let x = if b[n - 1] == grid.modules[n - 1] {
            c
        } else {
            0
        };
        let y = if a[n - 1] == grid.modules[n - 1] {
            c
        } else {
            0
        };
        lemma_rounded_monotone(
            matched_confidence(b, grid, n - 1) + x,
            matched_confidence(a, grid, n - 1) + y,
            single,
        );
        lemma_rounded_monotone(
            matched_confidence(a, grid, n - 1) + y,
            total_confidence(grid, n - 1) + c,
            single,
        );
        lemma_rounded_monotone(0, matched_confidence(b, grid, n - 1) + x, single);
        assert(spacing(0, single) == 1);
    }
}

proof fn lemma_share_order(a: int, b: int, whole: int)
    requires
        0 <= a <= b,
    ensures
        share(a, whole) <= share(b, whole),
{
    let d = if whole < FULL_RELIABILITY {
        FULL_RELIABILITY as int
    } else {
        whole
    };
    assert(0 <= a * SHARE_UNIT <= b * SHARE_UNIT) by (nonlinear_arith)
        requires
            0 <= a <= b,
    ;
    rounded_quotients_keep_order(a * SHARE_UNIT, b * SHARE_UNIT, d, SINGLE as int);
}

/// A symbol that matches a grid wherever another one does agrees with it no less.
pub proof fn better_matches_agree_no_less(a: Seq<u8>, b: Seq<u8>, grid: GridModel)
    requires
        forall|i: int|
            0 <= i < grid.modules.len() && b[i] == grid.modules[i] ==> #[trigger] a[i]
                == grid.modules[i],
    ensures
        agreement(b, grid) <= agreement(a, grid),
{
    let n = grid.modules.len() as int;
    lemma_matched_order(a, b, grid, n);
    lemma_share_order(
        matched_confidence(b, grid, n),
        matched_confidence(a, grid, n),
        total_confidence(grid, n),
    );
}

/// How many of the first `n` modules are function modules.
pub open spec fn function_modules_among(version: int, n: int) -> int
    decreases n,
{
    if n <= 0 {
        0
    } else {
        function_modules_among(version, n - 1) + (if function_map(version)[n - 1] {
            1int
        } else {
            0
        })
    }
}

/// How many of the first `n` modules are function modules that are not what a
/// symbol of the given format has there.
pub open spec fn wrong_functions(grid: GridModel, level: EcLevel, mask: int, n: int) -> int
    decreases n,
{
    if n <= 0 {
        0
    } else {
        wrong_functions(grid, level, mask, n - 1) + (if function_map(grid.version)[n - 1]
            && grid.modules[n - 1] != function_matrix(grid.version, level, mask)[n - 1] {
            1int
        } else {
            0
        })
    }
}

proof fn lemma_certain_functions(grid: GridModel, level: EcLevel, mask: int, n: int)
    requires
        is_certain(grid),
        0 <= n <= grid.confidence.len(),
        n < 16_777_216,
    ensures
        0 <= wrong_functions(grid, level, mask, n) <= function_modules_among(grid.version, n) <= n,
        function_error(grid, level, mask, n) == FULL_RELIABILITY * wrong_functions(
            grid,
            level,
            mask,
            n,
        ),
        function_weight(grid, n) == FULL_RELIABILITY * function_modules_among(grid.version, n),
    decreases n,
{
    if n > 0 {
        lemma_certain_functions(grid, level, mask, n - 1);
        lemma_whole_sums(wrong_functions(grid, level, mask, n));
        lemma_whole_sums(function_modules_among(grid.version, n));
        assert(grid.confidence[n - 1] == FULL_RELIABILITY);
        assert(module_weight(FULL_RELIABILITY) == FULL_RELIABILITY);
    }
}

/// Where all modules are certain, the error of a hypothesis is the share of the
/// function modules that are wrong, to within a thousandth.
pub proof fn errors_are_shares_of_wrong_functions(
    grid: GridModel,
    place: int,
    f: int,
    distance: int,
    parts: int,
)
    requires
        is_grid(grid),
        is_certain(grid),
        0 <= parts <= 1024,
        function_modules_among(grid.version, grid.modules.len() as int) >= 1,
    ensures
        ({
            let n = grid.modules.len() as int;
            let wrong = wrong_functions(grid, level_at(f / 8), f % 8, n);
            let whole = function_modules_among(grid.version, n);
            let error = supposed(grid, place, f, distance).error;
            &&& 1024 * wrong <= parts * whole ==> 1024 * error <= parts * SHARE_UNIT
            &&& 1024 * wrong >= parts * whole ==> 1024 * error >= parts * SHARE_UNIT
        }),
{
    let n = grid.modules.len() as int;
    let side = symbol_side(grid.version);
    assert(441 <= side * side <= 31_329) by (nonlinear_arith)
        requires
            21 <= side <= 177,
    ;
    lemma_certain_functions(grid, level_at(f / 8), f % 8, n);
    let wrong = wrong_functions(grid, level_at(f / 8), f % 8, n);
    let whole = function_modules_among(grid.version, n);
    lemma_share_of_counts(wrong, whole, parts);
    lemma_share_of_counts(wrong, whole, 0);
    lemma_share_of_counts(wrong, whole, 1024);
}

/// How many of the first `n` grids show module `at` dark.
pub open spec fn dark_grids(grids: Seq<GridModel>, at: int, n: int) -> int
    decreases n,
{
    if n <= 0 {
        0
    } else {
        dark_grids(grids, at, n - 1) + (if grids[n - 1].modules[at] == 1 {
            1int
        } else {
            0
        })
    }
}

proof fn lemma_certain_votes(grids: Seq<GridModel>, at: int, n: int)
    requires
        0 <= n <= grids.len(),
        n < 16_777_216,
        forall|i: int|
            0 <= i < n ==> (#[trigger] grids[i]).confidence[at] == FULL_RELIABILITY,
    ensures
        0 <= dark_grids(grids, at, n) <= n,
        votes(grids, at, n) == FULL_RELIABILITY * n,
        dark_votes(grids, at, n) == FULL_RELIABILITY * dark_grids(grids, at, n),
    decreases n,
{
    if n > 0 {
        lemma_certain_votes(grids, at, n - 1);
        assert(grids[n - 1].confidence[at] == FULL_RELIABILITY);
        assert(module_weight(FULL_RELIABILITY) == FULL_RELIABILITY);
        lemma_whole_sums(n);
        lemma_whole_sums(dark_grids(grids, at, n));
    }
}

/// Where grids are equally certain of a module, the majority decides, and a tie is
/// dark.
pub proof fn votes_follow_the_majority(grids: Seq<GridModel>, at: int)
    requires
        1 <= grids.len() < 16_777_216,
        0 <= at < grids[0].modules.len(),
        forall|i: int|
            0 <= i < grids.len() ==> (#[trigger] grids[i]).confidence[at] == FULL_RELIABILITY,
    ensures
        voted_grid(grids).modules[at] == (if 2 * dark_grids(grids, at, grids.len() as int)
            >= grids.len() {
            1u8
        } else {
            0
        }),
{
    lemma_certain_votes(grids, at, grids.len() as int);
}

proof fn lemma_votes_order(a: Seq<GridModel>, b: Seq<GridModel>, at: int, n: int)
    requires
        0 <= n,
        forall|i: int|
            0 <= i < n ==> (#[trigger] a[i]).confidence[at] == b[i].confidence[at] && (
            a[i].modules[at] == 1 ==> b[i].modules[at] == 1),
    ensures
        votes(a, at, n) == votes(b, at, n),
        0 <= dark_votes(a, at, n) <= dark_votes(b, at, n),
    decreases n,
{
    let single = SINGLE as int;
    if n > 0 {
        lemma_votes_order(a, b, at, n - 1);
        assert(a[n - 1].confidence[at] == b[n - 1].confidence[at]);
        let w = module_weight(a[n - 1].confidence[at]);
        let x = if a[n - 1].modules[at] == 1 {
            w
        } else {
            0
        };
        let y = if b[n - 1].modules[at] == 1 {
            w
        } else {
            0
        };
        lemma_rounded_monotone(dark_votes(a, at, n - 1) + x, dark_votes(b, at, n - 1) + y, single);
        lemma_rounded_monotone(0, dark_votes(a, at, n - 1) + x, single);
        assert(spacing(0, single) == 1);
    }
}

/// More dark votes never turn a module light.
pub proof fn darker_grids_vote_no_lighter(a: Seq<GridModel>, b: Seq<GridModel>, at: int)
    requires
        a.len() == b.len(),
        a.len() >= 1,
        0 <= at < a[0].modules.len(),
        b[0].modules.len() == a[0].modules.len(),
        forall|i: int|
            0 <= i < a.len() ==> (#[trigger] a[i]).confidence[at] == b[i].confidence[at] && (
            a[i].modules[at] == 1 ==> b[i].modules[at] == 1),
    ensures
        voted_grid(a).modules[at] == 1 ==> voted_grid(b).modules[at] == 1,
{
    lemma_votes_order(a, b, at, a.len() as int);
}

/// Whether a list of components has the names of another, and no smaller value.
pub open spec fn is_no_worse(a: Seq<Component>, b: Seq<Component>) -> bool {
    &&& a.len() == b.len()
    &&& forall|i: int|
        0 <= i < a.len() ==> (#[trigger] a[i]).name == b[i].name && a[i].value >= b[i].value
}

proof fn lemma_total_order(a: Seq<Component>, b: Seq<Component>, n: int)
    requires
        is_no_worse(a, b),
        0 <= n <= a.len(),
    ensures
        component_total(b, n) <= component_total(a, n),
    decreases n,
{
    if n > 0 {
        lemma_total_order(a, b, n - 1);
        assert(a[n - 1].value >= b[n - 1].value);
        lemma_signed_monotone(
            component_total(b, n - 1) + b[n - 1].value,
            component_total(a, n - 1) + a[n - 1].value,
        );
    }
}

/// A score does not fall where every component stays or rises.
pub proof fn better_parts_score_no_less(a: Seq<Component>, b: Seq<Component>)
    requires
        is_no_worse(a, b),
    ensures
        total_score(b) <= total_score(a),
{
    lemma_total_order(a, b, a.len() as int);
}

proof fn lemma_share_points(share: int)
    requires
        share == 0 || share == SHARE_UNIT,
    ensures
        share_points(0) == 0,
        share_points(SHARE_UNIT as int) == 20 * POINT,
{
    let single = SINGLE as int;
    assert(spacing(0, single) == 1);
    assert(two_to(44) == 17592186044416) by {
        reveal_with_fuel(two_to, 45);
    }
    lemma_rounded_scaled(20, single, 44);
    assert(spacing(20, single) == 1);
    assert(nearest(20, 1, 1) == 20);
}

proof fn lemma_half_points(k: int)
    requires
        -DOUBLE < k < DOUBLE,
    ensures
        rounded_signed(k * 2_251_799_813_685_248) == k * 2_251_799_813_685_248,
{
    assert(two_to(51) == 2_251_799_813_685_248) by {
        reveal_with_fuel(two_to, 52);
    }
    if k >= 0 {
        lemma_exact(k, 51);
    } else {
        lemma_exact(-k, 51);
    }
}

/// What a reading is worth without rounding: a hundred points for being decoded,
/// one off for each corrected codeword and half of one for each flipped bit, one
/// off for each wrong format module, twenty off if all of the structure is wrong,
/// and what hints and the variant add.
pub proof fn readings_are_worth_their_parts(
    hypothesis: Hypothesis,
    corrected: int,
    flips: int,
    quality: int,
    points: int,
)
    requires
        hypothesis.error == 0 || hypothesis.error == SHARE_UNIT,
        hypothesis.distance <= 30,
        0 <= corrected <= 1_000_000,
        0 <= flips <= 1_000_000,
        0 <= quality <= 100,
        -1000 <= points <= 1000,
    ensures
        2 * total_score(
            plain_components(
                hypothesis,
                2 * corrected + flips,
                (quality * POINT) as u64,
                points,
            ),
        ) == POINT * (200 - 2 * corrected - flips - 2 * hypothesis.distance + 2 * quality + 2
            * points - (if hypothesis.error == 0 {
            0int
        } else {
            40
        })),
{
    let half = 2_251_799_813_685_248int;
    let parts = plain_components(
        hypothesis,
        2 * corrected + flips,
        (quality * POINT) as u64,
        points,
    );
    lemma_share_points(hypothesis.error as int);
    let k1 = -(2 * corrected + flips);
    let k2 = k1 + 200;
    let k3 = k2 - 2 * hypothesis.distance;
    let k4 = k3 + 2 * quality;
    let k5 = k4 + 2 * points;
    let k6 = k5 - (if hypothesis.error == 0 {
        0int
    } else {
        40
    });
    lemma_half_points(k1);
    lemma_half_points(k2);
    lemma_half_points(k3);
    lemma_half_points(k4);
    lemma_half_points(k5);
    lemma_half_points(k6);
    let cost = 2 * corrected + flips;
    assert((POINT / 2) == half);
    assert(-(cost * half) == k1 * half) by (nonlinear_arith)
        requires
            k1 == -cost,
    ;
    assert(parts[0].value == -(cost * (POINT / 2)));
    assert(parts[0].value == k1 * half);
    assert(component_total(parts, 0) == 0);
    assert(component_total(parts, 1) == k1 * half);
    assert(component_total(parts, 2) == k2 * half);
    assert(component_total(parts, 3) == k3 * half);
    assert(component_total(parts, 4) == k4 * half);
    assert(component_total(parts, 5) == k5 * half);
    assert(component_total(parts, 6) == k6 * half);
}

/// A reading of a deformed symbol gets up to twenty points more for agreeing with
/// the image, and four more or less for being text or not; a better agreement is
/// never worth less.
pub proof fn deformed_readings_are_worth_their_agreement(
    hypothesis: Hypothesis,
    search_cost: int,
    quality: u64,
    points: int,
    payload: Seq<u8>,
    agreed: int,
    less: int,
)
    requires
        0 <= less <= agreed,
    ensures
        ({
            let parts = deformed_components(
                hypothesis,
                search_cost,
                quality,
                points,
                payload,
                agreed,
            );
            let others = deformed_components(
                hypothesis,
                search_cost,
                quality,
                points,
                payload,
                less,
            );
            &&& total_score(others) <= total_score(parts)
            &&& parts.len() == 8
            &&& parts[3].name == "imageAgreement"@ && (agreed == SHARE_UNIT ==> parts[3].value == 20
                * POINT) && (agreed == 0 ==> parts[3].value == 0)
            &&& parts[7].name == "utf8Evidence"@ && (vstd::utf8::valid_utf8(payload)
                ==> parts[7].value == 4 * POINT) && (!vstd::utf8::valid_utf8(payload)
                ==> parts[7].value == -4 * POINT)
            &&& parts.remove(7).remove(3) == plain_components(
                hypothesis,
                search_cost,
                quality,
                points,
            )
        }),
{
    let parts = deformed_components(hypothesis, search_cost, quality, points, payload, agreed);
    let others = deformed_components(hypothesis, search_cost, quality, points, payload, less);
    let plain = plain_components(hypothesis, search_cost, quality, points);
    lemma_share_points(0);
    lemma_rounded_monotone(20 * less, 20 * agreed, SINGLE as int);
    assert(is_no_worse(parts, others)) by {
        assert forall|i: int| 0 <= i < parts.len() implies (#[trigger] parts[i]).name
            == others[i].name && parts[i].value >= others[i].value by {}
    }
    lemma_total_order(parts, others, parts.len() as int);
    assert(parts.remove(7).remove(3) =~= plain);
}

/// Meeting a hint is worth more than missing it, by a fixed number of points for
/// each hint: nine for the version and for the level, ten for a prefix and for a
/// pattern, eighteen for the whole text. An empty payload loses twenty points, and
/// without hints nothing else counts.
pub proof fn hints_are_worth_their_points(
    options: RecoveryOptions,
    text: Seq<char>,
    other: Seq<char>,
    version: u8,
    other_version: u8,
    level: EcLevel,
    other_level: EcLevel,
)
    ensures
        options.version == Some(version) && other_version != version ==> payload_points(
            options,
            false,
            text,
            version,
            level,
        ) - payload_points(options, false, text, other_version, level) == 9,
        options.ec_level == Some(level) && other_level != level ==> payload_points(
            options,
            false,
            text,
            version,
            level,
        ) - payload_points(options, false, text, version, other_level) == 9,
        options.payload_prefix is Some && options.expected_text is None
            && options.payload_regex is None && stands_at(text, options.payload_prefix->Some_0@, 0)
            && !stands_at(other, options.payload_prefix->Some_0@, 0) ==> payload_points(
            options,
            false,
            text,
            version,
            level,
        ) - payload_points(options, false, other, version, level) == 10,
        options.expected_text is Some && options.payload_prefix is None
            && options.payload_regex is None && text == options.expected_text->Some_0@ && other
            != text ==> payload_points(options, false, text, version, level) - payload_points(
            options,
            false,
            other,
            version,
            level,
        ) == 18,
        options.payload_regex is Some && options.payload_prefix is None
            && options.expected_text is None && regex_rejection(
            options.payload_regex->Some_0@,
        ) is None && regex_accepts(options.payload_regex->Some_0@, text) && !regex_accepts(
            options.payload_regex->Some_0@,
            other,
        ) ==> payload_points(options, false, text, version, level) - payload_points(
            options,
            false,
            other,
            version,
            level,
        ) == 10,
        payload_points(options, false, text, version, level) - payload_points(
            options,
            true,
            text,
            version,
            level,
        ) == 20,
        options.version is None && options.ec_level is None && options.payload_prefix is None
            && options.expected_text is None && options.payload_regex is None ==> payload_points(
            options,
            false,
            text,
            version,
            level,
        ) == 0,
        options.version == Some(version) && options.ec_level == Some(level)
            && options.payload_prefix is None && options.expected_text is None
            && options.payload_regex is None ==> payload_points(
            options,
            false,
            text,
            version,
            level,
        ) == 6,
{
}

/// Whether no hypothesis of a list fits better than an earlier one.
pub open spec fn is_by_fit(list: Seq<Hypothesis>) -> bool {
    forall|i: int, j: int|
        0 <= i < j < list.len() ==> !fits_better(#[trigger] list[j], #[trigger] list[i])
}

proof fn lemma_with_hypothesis(list: Seq<Hypothesis>, hypothesis: Hypothesis)
    requires
        is_by_fit(list),
    ensures
        is_by_fit(with_hypothesis(list, hypothesis)),
        with_hypothesis(list, hypothesis).len() == list.len() + 1,
        forall|i: int|
            0 <= i < with_hypothesis(list, hypothesis).len() ==> #[trigger] with_hypothesis(
                list,
                hypothesis,
            )[i] == hypothesis || list.contains(with_hypothesis(list, hypothesis)[i]),
    decreases list.len(),
{
    let next = with_hypothesis(list, hypothesis);
    if list.len() == 0 || !fits_better(hypothesis, list.last()) {
        assert forall|i: int| 0 <= i < next.len() implies #[trigger] next[i] == hypothesis
            || list.contains(next[i]) by {
            if i < list.len() {
                assert(next[i] == list[i]);
            }
        }
        assert forall|i: int, j: int| 0 <= i < j < next.len() implies !fits_better(
            #[trigger] next[j],
            #[trigger] next[i],
        ) by {
            assert(next[i] == list[i]);
            if j < list.len() {
                assert(next[j] == list[j]);
            } else if i < list.len() - 1 {
                assert(!fits_better(list[list.len() - 1], list[i]));
            }
        }
    } else {
        let rest = list.drop_last();
        lemma_with_hypothesis(rest, hypothesis);
        let part = with_hypothesis(rest, hypothesis);
        let last = list.last();
        assert(last == list[list.len() - 1]);
        assert forall|i: int| 0 <= i < next.len() implies #[trigger] next[i] == hypothesis
            || list.contains(next[i]) by {
            if i < part.len() {
                assert(next[i] == part[i]);
                if part[i] != hypothesis {
                    let k = rest.index_of(part[i]);
                    assert(list[k] == part[i]);
                }
            } else {
                assert(list[list.len() - 1] == next[i]);
            }
        }
        assert forall|i: int, j: int| 0 <= i < j < next.len() implies !fits_better(
            #[trigger] next[j],
            #[trigger] next[i],
        ) by {
            assert(next[i] == part[i]);
            if j < part.len() {
                assert(next[j] == part[j]);
            } else if part[i] != hypothesis {
                let k = rest.index_of(part[i]);
                assert(list[k] == part[i] && k < list.len() - 1);
                assert(!fits_better(list[list.len() - 1], list[k]));
            }
        }
    }
}

proof fn lemma_by_fit(list: Seq<Hypothesis>, n: int)
    requires
        0 <= n <= list.len(),
    ensures
        is_by_fit(by_fit(list, n)),
        by_fit(list, n).len() == n,
        forall|i: int|
            0 <= i < n ==> list.contains(#[trigger] by_fit(list, n)[i]),
    decreases n,
{
    if n > 0 {
        lemma_by_fit(list, n - 1);
        let before = by_fit(list, n - 1);
        lemma_with_hypothesis(before, list[n - 1]);
        let next = by_fit(list, n);
        assert forall|i: int| 0 <= i < n implies list.contains(#[trigger] next[i]) by {
            if next[i] == list[n - 1] {
                assert(list.contains(list[n - 1]));
            } else {
                let k = before.index_of(next[i]);
                assert(before[k] == next[i]);
            }
        }
    }
}

/// Whether a hypothesis about a grid is close enough to be tried.
pub open spec fn is_near_format(
    hypothesis: Hypothesis,
    grid: GridModel,
    expected: Option<EcLevel>,
) -> bool {
    let side = symbol_side(grid.version);
    &&& hypothesis.mask <= 7
    &&& hypothesis.version == grid.version
    &&& hypothesis.distance == format_distance(
        grid.modules,
        side,
        hypothesis.level,
        hypothesis.mask as int,
    )
    &&& expected is Some ==> hypothesis.level == expected->Some_0
    &&& grid.deformed ==> hypothesis.distance <= 8
    &&& !grid.deformed ==> forall|level: EcLevel, mask: int|
        0 <= mask <= 7 ==> hypothesis.distance <= #[trigger] format_distance(
            grid.modules,
            side,
            level,
            mask,
        ) + 4
}

proof fn lemma_distance_bound(modules: Seq<u8>, side: int, word: u16, n: int)
    ensures
        0 <= crate::formats::differing(modules, side, word, n),
        n >= 0 ==> crate::formats::differing(modules, side, word, n) <= n,
    decreases n,
{
    if n > 0 {
        lemma_distance_bound(modules, side, word, n - 1);
    }
}

pub(crate) proof fn lemma_ranks(grid: GridModel)
    ensures
        ({
            let side = symbol_side(grid.version);
            let distances = format_distances(grid.modules, side);
            let ranks = ranked_formats(grid.modules, side);
            &&& ranks.len() == 32
            &&& forall|i: int| 0 <= i < 32 ==> (#[trigger] ranks[i]) < 32
            &&& forall|f: int|
                0 <= f < 32 ==> #[trigger] distances[f] == format_distance(
                    grid.modules,
                    side,
                    level_at(f / 8),
                    f % 8,
                ) && 0 <= distances[f] <= 30
            &&& forall|f: int| 0 <= f < 32 ==> distances[ranks[0] as int] <= #[trigger] distances[f]
        }),
{
    let side = symbol_side(grid.version);
    let distances = format_distances(grid.modules, side);
    let ranks = ranked_formats(grid.modules, side);
    sorted_indices_in_order(distances, 32);
    assert forall|f: int| 0 <= f < 32 implies #[trigger] distances[f] == format_distance(
        grid.modules,
        side,
        level_at(f / 8),
        f % 8,
    ) && 0 <= distances[f] <= 30 by {
        lemma_distance_bound(
            grid.modules,
            side,
            crate::bch::format_word(level_at(f / 8), f % 8),
            30,
        );
    }
    assert forall|f: int| 0 <= f < 32 implies distances[ranks[0] as int]
        <= #[trigger] distances[f] by {
        sorting_keeps_all(distances, 32, f as usize);
        let k = choose|k: int| 0 <= k < ranks.len() && ranks[k] == f as usize;
        if k > 0 {
            assert(ranks[k] == f);
            assert(distances[ranks[0] as int] <= distances[ranks[k] as int]);
        }
    }
}

proof fn lemma_grid_hypotheses(
    grid: GridModel,
    place: int,
    expected: Option<EcLevel>,
    n: int,
)
    requires
        is_grid(grid),
        0 <= n <= 32,
    ensures
        forall|i: int|
            0 <= i < grid_hypotheses(grid, place, expected, n).len() ==> is_near_format(
                #[trigger] grid_hypotheses(grid, place, expected, n)[i],
                grid,
                expected,
            ),
        !grid.deformed ==> grid_hypotheses(grid, place, expected, n).len() <= 6,
        grid_hypotheses(grid, place, expected, n).len() <= 32,
    decreases n,
{
    if n > 0 {
        lemma_grid_hypotheses(grid, place, expected, n - 1);
        lemma_ranks(grid);
        let side = symbol_side(grid.version);
        let distances = format_distances(grid.modules, side);
        let ranks = ranked_formats(grid.modules, side);
        let f = ranks[n - 1] as int;
        let before = grid_hypotheses(grid, place, expected, n - 1);
        let next = grid_hypotheses(grid, place, expected, n);
        assert(0 <= f < 32);
        assert(distances[f] == format_distance(grid.modules, side, level_at(f / 8), f % 8));
        let item = supposed(grid, place, f, distances[f] as int);
        assert forall|i: int| 0 <= i < next.len() implies is_near_format(
            #[trigger] next[i],
            grid,
            expected,
        ) by {
            if i < before.len() {
                assert(next[i] == before[i]);
            } else {
                assert(next[i] == item);
                if !grid.deformed {
                    assert forall|level: EcLevel, mask: int| 0 <= mask <= 7 implies item.distance
                        <= #[trigger] format_distance(grid.modules, side, level, mask) + 4 by {
                        let row = match level {
                            EcLevel::L => 0int,
                            EcLevel::M => 1,
                            EcLevel::Q => 2,
                            EcLevel::H => 3,
                        };
                        let g = 8 * row + mask;
                        assert(g / 8 == row && g % 8 == mask);
                        assert(distances[g] == format_distance(grid.modules, side, level, mask));
                        assert(distances[ranks[0] as int] <= distances[g]);
                    }
                }
            }
        }
    }
}

/// A grid is read under formats that are close to what it shows: of a flat one at
/// most six, none more than four modules farther off than the closest, of a
/// deformed one those that are at most eight modules off. Where a level is
/// expected, only its formats count.
pub proof fn close_formats_are_tried(grid: GridModel, place: int, expected: Option<EcLevel>, i: int)
    requires
        is_grid(grid),
        0 <= i < grid_hypotheses(grid, place, expected, 32).len(),
    ensures
        is_near_format(grid_hypotheses(grid, place, expected, 32)[i], grid, expected),
        !grid.deformed ==> grid_hypotheses(grid, place, expected, 32).len() <= 6,
{
    lemma_grid_hypotheses(grid, place, expected, 32);
}

pub(crate) proof fn lemma_hypotheses_grow(
    grid: GridModel,
    place: int,
    expected: Option<EcLevel>,
    m: int,
    n: int,
)
    requires
        0 <= m <= n,
    ensures
        grid_hypotheses(grid, place, expected, m).len() <= grid_hypotheses(
            grid,
            place,
            expected,
            n,
        ).len(),
        grid_hypotheses(grid, place, expected, n).take(
            grid_hypotheses(grid, place, expected, m).len() as int,
        ) == grid_hypotheses(grid, place, expected, m),
    decreases n,
{
    let small = grid_hypotheses(grid, place, expected, m);
    let large = grid_hypotheses(grid, place, expected, n);
    if m < n {
        lemma_hypotheses_grow(grid, place, expected, m, n - 1);
        let before = grid_hypotheses(grid, place, expected, n - 1);
        assert(large.take(small.len() as int) =~= before.take(small.len() as int));
    } else {
        assert(large.take(small.len() as int) =~= small);
    }
}

/// Where no level is expected, the format that a flat grid shows best is tried
/// first.
pub proof fn the_closest_format_is_tried(grid: GridModel, place: int, level: EcLevel, mask: int)
    requires
        is_grid(grid),
        !grid.deformed,
        0 <= mask <= 7,
    ensures
        grid_hypotheses(grid, place, None, 32).len() >= 1,
        grid_hypotheses(grid, place, None, 32)[0].distance <= format_distance(
            grid.modules,
            symbol_side(grid.version),
            level,
            mask,
        ),
{
    lemma_ranks(grid);
    let side = symbol_side(grid.version);
    let distances = format_distances(grid.modules, side);
    let ranks = ranked_formats(grid.modules, side);
    let row = match level {
        EcLevel::L => 0int,
        EcLevel::M => 1,
        EcLevel::Q => 2,
        EcLevel::H => 3,
    };
    let g = 8 * row + mask;
    assert(g / 8 == row && g % 8 == mask);
    assert(distances[g] == format_distance(grid.modules, side, level, mask));
    assert(distances[ranks[0] as int] <= distances[g]);
    let one = grid_hypotheses(grid, place, None, 1);
    assert(grid_hypotheses(grid, place, None, 0) =~= Seq::<Hypothesis>::empty());
    assert(0 <= ranks[0] < 32);
    assert(0 <= distances[ranks[0] as int] <= 30);
    assert(one =~= seq![
        supposed(grid, place, ranks[0] as int, distances[ranks[0] as int] as int),
    ]);
    lemma_hypotheses_grow(grid, place, None, 1, 32);
    let all = grid_hypotheses(grid, place, None, 32);
    assert(all.take(1)[0] == one[0]);
}

/// Hypotheses are tried in the order of how well they fit: by the share of wrong
/// function modules, then by the number of wrong format modules.
pub proof fn fitting_hypotheses_come_first(
    grids: Seq<GridModel>,
    expected: Option<EcLevel>,
    i: int,
    j: int,
)
    requires
        0 <= i < j < hypotheses(grids, expected).len(),
    ensures
        ({
            let (a, b) = (hypotheses(grids, expected)[i], hypotheses(grids, expected)[j]);
            a.error < b.error || (a.error == b.error && a.distance <= b.distance)
        }),
{
    let all = all_hypotheses(grids, expected, grids.len() as int);
    lemma_by_fit(all, all.len() as int);
    let list = hypotheses(grids, expected);
    assert(!fits_better(list[j], list[i]));
}

/// A detected size is taken for the largest symbol that is not larger, within the
/// sizes that symbols have.
pub proof fn detected_sizes_round_down(size: int)
    ensures
        valid_version(detected_version(size)),
        21 <= size ==> symbol_side(detected_version(size)) <= size,
        21 <= size < 177 ==> size < symbol_side(detected_version(size) + 1),
        size < 21 ==> detected_version(size) == 1,
        size >= 177 ==> detected_version(size) == 40,
{
}

/// Versions closer to the detected one are tried before those farther off, and of
/// two equally close ones the larger.
pub proof fn closer_versions_come_first(i: int, j: int)
    requires
        0 <= i < j,
    ensures
        apart(version_offset(i), 0) <= apart(version_offset(j), 0),
        apart(version_offset(i), 0) == apart(version_offset(j), 0) ==> version_offset(i) > 0
            && version_offset(j) == -version_offset(i),
        version_offset(0) == 0,
{
}

/// Where grids are equally certain of a module, what they vote for is as certain as
/// their majority is large: by how many grids one side leads, as a share of all, to
/// 24 bits. A hundredth is the least.
pub proof fn narrow_votes_are_uncertain(grids: Seq<GridModel>, at: int)
    requires
        1 <= grids.len() < 16_777_216,
        0 <= at < grids[0].modules.len(),
        forall|i: int|
            0 <= i < grids.len() ==> (#[trigger] grids[i]).confidence[at] == FULL_RELIABILITY,
    ensures
        ({
            let n = grids.len() as int;
            let m = apart(2 * dark_grids(grids, at, n), n);
            let certain = voted_grid(grids).confidence[at];
            let least = 10_737_418int;
            &&& least <= certain <= 1_073_741_824
            &&& certain > least ==> apart(certain * n, m * 1_073_741_824) <= 64 * n
            &&& certain == least ==> m * 1_073_741_824 <= (least + 64) * n
        }),
{
    let n = grids.len() as int;
    let d = dark_grids(grids, at, n);
    let m = apart(2 * d, n);
    let full = FULL_RELIABILITY as int;
    let single = SINGLE as int;
    lemma_certain_votes(grids, at, n);
    lemma_whole_sums(m);
    let (dark, total) = (dark_votes(grids, at, n), votes(grids, at, n));
    assert(total == full * n && dark == full * d);
    let lead = vote_lead(dark, total);
    assert(lead == full * m) by {
        if 2 * d >= n {
            assert(2 * dark - total == full * m) by (nonlinear_arith)
                requires
                    dark == full * d,
                    total == full * n,
                    m == 2 * d - n,
            ;
            assert(2 * dark >= total) by (nonlinear_arith)
                requires
                    dark == full * d,
                    total == full * n,
                    2 * d >= n,
                    full >= 0,
            ;
        } else {
            assert(total - 2 * dark == full * m) by (nonlinear_arith)
                requires
                    dark == full * d,
                    total == full * n,
                    m == n - 2 * d,
            ;
            assert(2 * dark < total) by (nonlinear_arith)
                requires
                    dark == full * d,
                    total == full * n,
                    2 * d < n,
                    full >= 1,
            ;
        }
    }
    let top = lead * full;
    assert(0 <= top && 0 <= top / total <= full) by (nonlinear_arith)
        requires
            top == lead * full,
            lead == full * m,
            total == full * n,
            0 <= m <= n,
            1 <= n,
            full == 1_073_741_824,
    ;
    assert(1 <= total) by (nonlinear_arith)
        requires
            total == full * n,
            1 <= n,
            full == 1_073_741_824,
    ;
    quotients_round_to_nearest(top, total, single);
    let s = spacing(top / total, single);
    assert(two_to(7) == 128) by {
        reveal_with_fuel(two_to, 8);
    }
    lemma_spacing_divides(top / total, single, 7);
    vstd::arithmetic::div_mod::lemma_fundamental_div_mod(128, s);
    assert(s <= 128) by (nonlinear_arith)
        requires
            128 == s * (128int / s),
            s >= 1,
    ;
    let share = rounded_quotient(top, total, single);
    lemma_nearest(top, total, s);
    let e = share * n - m * full;
    assert(share * total - top == full * e) by (nonlinear_arith)
        requires
            total == full * n,
            top == lead * full,
            lead == full * m,
            e == share * n - m * full,
    ;
    assert(-(64 * n) <= e <= 64 * n) by (nonlinear_arith)
        requires
            -(total * s) <= 2 * (full * e) <= total * s,
            total == full * n,
            0 <= s <= 128,
            full == 1_073_741_824,
            n >= 1,
    ;
    let certain = voted_grid(grids).confidence[at] as int;
    assert(certain == vote_confidence(dark, total));
    if share < 10_737_418 {
        assert(share * n <= 10_737_418 * n) by (nonlinear_arith)
            requires
                share < 10_737_418,
                n >= 1,
        ;
    } else if share > full {
        assert(full * n <= share * n && m * full <= full * n) by (nonlinear_arith)
            requires
                share > full,
                n >= 1,
                m <= n,
                full >= 0,
        ;
    }
}

/// A module weighs what it is certain to, but no less than a twentieth of a certain
/// one, and more certain ones weigh no less.
pub proof fn doubtful_modules_weigh_a_twentieth(confidence: u32, more: u32)
    requires
        confidence <= more,
    ensures
        module_weight(confidence) <= module_weight(more),
        20 * module_weight(confidence) >= FULL_RELIABILITY,
        20 * confidence >= FULL_RELIABILITY ==> module_weight(confidence) == confidence,
        20 * confidence < FULL_RELIABILITY ==> 20 * (module_weight(confidence) - 1)
            < FULL_RELIABILITY,
{
}

/// A symbol is searched with the attempts that are allowed, up to two thousand.
pub proof fn symbols_take_two_thousand_attempts(allowed: int)
    ensures
        attempt_limit(allowed) <= allowed,
        attempt_limit(allowed) <= 2000,
        attempt_limit(allowed) == allowed || attempt_limit(allowed) == 2000,
{
}

/// What was read from a deformed symbol is known as such.
pub proof fn deformed_readings_are_known(
    grids: Seq<GridModel>,
    hypothesis: Hypothesis,
    variant: Variant,
)
    requires
        deformed_reading(grids, hypothesis, variant) is Some,
    ensures
        is_deformed(deformed_reading(grids, hypothesis, variant)->Some_0),
        agreement(
            deformed_reading(grids, hypothesis, variant)->Some_0.matrix,
            grids[hypothesis.grid as int],
        ) >= LEAST_AGREEMENT,
{
    let source = deformed_reading(grids, hypothesis, variant)->Some_0.source;
    let part = ":deformed-v"@;
    let start = "rxing-rust:"@ + variant.name;
    let at = start.len() as int;
    assert(source.subrange(at, at + part.len()) =~= part);
    assert(stands_at(source, part, at));
}

} // verus!
