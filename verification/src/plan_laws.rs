//! What every plan covers, and what its variants are worth.

use vstd::prelude::*;

use crate::effort::{adaptive_settings, channels, scales, variant_limit, Channel, Effort};
use crate::plan::{
    all_combinations, calibrated_families, calibrated_family, covering_families, extended, family,
    has_name, inverted_variant, leading_variants, other_adaptive, own_plan, plain_variants,
    primary_adaptive, quality_at, recipe_name, sharpened_family, sharpening, tenths,
    thorough_families, tone_families, unsharp_family, unusual_variants, variant_plan,
    wanted_variants, whole_family, Coverage, Recipe, Terminal, ToneCurve, VariantSpec, TENTH,
};
use crate::preflight::{recipe_stage, sorted_plan};
use crate::preflight_laws::{apart, sorted_plans_start_with_the_promising};
use crate::recovery_result::POINT;
use crate::rounding::{
    lemma_nearest, lemma_spacing, lemma_spacing_divides, rounded, spacing, two_to, DOUBLE,
};
use crate::rounding_laws::{quotients_round_to_nearest, rounding_is_to_nearest};

verus! {

/// Whether an effort looks at a channel: luma always, colors but with the fast
/// effort, and the smallest channel only with the thorough one.
pub open spec fn looks_at(effort: Effort, channel: Channel) -> bool {
    match channel {
        Channel::Luma => true,
        Channel::Min => effort == Effort::Thorough,
        _ => effort != Effort::Fast,
    }
}

/// Whether an effort enlarges by a factor.
pub open spec fn enlarges(effort: Effort, scale: u32) -> bool {
    ||| 1 <= scale <= 2
    ||| effort != Effort::Fast && 1 <= scale <= 4
    ||| effort == Effort::Thorough && scale == 6
}

/// Whether every effort tries a transform on everything that it looks at: contrast
/// alone, Otsu's threshold, and the adaptive threshold with the window nearest to
/// 25.
pub open spec fn is_basic(effort: Effort, terminal: Terminal) -> bool {
    ||| terminal == Terminal::Identity
    ||| terminal == Terminal::Otsu
    ||| terminal == Terminal::Adaptive {
        window: if effort == Effort::Fast {
            21
        } else {
            25
        },
        bias: 5,
    }
}

proof fn lemma_family_all(effort: Effort, terminal: Terminal, quality: int, n: int)
    requires
        0 <= n,
    ensures
        family(effort, Coverage::All, terminal, quality, n).len() == n,
        forall|i: int|
            0 <= i < n ==> (#[trigger] family(
                effort,
                Coverage::All,
                terminal,
                quality,
                n,
            )[i]).recipe == (Recipe::Standard {
                channel: all_combinations(effort)[i].0,
                scale: all_combinations(effort)[i].1,
                terminal,
            }),
    decreases n,
{
    if n > 0 {
        lemma_family_all(effort, terminal, quality, n - 1);
    }
}

proof fn lemma_calibrated_count(effort: Effort, n: int)
    requires
        1 <= n <= scales(effort).len(),
    ensures
        calibrated_families(effort, n).len() == 5 * (n - 1),
    decreases n,
{
    assert(scales(effort)[0] == 1);
    if n > 1 {
        lemma_calibrated_count(effort, n - 1);
        assert(scales(effort)[n - 1] > 1);
    } else {
        reveal_with_fuel(calibrated_families, 2);
    }
}

/// The place of a channel among those that an effort looks at.
spec fn channel_index(channel: Channel) -> int {
    match channel {
        Channel::Luma => 0,
        Channel::Green => 1,
        Channel::Red => 2,
        Channel::Blue => 3,
        Channel::Min => 4,
    }
}

/// The place of a factor among those by which an effort enlarges.
spec fn scale_index(scale: u32) -> int {
    if scale == 6 {
        4
    } else {
        scale - 1
    }
}

proof fn lemma_combination(effort: Effort, channel: Channel, scale: u32) -> (i: int)
    requires
        looks_at(effort, channel),
        enlarges(effort, scale),
    ensures
        0 <= i < all_combinations(effort).len(),
        all_combinations(effort)[i] == (channel, scale),
{
    let n = channels(effort).len() as int;
    let (c, s) = (channel_index(channel), scale_index(scale));
    assert(0 <= c < n && channels(effort)[c] == channel);
    assert(0 <= s < scales(effort).len() && scales(effort)[s] == scale);
    let i = s * n + c;
    vstd::arithmetic::div_mod::lemma_fundamental_div_mod_converse(i, n, s, c);
    assert(0 <= i < scales(effort).len() * n) by (nonlinear_arith)
        requires
            i == s * n + c,
            0 <= c < n,
            0 <= s < scales(effort).len(),
    ;
    i
}

proof fn lemma_combination_count(effort: Effort)
    ensures
        all_combinations(effort).len() == (match effort {
            Effort::Fast => 2int,
            Effort::Balanced => 16,
            Effort::Thorough => 25,
        }),
{
    let (s, c) = (scales(effort).len(), channels(effort).len());
    let side = match effort {
        Effort::Fast => (2nat, 1nat),
        Effort::Balanced => (4nat, 4nat),
        Effort::Thorough => (5nat, 5nat),
    };
    assert(s == side.0 && c == side.1);
    assert(2nat * 1nat == 2 && 4nat * 4nat == 16 && 5nat * 5nat == 25);
    assert(s * c == side.0 * side.1);
}

/// Where a basic variant stands in the own plan of an effort.
proof fn lemma_own_place(
    effort: Effort,
    channel: Channel,
    scale: u32,
    terminal: Terminal,
) -> (k: int)
    requires
        looks_at(effort, channel),
        enlarges(effort, scale),
        is_basic(effort, terminal),
    ensures
        0 <= k < 100,
        k < own_plan(effort).len(),
        own_plan(effort)[k].recipe == (Recipe::Standard { channel, scale, terminal }),
{
    let i = lemma_combination(effort, channel, scale);
    lemma_combination_count(effort);
    let c = all_combinations(effort).len() as int;
    let s = scales(effort).len() as int;
    lemma_calibrated_count(effort, s);
    let (window, bias) = primary_adaptive(effort);
    let contrast = whole_family(effort, Coverage::All, Terminal::Identity, 20);
    let otsu = whole_family(effort, Coverage::All, Terminal::Otsu, 24);
    let adaptive = whole_family(effort, Coverage::All, Terminal::Adaptive { window, bias }, 30);
    lemma_family_all(effort, Terminal::Identity, 20, c);
    lemma_family_all(effort, Terminal::Otsu, 24, c);
    lemma_family_all(effort, Terminal::Adaptive { window, bias }, 30, c);
    let start = plain_variants() + calibrated_families(effort, s);
    let covering = covering_families(effort);
    assert(covering == contrast + otsu + adaptive);
    let leading = leading_variants(effort);
    assert(leading == start + covering);
    let j = if terminal == Terminal::Identity {
        i
    } else if terminal == Terminal::Otsu {
        c + i
    } else {
        2 * c + i
    };
    assert(covering[j].recipe == (Recipe::Standard { channel, scale, terminal })) by {
        if terminal == Terminal::Identity {
            assert(covering[j] == contrast[i]);
        } else if terminal == Terminal::Otsu {
            assert(covering[j] == otsu[i]);
        } else {
            assert(covering[j] == adaptive[i]);
        }
    }
    let k = start.len() + j;
    assert(leading[k] == covering[j]);
    let wanted = wanted_variants(effort);
    assert(wanted[k] == leading[k]);
    assert(leading.len() <= variant_limit(effort));
    assert(own_plan(effort)[k] == wanted[k]);
    k
}

proof fn lemma_extended_grows(
    plan: Seq<VariantSpec>,
    more: Seq<VariantSpec>,
    m: int,
    n: int,
    limit: int,
    name: Seq<char>,
)
    requires
        0 <= m <= n,
        has_name(extended(plan, more, m, limit), name),
    ensures
        has_name(extended(plan, more, n, limit), name),
    decreases n,
{
    if m < n {
        lemma_extended_grows(plan, more, m, n - 1, limit, name);
        let before = extended(plan, more, n - 1, limit);
        let after = extended(plan, more, n, limit);
        let i = choose|i: int|
            0 <= i < before.len() && recipe_name((#[trigger] before[i]).recipe) == name;
        assert(after[i] == before[i]);
    }
}

proof fn lemma_extended_length(
    plan: Seq<VariantSpec>,
    more: Seq<VariantSpec>,
    n: int,
    limit: int,
)
    requires
        0 <= n,
    ensures
        extended(plan, more, n, limit).len() <= plan.len() + n,
    decreases n,
{
    if n > 0 {
        lemma_extended_length(plan, more, n - 1, limit);
    }
}

/// Every plan tries contrast, Otsu's threshold and one adaptive threshold on every
/// channel that the effort looks at, at every factor by which it enlarges.
pub proof fn plans_cover_channels_and_scales(
    effort: Effort,
    channel: Channel,
    scale: u32,
    terminal: Terminal,
)
    requires
        looks_at(effort, channel),
        enlarges(effort, scale),
        is_basic(effort, terminal),
    ensures
        has_name(
            variant_plan(effort),
            recipe_name(Recipe::Standard { channel, scale, terminal }),
        ),
{
    let recipe = Recipe::Standard { channel, scale, terminal };
    let name = recipe_name(recipe);
    let k = lemma_own_place(effort, channel, scale, terminal);
    let own = own_plan(effort);
    if effort == Effort::Thorough {
        let plan = own_plan(Effort::Balanced);
        let limit = variant_limit(effort);
        lemma_extended_length(plan, own, k, limit);
        let before = extended(plan, own, k, limit);
        assert(plan.len() <= 102);
        let after = extended(plan, own, k + 1, limit);
        if !has_name(before, name) {
            assert(after == before.push(own[k]));
            assert(after[before.len() as int] == own[k]);
            assert(has_name(after, name));
        } else {
            assert(after == before);
        }
        lemma_extended_grows(plan, own, k + 1, own.len() as int, limit, name);
    } else {
        assert(recipe_name(own[k].recipe) == name);
    }
}

proof fn lemma_small_step(n: int, k: nat)
    requires
        0 <= n < DOUBLE * two_to(k),
        1 <= two_to(k),
    ensures
        1 <= spacing(n, DOUBLE as int) <= two_to(k),
{
    lemma_spacing(n, DOUBLE as int);
    lemma_spacing_divides(n, DOUBLE as int, k);
    let s = spacing(n, DOUBLE as int);
    vstd::arithmetic::div_mod::lemma_fundamental_div_mod(two_to(k), s);
    assert(s <= two_to(k)) by (nonlinear_arith)
        requires
            two_to(k) == s * (two_to(k) / s),
            s >= 1,
            two_to(k) >= 1,
    ;
}

/// The quality of a variant is its base and one tenth of a point for each time that
/// it is enlarged, but for rounding in the last places.
pub proof fn larger_scales_add_tenths(base: int, scale: u32)
    requires
        0 <= base <= 100,
        1 <= scale <= 8,
    ensures
        apart(10 * tenths(base), base * POINT) <= 40,
        apart(10 * quality_at(base, scale), (base + scale) * POINT) <= 100,
{
    reveal(tenths);
    reveal(quality_at);
    assert(two_to(3) == 8 && two_to(7) == 128) by {
        reveal_with_fuel(two_to, 8);
    }
    let d = DOUBLE as int;
    let t = tenths(base);
    assert(0 <= base * POINT <= 100 * POINT) by (nonlinear_arith)
        requires
            0 <= base <= 100,
    ;
    let q = base * POINT / 10;
    lemma_small_step(q, 3);
    quotients_round_to_nearest(base * POINT, 10, d);
    let step = spacing(q, d);
    assert(apart(10 * t, base * POINT) <= 40);
    let u = scale * TENTH;
    assert(0 <= u <= 8 * TENTH);
    lemma_small_step(u, 3);
    rounding_is_to_nearest(u, d);
    let r = rounded(u, d);
    let sum = 16 * t + r;
    lemma_small_step(sum, 7);
    rounding_is_to_nearest(sum, d);
}

/// What a variant is for: to look at the image itself, at a channel of it, to cover
/// every channel and scale, or to go further.
pub open spec fn purpose(effort: Effort, recipe: Recipe) -> int {
    match recipe {
        Recipe::Original => 0,
        Recipe::Channel { .. } => 1,
        Recipe::Calibrated { .. } => 2,
        Recipe::Standard { terminal, .. } => if is_basic(effort, terminal) {
            2
        } else {
            3
        },
    }
}

/// The image itself is tried before its channels, these before what covers every
/// channel and scale, and that before everything else.
pub proof fn covering_variants_come_first(
    effort: Effort,
    scores: Seq<i64>,
    preferred: int,
    plan: Seq<VariantSpec>,
    i: int,
    j: int,
)
    requires
        scores.len() == 5,
        0 <= preferred <= 0xffff_ffff,
        plan.len() <= usize::MAX,
        0 <= i < j < plan.len(),
    ensures
        purpose(effort, sorted_plan(effort, scores, preferred, plan)[i].recipe) <= purpose(
            effort,
            sorted_plan(effort, scores, preferred, plan)[j].recipe,
        ),
{
    sorted_plans_start_with_the_promising(effort, scores, preferred, plan, i, j);
    let sorted = sorted_plan(effort, scores, preferred, plan);
    assert(purpose(effort, sorted[i].recipe) == recipe_stage(effort, sorted[i].recipe));
    assert(purpose(effort, sorted[j].recipe) == recipe_stage(effort, sorted[j].recipe));
}

/// What a transform is worth before enlargement, in tenths of a point.
pub open spec fn transform_tenths(terminal: Terminal, calibrated: bool) -> int {
    match terminal {
        Terminal::Identity => if calibrated {
            30
        } else {
            20
        },
        Terminal::Otsu => if calibrated {
            32
        } else {
            24
        },
        Terminal::Adaptive { .. } => 30,
        Terminal::GaussianAdaptive { window, bias } => if window == 31 {
            37
        } else if bias == 0 {
            40
        } else {
            38
        },
        Terminal::Unsharp { .. } => 26,
        Terminal::UnsharpAdaptive { .. } => 34,
        Terminal::Gamma { .. } => 22,
        Terminal::GammaAdaptive { .. } => 32,
        Terminal::Nearest => 18,
        Terminal::Invert => 15,
    }
}

/// Whether a quality is some tenths of a point, but for rounding in the last places.
pub open spec fn is_about_tenths(quality: u64, tenths: int) -> bool {
    apart(10 * quality, tenths * POINT) <= 100
}

/// Whether a variant has the quality of its transform, and one tenth of a point more
/// for each time that it is enlarged.
pub open spec fn has_its_quality(variant: VariantSpec) -> bool {
    match variant.recipe {
        Recipe::Original => is_about_tenths(variant.quality, 10),
        Recipe::Channel { channel } => is_about_tenths(
            variant.quality,
            if channel == Channel::Luma {
                12
            } else {
                11
            },
        ),
        Recipe::Calibrated { scale, terminal } => is_about_tenths(
            variant.quality,
            transform_tenths(terminal, true) + scale,
        ),
        Recipe::Standard { scale, terminal, .. } => is_about_tenths(
            variant.quality,
            if terminal == Terminal::Invert {
                15
            } else {
                transform_tenths(terminal, false) + scale
            },
        ),
    }
}

/// Whether all variants of a plan have their quality.
pub open spec fn all_have_quality(plan: Seq<VariantSpec>) -> bool {
    forall|i: int| 0 <= i < plan.len() ==> has_its_quality(#[trigger] plan[i])
}

proof fn lemma_quality_joined(a: Seq<VariantSpec>, b: Seq<VariantSpec>)
    requires
        all_have_quality(a),
        all_have_quality(b),
    ensures
        all_have_quality(a + b),
{
    assert forall|i: int| 0 <= i < (a + b).len() implies has_its_quality(#[trigger] (a + b)[i]) by {
        if i < a.len() {
            assert((a + b)[i] == a[i]);
        } else {
            assert((a + b)[i] == b[i - a.len()]);
        }
    }
}

proof fn lemma_combination_scale(effort: Effort, i: int)
    requires
        0 <= i < all_combinations(effort).len(),
    ensures
        1 <= all_combinations(effort)[i].1 <= 6,
{
    let n = channels(effort).len() as int;
    let s = scales(effort).len() as int;
    assert(s * n == n * s) by (nonlinear_arith);
    vstd::arithmetic::div_mod::lemma_multiply_divide_lt(i, n, s);
    assert(0 <= i / n) by (nonlinear_arith)
        requires
            0 <= i,
            1 <= n,
    ;
    assert(1 <= scales(effort)[i / n] <= 6);
}

proof fn lemma_family_quality(
    effort: Effort,
    coverage: Coverage,
    terminal: Terminal,
    quality: int,
    n: int,
)
    requires
        0 <= n <= all_combinations(effort).len(),
        terminal != Terminal::Invert,
        quality == transform_tenths(terminal, false),
    ensures
        all_have_quality(family(effort, coverage, terminal, quality, n)),
    decreases n,
{
    if n > 0 {
        lemma_family_quality(effort, coverage, terminal, quality, n - 1);
        lemma_combination_scale(effort, n - 1);
        let scale = all_combinations(effort)[n - 1].1;
        larger_scales_add_tenths(quality, scale);
        let before = family(effort, coverage, terminal, quality, n - 1);
        let after = family(effort, coverage, terminal, quality, n);
        assert forall|i: int| 0 <= i < after.len() implies has_its_quality(#[trigger] after[i]) by {
            if i < before.len() {
                assert(after[i] == before[i]);
            }
        }
    }
}

proof fn lemma_whole_quality(effort: Effort, coverage: Coverage, terminal: Terminal, quality: int)
    requires
        terminal != Terminal::Invert,
        quality == transform_tenths(terminal, false),
    ensures
        all_have_quality(whole_family(effort, coverage, terminal, quality)),
{
    lemma_family_quality(
        effort,
        coverage,
        terminal,
        quality,
        all_combinations(effort).len() as int,
    );
}

proof fn lemma_calibrated_quality(effort: Effort, n: int)
    requires
        0 <= n <= scales(effort).len(),
    ensures
        all_have_quality(calibrated_families(effort, n)),
    decreases n,
{
    if n > 0 {
        lemma_calibrated_quality(effort, n - 1);
        let scale = scales(effort)[n - 1];
        assert(1 <= scale <= 6);
        larger_scales_add_tenths(30, scale);
        larger_scales_add_tenths(32, scale);
        larger_scales_add_tenths(40, scale);
        larger_scales_add_tenths(38, scale);
        larger_scales_add_tenths(37, scale);
        let part = calibrated_family(scale);
        assert(all_have_quality(part));
        lemma_quality_joined(calibrated_families(effort, n - 1), part);
    }
}

proof fn lemma_other_quality(effort: Effort, n: int)
    requires
        0 <= n,
    ensures
        all_have_quality(other_adaptive(effort, n)),
    decreases n,
{
    if n > 0 {
        lemma_other_quality(effort, n - 1);
        let (window, bias) = adaptive_settings(effort)[n - 1];
        let part = whole_family(
            effort,
            Coverage::Reduced,
            Terminal::Adaptive { window, bias },
            30,
        );
        lemma_whole_quality(effort, Coverage::Reduced, Terminal::Adaptive { window, bias }, 30);
        lemma_quality_joined(other_adaptive(effort, n - 1), part);
    }
}

proof fn lemma_tenths_fit(base: int)
    requires
        0 <= base <= 100,
    ensures
        is_about_tenths(tenths(base) as u64, base),
{
    larger_scales_add_tenths(base, 1);
    reveal(tenths);
    assert(base * POINT <= 100 * POINT) by (nonlinear_arith)
        requires
            0 <= base <= 100,
    ;
    assert(0 <= base * POINT) by (nonlinear_arith)
        requires
            0 <= base,
    ;
    lemma_spacing(base * POINT / 10, DOUBLE as int);
    lemma_nearest(base * POINT, 10, spacing(base * POINT / 10, DOUBLE as int));
}

proof fn lemma_plain_quality()
    ensures
        all_have_quality(plain_variants()),
{
    lemma_tenths_fit(10);
    lemma_tenths_fit(11);
    lemma_tenths_fit(12);
}

proof fn lemma_tone_quality(effort: Effort, curve: ToneCurve)
    ensures
        all_have_quality(tone_families(effort, curve)),
{
    lemma_whole_quality(effort, Coverage::Focused, Terminal::Gamma { curve }, 22);
    lemma_whole_quality(
        effort,
        Coverage::Reduced,
        Terminal::GammaAdaptive { curve, window: 35, bias: 7 },
        32,
    );
    lemma_quality_joined(
        whole_family(effort, Coverage::Focused, Terminal::Gamma { curve }, 22),
        whole_family(
            effort,
            Coverage::Reduced,
            Terminal::GammaAdaptive { curve, window: 35, bias: 7 },
            32,
        ),
    );
}

proof fn lemma_thorough_quality(effort: Effort)
    ensures
        all_have_quality(thorough_families(effort)),
{
    let bright = tone_families(effort, ToneCurve::Brighten);
    let dark = tone_families(effort, ToneCurve::Darken);
    lemma_tone_quality(effort, ToneCurve::Brighten);
    lemma_tone_quality(effort, ToneCurve::Darken);
    lemma_whole_quality(effort, Coverage::Smaller, Terminal::Nearest, 18);
    lemma_quality_joined(bright, dark);
    lemma_quality_joined(
        bright + dark,
        whole_family(effort, Coverage::Smaller, Terminal::Nearest, 18),
    );
}

proof fn lemma_unusual_quality(effort: Effort)
    ensures
        all_have_quality(unusual_variants(effort)),
{
    lemma_tenths_fit(15);
    let one = seq![inverted_variant()];
    assert(all_have_quality(one));
    lemma_whole_quality(effort, Coverage::Largest, Terminal::Nearest, 18);
    lemma_quality_joined(one, whole_family(effort, Coverage::Largest, Terminal::Nearest, 18));
}

proof fn lemma_leading_quality(effort: Effort)
    ensures
        all_have_quality(leading_variants(effort)),
{
    let (window, bias) = primary_adaptive(effort);
    let contrast = whole_family(effort, Coverage::All, Terminal::Identity, 20);
    let otsu = whole_family(effort, Coverage::All, Terminal::Otsu, 24);
    let adaptive = whole_family(effort, Coverage::All, Terminal::Adaptive { window, bias }, 30);
    lemma_whole_quality(effort, Coverage::All, Terminal::Identity, 20);
    lemma_whole_quality(effort, Coverage::All, Terminal::Otsu, 24);
    lemma_whole_quality(effort, Coverage::All, Terminal::Adaptive { window, bias }, 30);
    lemma_quality_joined(contrast, otsu);
    lemma_quality_joined(contrast + otsu, adaptive);
    lemma_plain_quality();
    let calibrated = calibrated_families(effort, scales(effort).len() as int);
    lemma_calibrated_quality(effort, scales(effort).len() as int);
    lemma_quality_joined(plain_variants(), calibrated);
    lemma_quality_joined(plain_variants() + calibrated, covering_families(effort));
}

proof fn lemma_own_quality(effort: Effort)
    ensures
        all_have_quality(own_plan(effort)),
{
    let leading = leading_variants(effort);
    let unusual = unusual_variants(effort);
    let unsharp = unsharp_family(effort);
    let sharpened = sharpened_family(effort);
    let n = adaptive_settings(effort).len() as int;
    let other = other_adaptive(effort, n);
    lemma_leading_quality(effort);
    lemma_unusual_quality(effort);
    lemma_whole_quality(
        effort,
        Coverage::Focused,
        Terminal::Unsharp { amount: sharpening(effort) },
        26,
    );
    lemma_whole_quality(
        effort,
        Coverage::Focused,
        Terminal::UnsharpAdaptive { amount: sharpening(effort), window: 25, bias: 5 },
        34,
    );
    lemma_other_quality(effort, n);
    lemma_thorough_quality(effort);
    lemma_quality_joined(leading, unusual);
    lemma_quality_joined(leading + unusual, unsharp);
    lemma_quality_joined(leading + unusual + unsharp, sharpened);
    lemma_quality_joined(leading + unusual + unsharp + sharpened, other);
    lemma_quality_joined(
        leading + unusual + unsharp + sharpened + other,
        thorough_families(effort),
    );
    let wanted = wanted_variants(effort);
    let own = own_plan(effort);
    assert forall|i: int| 0 <= i < own.len() implies has_its_quality(#[trigger] own[i]) by {
        assert(own[i] == wanted[i]);
    }
}

proof fn lemma_extended_quality(
    plan: Seq<VariantSpec>,
    more: Seq<VariantSpec>,
    n: int,
    limit: int,
)
    requires
        0 <= n <= more.len(),
        all_have_quality(plan),
        all_have_quality(more),
    ensures
        all_have_quality(extended(plan, more, n, limit)),
    decreases n,
{
    if n > 0 {
        lemma_extended_quality(plan, more, n - 1, limit);
    }
}

/// Every planned variant has the quality of its transform, which grows by a tenth of
/// a point for each time that the image is enlarged.
pub proof fn planned_variants_have_their_quality(effort: Effort, i: int)
    requires
        0 <= i < variant_plan(effort).len(),
    ensures
        has_its_quality(variant_plan(effort)[i]),
{
    lemma_own_quality(effort);
    if effort == Effort::Thorough {
        lemma_own_quality(Effort::Balanced);
        lemma_extended_quality(
            own_plan(Effort::Balanced),
            own_plan(Effort::Thorough),
            own_plan(Effort::Thorough).len() as int,
            variant_limit(effort),
        );
    }
}

} // verus!
