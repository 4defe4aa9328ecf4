//! What a first look at an image decides, in terms of its pixels.

use vstd::prelude::*;

use crate::effort::{channel_name, scales, Channel, Effort};
use crate::image::{is_picture, luma_units, pixel_count, Picture, UNIT};
use crate::image_laws::{brightness, lemma_luma_units};
use crate::order::{sorted_indices_in_order, stable_order};
use crate::phrases::text_before;
use crate::plan::{channel_of, scale_of, variant_plan, Recipe, VariantSpec};
use crate::plan_length::{is_colorless, plans_have_their_length};
use crate::preflight::{
    alphabetical, best_scale, channel_index, channel_rank, chroma_sum, colorful_count,
    is_achromatic, looks_at, named_in, outranked_by, outranks, preferred_scale, preflight_value,
    prioritized, pruned, recipe_stage, sample_chroma, sample_count, sample_stride, sampled_values,
    scale_distance, scale_error, sort_key, sort_keys, sorted_plan,
};
use crate::rounding::{lemma_nearest, lemma_spacing_divides, rounded, spacing, two_to, DOUBLE};
use crate::search_laws::sorting_keeps_all;

verus! {

/// How far two numbers are apart.
pub open spec fn apart(a: int, b: int) -> int {
    if a < b {
        b - a
    } else {
        a - b
    }
}

/// The red of a pixel.
pub open spec fn red_at(picture: Picture, p: int) -> int {
    picture.pixels[4 * p] as int
}

/// The green of a pixel.
pub open spec fn green_at(picture: Picture, p: int) -> int {
    picture.pixels[4 * p + 1] as int
}

/// The blue of a pixel.
pub open spec fn blue_at(picture: Picture, p: int) -> int {
    picture.pixels[4 * p + 2] as int
}

/// Whether every `step`-th pixel is the densest even choice of at most 65536
/// pixels.
pub open spec fn is_step(step: int, pixels: int) -> bool {
    65_536 * step >= pixels > 65_536 * (step - 1)
}

/// The sum of `f` over every `step`-th of the first `n` pixels.
pub open spec fn spread_sum(f: spec_fn(int) -> int, step: int, n: int) -> int
    decreases n,
{
    if n <= 0 {
        0
    } else {
        spread_sum(f, step, n - 1) + (if (n - 1) % step == 0 {
            f(n - 1)
        } else {
            0
        })
    }
}

/// How many pixels are looked at.
pub open spec fn looked_at(picture: Picture, step: int) -> int {
    spread_sum(|p: int| 1, step, pixel_count(picture))
}

/// Whether two color channels of a pixel are more than 12 apart.
pub open spec fn is_colored(picture: Picture, p: int) -> bool {
    ||| apart(red_at(picture, p), green_at(picture, p)) > 12
    ||| apart(green_at(picture, p), blue_at(picture, p)) > 12
    ||| apart(red_at(picture, p), blue_at(picture, p)) > 12
}

/// How many of the pixels looked at have two channels more than 12 apart.
pub open spec fn colored(picture: Picture, step: int) -> int {
    spread_sum(
        |p: int|
            if is_colored(picture, p) {
                1
            } else {
                0
            },
        step,
        pixel_count(picture),
    )
}

/// How far the two channels of a pixel that are farthest apart are.
pub open spec fn widest(picture: Picture, p: int) -> int {
    let a = apart(red_at(picture, p), green_at(picture, p));
    let b = apart(green_at(picture, p), blue_at(picture, p));
    let c = apart(red_at(picture, p), blue_at(picture, p));
    if a >= b && a >= c {
        a
    } else if b >= c {
        b
    } else {
        c
    }
}

spec fn stepped_sum(f: spec_fn(int) -> int, step: int, n: int) -> int
    decreases n,
{
    if n <= 0 {
        0
    } else {
        stepped_sum(f, step, n - 1) + f((n - 1) * step)
    }
}

proof fn lemma_gap(f: spec_fn(int) -> int, step: int, i: int, m: int)
    requires
        1 <= step,
        0 <= i,
        i * step < m <= (i + 1) * step,
    ensures
        spread_sum(f, step, m) == spread_sum(f, step, i * step) + f(i * step),
    decreases m,
{
    let q = m - 1;
    assert((i + 1) * step == i * step + step) by (nonlinear_arith);
    assert(0 <= i * step) by (nonlinear_arith)
        requires
            0 <= i,
            1 <= step,
    ;
    if q == i * step {
        vstd::arithmetic::div_mod::lemma_fundamental_div_mod_converse(q, step, i, 0);
    } else {
        vstd::arithmetic::div_mod::lemma_fundamental_div_mod_converse(
            q,
            step,
            i,
            q - i * step,
        );
        lemma_gap(f, step, i, q);
    }
}

proof fn lemma_spread(f: spec_fn(int) -> int, step: int, i: int, n: int)
    requires
        1 <= step,
        1 <= i,
        (i - 1) * step < n <= i * step,
    ensures
        spread_sum(f, step, n) == stepped_sum(f, step, i),
    decreases i,
{
    lemma_gap(f, step, i - 1, n);
    if i > 1 {
        assert((i - 1) * step == (i - 2) * step + step) by (nonlinear_arith);
        lemma_spread(f, step, i - 1, (i - 1) * step);
    } else {
        assert((i - 1) * step == 0) by (nonlinear_arith)
            requires
                i == 1,
        ;
        assert(stepped_sum(f, step, i - 1) == 0);
        assert(spread_sum(f, step, (i - 1) * step) == 0);
    }
}

proof fn lemma_step(step: int, pixels: int)
    requires
        1 <= pixels,
        is_step(step, pixels),
    ensures
        step == sample_stride(pixels),
        1 <= step,
        1 <= sample_count(pixels),
        (sample_count(pixels) - 1) * step < pixels <= sample_count(pixels) * step,
{
    let n = sample_count(pixels);
    vstd::arithmetic::div_mod::lemma_fundamental_div_mod(pixels + step - 1, step);
    vstd::arithmetic::div_mod::lemma_mod_bound(pixels + step - 1, step);
    assert(n * step == step * n) by (nonlinear_arith);
    assert((n - 1) * step == n * step - step) by (nonlinear_arith);
    assert(n >= 1) by (nonlinear_arith)
        requires
            n * step >= pixels,
            pixels >= 1,
            step >= 1,
    ;
}

proof fn lemma_stepped_order(
    f: spec_fn(int) -> int,
    g: spec_fn(int) -> int,
    step: int,
    n: int,
)
    requires
        forall|p: int| #[trigger] f(p) <= g(p),
    ensures
        stepped_sum(f, step, n) <= stepped_sum(g, step, n),
    decreases n,
{
    if n > 0 {
        lemma_stepped_order(f, g, step, n - 1);
        assert(f((n - 1) * step) <= g((n - 1) * step));
    }
}

proof fn lemma_samples(picture: Picture, step: int, n: int)
    requires
        step == sample_stride(pixel_count(picture)),
        0 <= n,
    ensures
        stepped_sum(|p: int| 1, step, n) == n,
        stepped_sum(|p: int| widest(picture, p), step, n) == chroma_sum(picture, n),
        stepped_sum(
            |p: int|
                if is_colored(picture, p) {
                    1
                } else {
                    0
                },
            step,
            n,
        ) == colorful_count(picture, n),
    decreases n,
{
    if n > 0 {
        lemma_samples(picture, step, n - 1);
        let p = (n - 1) * step;
        assert(sample_chroma(picture, n - 1) == widest(picture, p));
        assert(is_colored(picture, p) <==> widest(picture, p) > 12);
    }
}

/// An image is achromatic exactly if at most one in fifty of the pixels looked at
/// has two color channels more than 12 apart, and the widest distance between two
/// channels of a pixel is at most 6 on average. Every channel is then close to
/// every other on average.
pub proof fn achromatic_images_have_little_color(picture: Picture, step: int)
    requires
        is_picture(picture),
        is_step(step, pixel_count(picture)),
    ensures
        ({
            let n = looked_at(picture, step);
            let whole = pixel_count(picture);
            &&& n == sample_count(whole)
            &&& is_achromatic(picture) <==> 50 * colored(picture, step) <= n && spread_sum(
                |p: int| widest(picture, p),
                step,
                whole,
            ) <= 6 * n
            &&& is_achromatic(picture) ==> {
                &&& spread_sum(
                    |p: int| apart(red_at(picture, p), green_at(picture, p)),
                    step,
                    whole,
                ) <= 6 * n
                &&& spread_sum(
                    |p: int| apart(green_at(picture, p), blue_at(picture, p)),
                    step,
                    whole,
                ) <= 6 * n
                &&& spread_sum(
                    |p: int| apart(red_at(picture, p), blue_at(picture, p)),
                    step,
                    whole,
                ) <= 6 * n
            }
        }),
{
    let whole = pixel_count(picture);
    assert(1 <= whole) by (nonlinear_arith)
        requires
            whole == picture.width * picture.height,
            1 <= picture.width,
            1 <= picture.height,
    ;
    lemma_step(step, whole);
    let n = sample_count(whole);
    let all = |p: int| widest(picture, p);
    let some = |p: int|
        if is_colored(picture, p) {
            1int
        } else {
            0
        };
    let one = |p: int| 1int;
    let a = |p: int| apart(red_at(picture, p), green_at(picture, p));
    let b = |p: int| apart(green_at(picture, p), blue_at(picture, p));
    let c = |p: int| apart(red_at(picture, p), blue_at(picture, p));
    lemma_spread(all, step, n, whole);
    lemma_spread(some, step, n, whole);
    lemma_spread(one, step, n, whole);
    lemma_spread(a, step, n, whole);
    lemma_spread(b, step, n, whole);
    lemma_spread(c, step, n, whole);
    lemma_samples(picture, step, n);
    lemma_stepped_order(a, all, step, n);
    lemma_stepped_order(b, all, step, n);
    lemma_stepped_order(c, all, step, n);
}

/// The samples of the channel of smallest values never exceed those of a color,
/// and each is that of some color.
pub proof fn smallest_channel_is_below_all(red: u8, green: u8, blue: u8)
    ensures
        ({
            let least = preflight_value(Channel::Min, red, green, blue);
            &&& least <= red && least <= green && least <= blue
            &&& least == red || least == green || least == blue
        }),
{
}

proof fn lemma_best_scale(
    list: Seq<u32>,
    pitch: Option<u64>,
    width: int,
    height: int,
    n: int,
)
    requires
        1 <= n <= list.len(),
    ensures
        exists|i: int|
            0 <= i < n && #[trigger] list[i] == best_scale(list, pitch, width, height, n),
        forall|i: int|
            0 <= i < n ==> scale_error(
                pitch,
                width,
                height,
                best_scale(list, pitch, width, height, n),
            ) <= scale_error(pitch, width, height, (#[trigger] list[i]) as int),
    decreases n,
{
    if n > 1 {
        lemma_best_scale(list, pitch, width, height, n - 1);
        let i = choose|i: int|
            0 <= i < n - 1 && #[trigger] list[i] == best_scale(list, pitch, width, height, n - 1);
        assert(list[i] == list[i] && list[n - 1] == list[n - 1]);
    } else {
        assert(list[0] == best_scale(list, pitch, width, height, n));
    }
}

proof fn lemma_rounding_error(n: int)
    requires
        0 <= n < 147_573_952_589_676_412_928,
    ensures
        apart(rounded(n, DOUBLE as int), n) <= 16_384,
        0 <= rounded(n, DOUBLE as int) <= n + 16_384,
{
    let d = DOUBLE as int;
    assert(two_to(14) == 16_384) by {
        reveal_with_fuel(two_to, 15);
    }
    lemma_spacing_divides(n, d, 14);
    let s = spacing(n, d);
    vstd::arithmetic::div_mod::lemma_fundamental_div_mod(16_384, s);
    assert(s <= 16_384) by (nonlinear_arith)
        requires
            16_384 == s * (16_384int / s),
            s >= 1,
    ;
    assert(1 * s == s);
    vstd::arithmetic::div_mod::lemma_fundamental_div_mod(n, s);
    vstd::arithmetic::div_mod::lemma_mod_bound(n, s);
    let q = n / s;
    assert(q * s == s * q && (q + 1) * s == s * q + s) by (nonlinear_arith);
    lemma_nearest(n, 1, s);
}

/// One pixel in the units of a pitch.
pub open spec fn one_pixel() -> int {
    4_503_599_627_370_496
}

/// Where a symbol was found, the preferred scale is one that the effort has, and
/// no other one comes closer to modules six pixels wide, but for rounding: by no
/// more than one part in two to the 36th of a pixel.
#[verifier::spinoff_prover]
#[verifier::rlimit(60)]
pub proof fn preferred_scales_aim_at_six_pixels(
    effort: Effort,
    pitch: u64,
    width: int,
    height: int,
    i: int,
)
    requires
        0 <= i < scales(effort).len(),
    ensures
        ({
            let chosen = preferred_scale(effort, Some(pitch), width, height);
            let target = 6 * one_pixel();
            &&& exists|j: int| 0 <= j < scales(effort).len() && #[trigger] scales(effort)[j]
                == chosen
            &&& apart(pitch * chosen, target) <= apart(pitch * scales(effort)[i], target) + 65_536
        }),
{
    let list = scales(effort);
    let n = list.len() as int;
    lemma_best_scale(list, Some(pitch), width, height, n);
    let chosen = preferred_scale(effort, Some(pitch), width, height);
    let j = choose|j: int|
        0 <= j < n && #[trigger] list[j] == best_scale(list, Some(pitch), width, height, n);
    let other = list[i] as int;
    assert(1 <= chosen <= 6 && 1 <= other <= 6);
    assert(0 <= pitch * chosen <= 6 * 18_446_744_073_709_551_615 && 0 <= pitch * other <= 6
        * 18_446_744_073_709_551_615) by (nonlinear_arith)
        requires
            0 <= pitch <= 18_446_744_073_709_551_615,
            1 <= chosen <= 6,
            1 <= other <= 6,
    ;
    lemma_rounding_error(pitch * chosen);
    lemma_rounding_error(pitch * other);
    let d = DOUBLE as int;
    let target = 6 * one_pixel();
    lemma_rounding_error(scale_distance(rounded(pitch * chosen, d), target));
    lemma_rounding_error(scale_distance(rounded(pitch * other, d), target));
    assert(scale_error(Some(pitch), width, height, chosen) <= scale_error(
        Some(pitch),
        width,
        height,
        list[i] as int,
    ));
}

/// Where no symbol was found, the size of the image decides: the shorter side
/// asks for three times its size below 170 pixels, for twice below 320, and for
/// the image as it is from there on. The effort's closest scale is preferred.
pub proof fn small_images_prefer_larger_scales(effort: Effort, width: int, height: int, i: int)
    requires
        0 <= i < scales(effort).len(),
    ensures
        ({
            let chosen = preferred_scale(effort, None, width, height);
            &&& exists|j: int| 0 <= j < scales(effort).len() && #[trigger] scales(effort)[j]
                == chosen
            &&& width >= 320 && height >= 320 ==> chosen == 1
            &&& (width < 320 || height < 320) && width >= 170 && height >= 170 ==> chosen == 2
            &&& width < 170 || height < 170 ==> apart(chosen, 3) <= apart(
                scales(effort)[i] as int,
                3,
            )
        }),
{
    let list = scales(effort);
    let n = list.len() as int;
    lemma_best_scale(list, None, width, height, n);
    let j = choose|j: int|
        0 <= j < n && #[trigger] list[j] == best_scale(list, None, width, height, n);
    assert(list[0] == 1 && list[1] == 2);
    assert(list[i] == list[i]);
    assert(scale_error(None, width, height, list[j] as int) <= scale_error(
        None,
        width,
        height,
        list[i] as int,
    ));
    assert(scale_error(None, width, height, list[j] as int) <= scale_error(
        None,
        width,
        height,
        list[0] as int,
    ));
    assert(scale_error(None, width, height, list[j] as int) <= scale_error(
        None,
        width,
        height,
        list[1] as int,
    ));
}

/// Of two channels that are looked at, the one that separates dark from light
/// better ranks first; of two that do so equally, the one whose name comes first.
pub proof fn better_channels_rank_first(effort: Effort, scores: Seq<i64>, a: Channel, b: Channel)
    requires
        scores.len() == 5,
        looks_at(effort, a),
        looks_at(effort, b),
        a != b,
    ensures
        scores[channel_index(a)] > scores[channel_index(b)] ==> channel_rank(effort, scores, a)
            < channel_rank(effort, scores, b),
        scores[channel_index(a)] == scores[channel_index(b)] ==> (channel_rank(effort, scores, a)
            < channel_rank(effort, scores, b) <==> alphabetical(a) < alphabetical(b)),
        channel_rank(effort, scores, a) < 5,
{
    lemma_rank_order(effort, scores, a, b);
    lemma_rank_order(effort, scores, b, a);
}

proof fn lemma_rank_order(effort: Effort, scores: Seq<i64>, a: Channel, b: Channel)
    requires
        looks_at(effort, a),
        looks_at(effort, b),
        a != b,
    ensures
        outranks(scores, a, b) ==> channel_rank(effort, scores, a) < channel_rank(
            effort,
            scores,
            b,
        ),
        outranks(scores, a, b) || outranks(scores, b, a),
        channel_rank(effort, scores, a) < 5,
{
    assert(alphabetical(a) != alphabetical(b));
    assert(!outranks(scores, a, a));
    if outranks(scores, a, b) {
        assert forall|c: Channel| #[trigger] outranked_by(effort, scores, c, a) <= outranked_by(
            effort,
            scores,
            c,
            b,
        ) by {
        }
        assert(outranked_by(effort, scores, a, b) == 1);
        assert(outranked_by(effort, scores, a, a) == 0);
    }
}

spec fn kind_part(recipe: Recipe) -> int {
    match recipe {
        Recipe::Standard { .. } => 1,
        _ => 0,
    }
}

spec fn rank_part(effort: Effort, scores: Seq<i64>, recipe: Recipe) -> int {
    match channel_of(recipe) {
        Some(channel) => channel_rank(effort, scores, channel),
        None => 6,
    }
}

proof fn lemma_key_parts(effort: Effort, scores: Seq<i64>, preferred: int, recipe: Recipe)
    requires
        0 <= preferred <= 0xffff_ffff,
    ensures
        sort_key(effort, scores, preferred, recipe) == ((recipe_stage(effort, recipe) * 4294967296
            + apart(scale_of(recipe), preferred)) * 2 + kind_part(recipe)) * 8 + rank_part(
            effort,
            scores,
            recipe,
        ),
        0 <= apart(scale_of(recipe), preferred) <= 0xffff_ffff,
        0 <= rank_part(effort, scores, recipe) < 8,
        0 <= recipe_stage(effort, recipe) <= 3,
{
    assert(0 <= scale_of(recipe) <= 0xffff_ffff);
    assert(scale_distance(scale_of(recipe), preferred) == apart(scale_of(recipe), preferred));
}

/// Within a stage, variants at scales closer to the preferred one come first; at
/// equally close ones calibrated variants come before the others, and of those the
/// ones in better channels.
pub proof fn sorted_plans_start_with_the_promising(
    effort: Effort,
    scores: Seq<i64>,
    preferred: int,
    plan: Seq<VariantSpec>,
    i: int,
    j: int,
)
    requires
        scores.len() == 5,
        0 <= preferred <= 0xffff_ffff,
        plan.len() <= usize::MAX,
        0 <= i < j < plan.len(),
    ensures
        ({
            let a = sorted_plan(effort, scores, preferred, plan)[i].recipe;
            let b = sorted_plan(effort, scores, preferred, plan)[j].recipe;
            let (near, far) = (apart(scale_of(a), preferred), apart(scale_of(b), preferred));
            &&& recipe_stage(effort, a) <= recipe_stage(effort, b)
            &&& recipe_stage(effort, a) == recipe_stage(effort, b) ==> near <= far
            &&& recipe_stage(effort, a) == recipe_stage(effort, b) && near == far
                && b is Calibrated && recipe_stage(effort, b) == 2 ==> a is Calibrated
            &&& recipe_stage(effort, a) == recipe_stage(effort, b) && near == far
                && a is Standard && b is Standard && looks_at(effort, a->Standard_channel)
                && looks_at(effort, b->Standard_channel)
                ==> scores[channel_index(a->Standard_channel)]
                >= scores[channel_index(b->Standard_channel)]
        }),
{
    let keys = sort_keys(effort, scores, preferred, plan);
    let order = stable_order(keys);
    let sorted = sorted_plan(effort, scores, preferred, plan);
    sorted_indices_in_order(keys, keys.len() as int);
    let (x, y) = (order[i] as int, order[j] as int);
    assert(keys[x] <= keys[y]);
    let (a, b) = (sorted[i].recipe, sorted[j].recipe);
    assert(sorted[i] == plan[x] && sorted[j] == plan[y]);
    assert(keys[x] == sort_key(effort, scores, preferred, a));
    assert(keys[y] == sort_key(effort, scores, preferred, b));
    lemma_promising(effort, scores, preferred, a, b);
    lemma_better_scores(effort, scores, a, b);
}

proof fn lemma_better_scores(effort: Effort, scores: Seq<i64>, a: Recipe, b: Recipe)
    requires
        scores.len() == 5,
    ensures
        a is Standard && b is Standard && looks_at(effort, a->Standard_channel) && looks_at(
            effort,
            b->Standard_channel,
        ) && rank_part(effort, scores, a) <= rank_part(effort, scores, b)
            ==> scores[channel_index(a->Standard_channel)]
            >= scores[channel_index(b->Standard_channel)],
{
    if a is Standard && b is Standard && looks_at(effort, a->Standard_channel) && looks_at(
        effort,
        b->Standard_channel,
    ) && a->Standard_channel != b->Standard_channel {
        better_channels_rank_first(effort, scores, b->Standard_channel, a->Standard_channel);
    }
}

proof fn lemma_promising(effort: Effort, scores: Seq<i64>, preferred: int, a: Recipe, b: Recipe)
    requires
        0 <= preferred <= 0xffff_ffff,
        scores.len() == 5,
        sort_key(effort, scores, preferred, a) <= sort_key(effort, scores, preferred, b),
    ensures
        ({
            let (near, far) = (apart(scale_of(a), preferred), apart(scale_of(b), preferred));
            &&& recipe_stage(effort, a) <= recipe_stage(effort, b)
            &&& recipe_stage(effort, a) == recipe_stage(effort, b) ==> near <= far
            &&& recipe_stage(effort, a) == recipe_stage(effort, b) && near == far ==> kind_part(a)
                <= kind_part(b)
            &&& recipe_stage(effort, a) == recipe_stage(effort, b) && near == far && kind_part(a)
                == kind_part(b) ==> rank_part(effort, scores, a) <= rank_part(effort, scores, b)
        }),
{
    lemma_key_parts(effort, scores, preferred, a);
    lemma_key_parts(effort, scores, preferred, b);
    lemma_lexicographic(
        (
            recipe_stage(effort, a),
            apart(scale_of(a), preferred),
            kind_part(a),
            rank_part(effort, scores, a),
        ),
        (
            recipe_stage(effort, b),
            apart(scale_of(b), preferred),
            kind_part(b),
            rank_part(effort, scores, b),
        ),
    );
}

proof fn lemma_lexicographic(a: (int, int, int, int), b: (int, int, int, int))
    requires
        0 <= a.1 < 4294967296,
        0 <= b.1 < 4294967296,
        0 <= a.2 <= 1,
        0 <= b.2 <= 1,
        0 <= a.3 < 8,
        0 <= b.3 < 8,
        ((a.0 * 4294967296 + a.1) * 2 + a.2) * 8 + a.3 <= ((b.0 * 4294967296 + b.1) * 2 + b.2) * 8
            + b.3,
    ensures
        a.0 <= b.0,
        a.0 == b.0 ==> a.1 <= b.1,
        a.0 == b.0 && a.1 == b.1 ==> a.2 <= b.2,
        a.0 == b.0 && a.1 == b.1 && a.2 == b.2 ==> a.3 <= b.3,
{
}

/// The luma of a sample is the byte nearest to its weighted brightness, and gray
/// samples look the same in every channel.
pub proof fn sampled_luma_is_weighted_brightness(red: u8, green: u8, blue: u8)
    ensures
        2 * apart(
            1000 * preflight_value(Channel::Luma, red, green, blue),
            brightness(red, green, blue),
        ) <= 1000,
        red == green && green == blue ==> preflight_value(Channel::Luma, red, green, blue) == red,
{
    let x = luma_units(red, green, blue);
    let t = UNIT as int;
    lemma_luma_units(red, green, blue);
    let c = preflight_value(Channel::Luma, red, green, blue) as int;
    let q = (2 * x + t) / (2 * t);
    vstd::arithmetic::div_mod::lemma_fundamental_div_mod(2 * x + t, 2 * t);
    vstd::arithmetic::div_mod::lemma_mod_bound(2 * x + t, 2 * t);
    assert(0 <= q <= 255) by (nonlinear_arith)
        requires
            2 * t * q <= 2 * x + t < 2 * t * q + 2 * t,
            0 <= x <= 255 * t + 1_073_741_824,
            t == 72057594037927936,
    ;
    assert(c == q);
    let w = brightness(red, green, blue);
    let m = 1000 * c - w;
    assert(1000 * (t * q) - w * UNIT == m * t) by (nonlinear_arith)
        requires
            m == 1000 * c - w,
            c == q,
            t == UNIT,
    ;
    assert((2 * t) * q == 2 * (t * q)) by (nonlinear_arith);
    assert(-1000 <= 2 * m <= 1000) by (nonlinear_arith)
        requires
            t == 72057594037927936,
            -1000 * t - 3_000_000_000_000 <= 2 * (m * t) <= 1000 * t + 3_000_000_000_000,
    ;
}

/// The `i`-th sample of a channel is taken from every so many-th pixel, and shows
/// the color of that pixel.
pub proof fn samples_show_their_pixels(picture: Picture, step: int, i: int)
    requires
        is_picture(picture),
        is_step(step, pixel_count(picture)),
        0 <= i,
        i * step < pixel_count(picture),
    ensures
        ({
            let p = i * step;
            &&& i < sampled_values(picture, Channel::Red).len()
            &&& sampled_values(picture, Channel::Red)[i] == red_at(picture, p)
            &&& sampled_values(picture, Channel::Green)[i] == green_at(picture, p)
            &&& sampled_values(picture, Channel::Blue)[i] == blue_at(picture, p)
        }),
{
    let n = pixel_count(picture);
    assert(n >= 1) by {
        assert(0 <= i * step) by (nonlinear_arith)
            requires
                0 <= i,
                1 <= step,
        ;
    }
    lemma_step(step, n);
    assert(i < sample_count(n)) by (nonlinear_arith)
        requires
            i * step < n,
            n <= sample_count(n) * step,
            step >= 1,
    ;
}

/// Channels are put in the order of their names.
pub proof fn channels_are_ordered_by_name(a: Channel, b: Channel)
    ensures
        alphabetical(a) < alphabetical(b) <==> text_before(channel_name(a), channel_name(b)),
{
    reveal_strlit("luma");
    reveal_strlit("red");
    reveal_strlit("green");
    reveal_strlit("blue");
    reveal_strlit("min");
    reveal_with_fuel(crate::phrases::text_before_from, 6);
}

proof fn lemma_pruned_holds(plan: Seq<VariantSpec>, achromatic: bool, n: int, k: int)
    requires
        0 <= k < n <= plan.len(),
        !achromatic || is_colorless(plan[k].recipe),
    ensures
        pruned(plan, achromatic, n).contains(plan[k]),
    decreases n,
{
    let before = pruned(plan, achromatic, n - 1);
    let after = pruned(plan, achromatic, n);
    if k < n - 1 {
        lemma_pruned_holds(plan, achromatic, n - 1, k);
        let i = choose|i: int| 0 <= i < before.len() && before[i] == plan[k];
        assert(after[i] == plan[k]);
    } else {
        assert(after[before.len() as int] == plan[k]);
    }
}

proof fn lemma_pruned_from(plan: Seq<VariantSpec>, achromatic: bool, n: int, variant: VariantSpec)
    requires
        0 <= n <= plan.len(),
        pruned(plan, achromatic, n).contains(variant),
    ensures
        plan.contains(variant),
        achromatic ==> is_colorless(variant.recipe),
    decreases n,
{
    let after = pruned(plan, achromatic, n);
    let i = choose|i: int| 0 <= i < after.len() && after[i] == variant;
    if n > 0 {
        let before = pruned(plan, achromatic, n - 1);
        if i < before.len() {
            assert(before[i] == variant);
            lemma_pruned_from(plan, achromatic, n - 1, variant);
        } else {
            assert(plan[n - 1] == variant);
        }
    }
}

proof fn lemma_named_holds(
    plan: Seq<VariantSpec>,
    other: Seq<VariantSpec>,
    n: int,
    variant: VariantSpec,
)
    requires
        0 <= n <= plan.len(),
    ensures
        plan.take(n).contains(variant) <==> named_in(plan, other, true, n).contains(variant)
            || named_in(plan, other, false, n).contains(variant),
    decreases n,
{
    if n > 0 {
        lemma_named_holds(plan, other, n - 1, variant);
        let (a, b) = (named_in(plan, other, true, n - 1), named_in(plan, other, false, n - 1));
        let (c, d) = (named_in(plan, other, true, n), named_in(plan, other, false, n));
        let (s, t) = (plan.take(n - 1), plan.take(n));
        assert(t =~= s.push(plan[n - 1]));
        lemma_push_contains(s, plan[n - 1], variant);
        lemma_push_contains(a, plan[n - 1], variant);
        lemma_push_contains(b, plan[n - 1], variant);
        assert(c == a.push(plan[n - 1]) && d == b || c == a && d == b.push(plan[n - 1]));
    }
}

proof fn lemma_push_contains(list: Seq<VariantSpec>, last: VariantSpec, variant: VariantSpec)
    ensures
        list.push(last).contains(variant) <==> list.contains(variant) || last == variant,
{
    let longer = list.push(last);
    if list.contains(variant) {
        let i = choose|i: int| 0 <= i < list.len() && list[i] == variant;
        assert(longer[i] == variant);
    }
    if last == variant {
        assert(longer[list.len() as int] == variant);
    }
    if longer.contains(variant) {
        let i = choose|i: int| 0 <= i < longer.len() && longer[i] == variant;
        if i < list.len() {
            assert(list[i] == variant);
        }
    }
}

proof fn lemma_sorted_holds(
    effort: Effort,
    scores: Seq<i64>,
    preferred: int,
    plan: Seq<VariantSpec>,
    variant: VariantSpec,
)
    requires
        plan.len() <= usize::MAX,
    ensures
        plan.contains(variant) <==> sorted_plan(effort, scores, preferred, plan).contains(variant),
{
    let keys = sort_keys(effort, scores, preferred, plan);
    let n = plan.len() as int;
    let order = stable_order(keys);
    let sorted = sorted_plan(effort, scores, preferred, plan);
    sorted_indices_in_order(keys, n);
    if plan.contains(variant) {
        let k = choose|k: int| 0 <= k < n && plan[k] == variant;
        sorting_keeps_all(keys, n, k as usize);
        let i = choose|i: int| 0 <= i < order.len() && order[i] == k as usize;
        assert(sorted[i] == variant);
    }
    if sorted.contains(variant) {
        let i = choose|i: int| 0 <= i < n && sorted[i] == variant;
        assert(plan[order[i] as int] == variant);
    }
}

/// A search tries exactly the variants of the plan of its effort, without the color
/// channels of an achromatic image.
pub proof fn searches_try_what_was_planned(
    effort: Effort,
    achromatic: bool,
    scores: Seq<i64>,
    pitch: Option<u64>,
    width: int,
    height: int,
    variant: VariantSpec,
)
    ensures
        prioritized(effort, achromatic, scores, pitch, width, height).contains(variant)
            <==> variant_plan(effort).contains(variant) && (achromatic ==> is_colorless(
            variant.recipe,
        )),
{
    let whole = variant_plan(effort);
    let plan = pruned(whole, achromatic, whole.len() as int);
    let preferred = preferred_scale(effort, pitch, width, height);
    let result = prioritized(effort, achromatic, scores, pitch, width, height);
    plans_have_their_length();
    lemma_pruned_length(whole, achromatic, whole.len() as int);
    if plan.contains(variant) {
        lemma_pruned_from(whole, achromatic, whole.len() as int, variant);
    }
    if whole.contains(variant) && (achromatic ==> is_colorless(variant.recipe)) {
        let k = choose|k: int| 0 <= k < whole.len() && whole[k] == variant;
        lemma_pruned_holds(whole, achromatic, whole.len() as int, k);
    }
    if effort == Effort::Thorough {
        let balanced = variant_plan(Effort::Balanced);
        let n = plan.len() as int;
        let a = named_in(plan, balanced, true, n);
        let b = named_in(plan, balanced, false, n);
        lemma_named_length(plan, balanced, true, n);
        lemma_named_length(plan, balanced, false, n);
        let near = preferred_scale(Effort::Balanced, pitch, width, height);
        lemma_sorted_holds(effort, scores, near, a, variant);
        lemma_sorted_holds(effort, scores, preferred, b, variant);
        lemma_named_holds(plan, balanced, n, variant);
        assert(plan.take(n) =~= plan);
        let (first, second) = (
            sorted_plan(effort, scores, near, a),
            sorted_plan(effort, scores, preferred, b),
        );
        assert(result == first + second);
        if first.contains(variant) {
            let i = choose|i: int| 0 <= i < first.len() && first[i] == variant;
            assert(result[i] == variant);
        }
        if second.contains(variant) {
            let i = choose|i: int| 0 <= i < second.len() && second[i] == variant;
            assert(result[first.len() + i] == variant);
        }
        if result.contains(variant) {
            let i = choose|i: int| 0 <= i < result.len() && result[i] == variant;
            if i < first.len() {
                assert(first[i] == variant);
            } else {
                assert(second[i - first.len()] == variant);
            }
        }
    } else {
        lemma_sorted_holds(effort, scores, preferred, plan, variant);
    }
}

proof fn lemma_pruned_length(plan: Seq<VariantSpec>, achromatic: bool, n: int)
    requires
        0 <= n,
    ensures
        pruned(plan, achromatic, n).len() <= n,
    decreases n,
{
    if n > 0 {
        lemma_pruned_length(plan, achromatic, n - 1);
    }
}

proof fn lemma_named_length(
    plan: Seq<VariantSpec>,
    other: Seq<VariantSpec>,
    included: bool,
    n: int,
)
    requires
        0 <= n,
    ensures
        named_in(plan, other, included, n).len() <= n,
    decreases n,
{
    if n > 0 {
        lemma_named_length(plan, other, included, n - 1);
    }
}

} // verus!
