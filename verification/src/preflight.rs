//! What a first look at an image says about the order of its variants.

use vstd::prelude::*;

use crate::effort::{channels, effort_profile, scales, Channel, Effort, EffortProfile};
use crate::image::{
    is_picture, luma_units, luma_units_of, pixel_count, tally, Picture, WasmImage, UNIT,
};
use crate::order::{in_order, placed, sorted_indices, stable_order, stable_order_of};
use crate::plan::{
    build_variant_plan, channel_of, extended, has_name, inverted_variant, own_plan,
    primary_adaptive, recipe_name, scale_of, thorough_extends_balanced, thorough_tries_more,
    variant_channel, variant_plan, variant_scale, Recipe, Terminal, VariantSpec,
};
use crate::plan_length::{
    colorless_count, distinct_names, is_colorless, names_tell_variants_apart,
    plans_have_their_colorless_part, plans_have_their_length,
};
use crate::rounding::{round_to, rounded, DOUBLE};

verus! {

/// At most this many pixels are looked at, evenly spread.
pub const SAMPLE_LIMIT: usize = 65_536;

/// The byte nearest to a number of kernel units, ties upwards.
pub open spec fn nearest_byte(units: int) -> u8 {
    let byte = (2 * units + UNIT) / (2 * UNIT as int);
    if byte > 255 {
        255
    } else {
        byte as u8
    }
}

/// What a pixel is taken for in the given channel.
pub open spec fn preflight_value(channel: Channel, red: u8, green: u8, blue: u8) -> u8 {
    match channel {
        Channel::Red => red,
        Channel::Green => green,
        Channel::Blue => blue,
        Channel::Min => smallest_of(red, green, blue),
        Channel::Luma => nearest_byte(luma_units(red, green, blue)),
    }
}

/// The smallest of three values.
pub open spec fn smallest_of(a: u8, b: u8, c: u8) -> u8 {
    if a <= b && a <= c {
        a
    } else if b <= c {
        b
    } else {
        c
    }
}

/// The largest of three values.
pub open spec fn largest_of(a: u8, b: u8, c: u8) -> u8 {
    if a >= b && a >= c {
        a
    } else if b >= c {
        b
    } else {
        c
    }
}

/// The distance between the pixels looked at.
pub open spec fn sample_stride(pixels: int) -> int {
    (pixels + SAMPLE_LIMIT - 1) / SAMPLE_LIMIT as int
}

/// How many pixels are looked at.
pub open spec fn sample_count(pixels: int) -> int {
    (pixels + sample_stride(pixels) - 1) / sample_stride(pixels)
}

/// How far apart the color channels of the `i`-th pixel looked at are.
pub open spec fn sample_chroma(picture: Picture, i: int) -> int {
    let at = 4 * (i * sample_stride(pixel_count(picture)));
    let (r, g, b) = (picture.pixels[at], picture.pixels[at + 1], picture.pixels[at + 2]);
    largest_of(r, g, b) - smallest_of(r, g, b)
}

/// The chroma of the first `n` pixels looked at, in all.
pub open spec fn chroma_sum(picture: Picture, n: int) -> int
    decreases n,
{
    if n <= 0 {
        0
    } else {
        chroma_sum(picture, n - 1) + sample_chroma(picture, n - 1)
    }
}

/// How many of the first `n` pixels looked at are colorful.
pub open spec fn colorful_count(picture: Picture, n: int) -> int
    decreases n,
{
    if n <= 0 {
        0
    } else {
        colorful_count(picture, n - 1) + (if sample_chroma(picture, n - 1) > 12 {
            1int
        } else {
            0
        })
    }
}

/// Whether an image has no color worth looking at: the mean chroma is at most
/// 6, and at most one pixel in fifty is colorful.
pub open spec fn is_achromatic(picture: Picture) -> bool {
    let n = sample_count(pixel_count(picture));
    chroma_sum(picture, n) <= 6 * n && 50 * colorful_count(picture, n) <= n
}

/// The values of the pixels looked at in one channel.
pub open spec fn sampled_values(picture: Picture, channel: Channel) -> Seq<u8> {
    Seq::new(
        sample_count(pixel_count(picture)) as nat,
        |i: int|
            {
                let at = 4 * (i * sample_stride(pixel_count(picture)));
                preflight_value(
                    channel,
                    picture.pixels[at],
                    picture.pixels[at + 1],
                    picture.pixels[at + 2],
                )
            },
    )
}

/// The place of a channel in lists of scores and histograms.
pub open spec fn channel_index(channel: Channel) -> int {
    match channel {
        Channel::Luma => 0,
        Channel::Red => 1,
        Channel::Green => 2,
        Channel::Blue => 3,
        Channel::Min => 4,
    }
}

/// The place of a channel's name in the alphabet.
pub open spec fn alphabetical(channel: Channel) -> int {
    match channel {
        Channel::Blue => 0,
        Channel::Green => 1,
        Channel::Luma => 2,
        Channel::Min => 3,
        Channel::Red => 4,
    }
}

/// Whether an effort looks at a channel.
pub open spec fn looks_at(effort: Effort, channel: Channel) -> bool {
    channel == Channel::Luma || channels(effort).contains(channel)
}

/// Whether `a` is more promising than `b`: it separates dark from light better,
/// or as well and comes first in the alphabet.
pub open spec fn outranks(scores: Seq<i64>, a: Channel, b: Channel) -> bool {
    scores[channel_index(a)] > scores[channel_index(b)] || (scores[channel_index(a)]
        == scores[channel_index(b)] && alphabetical(a) < alphabetical(b))
}

/// One if the effort looks at `a` and it outranks `b`.
pub open spec fn outranked_by(effort: Effort, scores: Seq<i64>, a: Channel, b: Channel) -> int {
    if looks_at(effort, a) && outranks(scores, a, b) {
        1
    } else {
        0
    }
}

/// How many channels outrank the given one; one that is not looked at comes
/// after all others.
pub open spec fn channel_rank(effort: Effort, scores: Seq<i64>, channel: Channel) -> int {
    if looks_at(effort, channel) {
        outranked_by(effort, scores, Channel::Luma, channel) + outranked_by(
            effort,
            scores,
            Channel::Red,
            channel,
        ) + outranked_by(effort, scores, Channel::Green, channel) + outranked_by(
            effort,
            scores,
            Channel::Blue,
            channel,
        ) + outranked_by(effort, scores, Channel::Min, channel)
    } else {
        5
    }
}

/// The distance of two scales.
pub open spec fn scale_distance(a: int, b: int) -> int {
    if a >= b {
        a - b
    } else {
        b - a
    }
}

/// The stage at which a variant is tried: the image itself, its channels, what
/// covers every channel and scale (calibrated variants, contrast, Otsu's threshold
/// and the primary adaptive threshold), and everything else.
pub open spec fn recipe_stage(effort: Effort, recipe: Recipe) -> int {
    match recipe {
        Recipe::Original => 0,
        Recipe::Channel { channel } => 1,
        Recipe::Calibrated { .. } => 2,
        Recipe::Standard { channel, scale, terminal } => match terminal {
            Terminal::Identity => 2,
            Terminal::Otsu => 2,
            Terminal::Adaptive { window, bias } => if (window, bias) == primary_adaptive(effort) {
                2
            } else {
                3
            },
            _ => 3,
        },
    }
}

/// Whether a plan goes through the stages in their order: nothing else is tried
/// before every channel and scale is covered.
pub open spec fn covers_first(effort: Effort, plan: Seq<VariantSpec>) -> bool {
    forall|i: int, j: int|
        0 <= i < j < plan.len() ==> recipe_stage(effort, (#[trigger] plan[i]).recipe)
            <= recipe_stage(effort, (#[trigger] plan[j]).recipe)
}

/// The number by which a variant is sorted: its stage first, then the scale
/// nearest to the preferred one, then calibrated before other variants, then the
/// channel's rank.
pub open spec fn sort_key(
    effort: Effort,
    scores: Seq<i64>,
    preferred: int,
    recipe: Recipe,
) -> i64 {
    let kind = match recipe {
        Recipe::Standard { .. } => 1int,
        _ => 0,
    };
    let rank = match channel_of(recipe) {
        Some(channel) => channel_rank(effort, scores, channel),
        None => 6,
    };
    (((recipe_stage(effort, recipe) * 4294967296 + scale_distance(scale_of(recipe), preferred)) * 2
        + kind) * 8 + rank) as i64
}

/// The sort keys of a plan.
pub open spec fn sort_keys(
    effort: Effort,
    scores: Seq<i64>,
    preferred: int,
    plan: Seq<VariantSpec>,
) -> Seq<i64> {
    Seq::new(plan.len(), |i: int| sort_key(effort, scores, preferred, plan[i].recipe))
}

/// A plan in the order of its sort keys; equal keys keep their order.
pub open spec fn sorted_plan(
    effort: Effort,
    scores: Seq<i64>,
    preferred: int,
    plan: Seq<VariantSpec>,
) -> Seq<VariantSpec> {
    let order = stable_order(sort_keys(effort, scores, preferred, plan));
    Seq::new(plan.len(), |i: int| plan[order[i] as int])
}

/// The first `n` variants of a plan, without the color channels of an achromatic
/// image.
pub open spec fn pruned(plan: Seq<VariantSpec>, achromatic: bool, n: int) -> Seq<VariantSpec>
    decreases n,
{
    if n <= 0 {
        Seq::empty()
    } else if achromatic && !is_colorless(plan[n - 1].recipe) {
        pruned(plan, achromatic, n - 1)
    } else {
        pruned(plan, achromatic, n - 1).push(plan[n - 1])
    }
}

/// Those of the first `n` variants that have (or have not) the name of a
/// variant of `other`.
pub open spec fn named_in(
    plan: Seq<VariantSpec>,
    other: Seq<VariantSpec>,
    included: bool,
    n: int,
) -> Seq<VariantSpec>
    decreases n,
{
    if n <= 0 {
        Seq::empty()
    } else if has_name(other, recipe_name(plan[n - 1].recipe)) == included {
        named_in(plan, other, included, n - 1).push(plan[n - 1])
    } else {
        named_in(plan, other, included, n - 1)
    }
}

/// The scale to prefer where no symbol was found: the smaller the image, the
/// larger.
pub open spec fn fallback_scale(width: int, height: int) -> int {
    let side = if width <= height {
        width
    } else {
        height
    };
    if side < 170 {
        3
    } else if side < 320 {
        2
    } else {
        1
    }
}

/// Six pixels in the units of a pitch, of which two to the 52nd make a pixel.
pub const TARGET_PITCH: u128 = 27_021_597_764_222_976;

/// How far a scale is from making a module six pixels wide. A pitch is a
/// double-precision number of pixels per module.
pub open spec fn scale_error(pitch: Option<u64>, width: int, height: int, scale: int) -> int {
    match pitch {
        Some(pitch) => rounded(
            scale_distance(rounded(pitch * scale, DOUBLE as int), TARGET_PITCH as int),
            DOUBLE as int,
        ),
        None => scale_distance(scale, fallback_scale(width, height)),
    }
}

/// The first of the first `n` scales with the smallest error.
pub open spec fn best_scale(
    list: Seq<u32>,
    pitch: Option<u64>,
    width: int,
    height: int,
    n: int,
) -> int
    decreases n,
{
    if n <= 1 {
        list[0] as int
    } else {
        let before = best_scale(list, pitch, width, height, n - 1);
        if scale_error(pitch, width, height, list[n - 1] as int) < scale_error(
            pitch,
            width,
            height,
            before,
        ) {
            list[n - 1] as int
        } else {
            before
        }
    }
}

/// The scale that an effort prefers.
pub open spec fn preferred_scale(
    effort: Effort,
    pitch: Option<u64>,
    width: int,
    height: int,
) -> int {
    best_scale(scales(effort), pitch, width, height, scales(effort).len() as int)
}

/// The variants of an image in the order in which they are tried. A thorough
/// search goes through the balanced variants first.
pub open spec fn prioritized(
    effort: Effort,
    achromatic: bool,
    scores: Seq<i64>,
    pitch: Option<u64>,
    width: int,
    height: int,
) -> Seq<VariantSpec> {
    let plan = pruned(variant_plan(effort), achromatic, variant_plan(effort).len() as int);
    let preferred = preferred_scale(effort, pitch, width, height);
    if effort == Effort::Thorough {
        let balanced = variant_plan(Effort::Balanced);
        sorted_plan(
            effort,
            scores,
            preferred_scale(Effort::Balanced, pitch, width, height),
            named_in(plan, balanced, true, plan.len() as int),
        ) + sorted_plan(
            effort,
            scores,
            preferred,
            named_in(plan, balanced, false, plan.len() as int),
        )
    } else {
        sorted_plan(effort, scores, preferred, plan)
    }
}

/// What a first look at an image finds.
#[derive(Debug)]
pub struct Preflight {
    pub achromatic: bool,
    pub samples: usize,
    /// How often each value occurs, for luma, red, green, blue and their
    /// minimum.
    pub histograms: Vec<Vec<usize>>,
}

proof fn lemma_sample_count(pixels: int)
    requires
        1 <= pixels <= 16777216,
    ensures
        1 <= sample_stride(pixels) <= 256,
        1 <= sample_count(pixels) <= pixels,
        sample_count(pixels) <= SAMPLE_LIMIT,
{
    let s = sample_stride(pixels);
    let n = sample_count(pixels);
    assert(1 <= s <= 256);
    vstd::arithmetic::div_mod::lemma_fundamental_div_mod(pixels + s - 1, s);
    let r = (pixels + s - 1) % s;
    assert(1 <= n <= pixels) by (nonlinear_arith)
        requires
            pixels + s - 1 == s * n + r,
            0 <= r < s,
            1 <= s,
            1 <= pixels,
    ;
    vstd::arithmetic::div_mod::lemma_fundamental_div_mod(
        pixels + SAMPLE_LIMIT - 1,
        SAMPLE_LIMIT as int,
    );
    assert(pixels <= s * 65536);
    assert(n <= 65536) by (nonlinear_arith)
        requires
            pixels + s - 1 == s * n + r,
            0 <= r,
            1 <= s,
            pixels <= s * 65536,
    ;
}

proof fn lemma_samples(pixels: int, i: int)
    requires
        1 <= pixels <= 16777216,
        0 <= i < sample_count(pixels),
    ensures
        0 <= i * sample_stride(pixels) < pixels,
{
    lemma_sample_count(pixels);
    let s = sample_stride(pixels);
    let n = sample_count(pixels);
    vstd::arithmetic::div_mod::lemma_fundamental_div_mod(pixels + s - 1, s);
    let r = (pixels + s - 1) % s;
    assert(0 <= i * s < pixels) by (nonlinear_arith)
        requires
            pixels + s - 1 == s * n + r,
            0 <= r < s,
            0 <= i < n,
            1 <= s,
            1 <= pixels,
    ;
}

fn nearest_byte_of(units: u128) -> (byte: u8)
    requires
        units <= 0xffff_ffff_ffff_ffff_ffff,
    ensures
        byte == nearest_byte(units as int),
{
    let byte: u128 = (2 * units + UNIT) / (2 * UNIT);
    if byte > 255 {
        255
    } else {
        byte as u8
    }
}

fn add_to(histogram: &mut Vec<usize>, value: u8)
    requires
        old(histogram)@.len() == 256,
        old(histogram)@[value as int] < usize::MAX,
    ensures
        final(histogram)@ == old(histogram)@.update(
            value as int,
            (old(histogram)@[value as int] + 1) as usize,
        ),
{
    let count: usize = histogram[value as usize];
    histogram.set(value as usize, count + 1);
}

/// Whether a list counts how often each of the first `n` values occurs.
pub open spec fn counts(histogram: Seq<usize>, values: Seq<u8>, n: int) -> bool {
    &&& histogram.len() == 256
    &&& forall|v: int| 0 <= v < 256 ==> #[trigger] histogram[v] == tally(values, v, v, n)
    &&& forall|v: int| 0 <= v < 256 ==> #[trigger] histogram[v] <= n
}

/// Looks at an image: whether it has color, and how its values are distributed.
pub fn analyze_preflight(source: &WasmImage) -> (found: Preflight)
    ensures
        found.achromatic == is_achromatic(source@),
        found.samples == sample_count(pixel_count(source@)),
        found.samples <= SAMPLE_LIMIT,
        found.histograms@.len() == 5,
        forall|channel: Channel|
            counts(
                #[trigger] found.histograms@[channel_index(channel)]@,
                sampled_values(source@, channel),
                found.samples as int,
            ),
{
    let pixels: Vec<u8> = source.pixels();
    let ghost picture = source@;
    let width: u32 = source.width();
    let height: u32 = source.height();
    proof {
        assert(1 <= width * height <= 16777216) by (nonlinear_arith)
            requires
                1 <= width <= 4096,
                1 <= height <= 4096,
        ;
    }
    let count: usize = width as usize * height as usize;
    let stride: usize = (count + SAMPLE_LIMIT - 1) / SAMPLE_LIMIT;
    let samples: usize = (count + stride - 1) / stride;
    let mut luma: Vec<usize> = vec![0usize; 256];
    let mut red: Vec<usize> = vec![0usize; 256];
    let mut green: Vec<usize> = vec![0usize; 256];
    let mut blue: Vec<usize> = vec![0usize; 256];
    let mut least: Vec<usize> = vec![0usize; 256];
    let mut chroma_total: usize = 0;
    let mut colorful: usize = 0;
    let mut i: usize = 0;
    proof {
        lemma_sample_count(count as int);
    }
    while i < samples
        invariant
            picture == source@,
            is_picture(picture),
            pixels@ == picture.pixels,
            1 <= count == pixel_count(picture) <= 16777216,
            stride == sample_stride(count as int),
            samples == sample_count(count as int),
            1 <= samples <= count,
            i <= samples,
            counts(luma@, sampled_values(picture, Channel::Luma), i as int),
            counts(red@, sampled_values(picture, Channel::Red), i as int),
            counts(green@, sampled_values(picture, Channel::Green), i as int),
            counts(blue@, sampled_values(picture, Channel::Blue), i as int),
            counts(least@, sampled_values(picture, Channel::Min), i as int),
            chroma_total == chroma_sum(picture, i as int),
            chroma_total <= 255 * i,
            colorful == colorful_count(picture, i as int),
            colorful <= i,
        decreases samples - i,
    {
        proof {
            lemma_samples(count as int, i as int);
        }
        let at: usize = 4 * (i * stride);
        let (r, g, b): (u8, u8, u8) = (pixels[at], pixels[at + 1], pixels[at + 2]);
        let largest: u8 = if r >= g && r >= b {
            r
        } else if g >= b {
            g
        } else {
            b
        };
        let smallest: u8 = if r <= g && r <= b {
            r
        } else if g <= b {
            g
        } else {
            b
        };
        let chroma: usize = (largest - smallest) as usize;
        chroma_total += chroma;
        if chroma > 12 {
            colorful += 1;
        }
        add_to(&mut luma, nearest_byte_of(luma_units_of(r, g, b)));
        add_to(&mut red, r);
        add_to(&mut green, g);
        add_to(&mut blue, b);
        add_to(&mut least, smallest);
        i += 1;
    }
    let achromatic: bool = chroma_total <= 6 * samples && 50 * colorful <= samples;
    let mut histograms: Vec<Vec<usize>> = Vec::new();
    histograms.push(luma);
    histograms.push(red);
    histograms.push(green);
    histograms.push(blue);
    histograms.push(least);
    proof {
        assert forall|channel: Channel|
            counts(
                #[trigger] histograms@[channel_index(channel)]@,
                sampled_values(source@, channel),
                samples as int,
            ) by {
            match channel {
                Channel::Luma => {},
                Channel::Red => {},
                Channel::Green => {},
                Channel::Blue => {},
                Channel::Min => {},
            }
        }
    }
    Preflight { achromatic, samples, histograms }
}

fn scale_error_of(pitch: Option<u64>, width: u32, height: u32, scale: u32) -> (error: u128)
    ensures
        error == scale_error(pitch, width as int, height as int, scale as int),
{
    match pitch {
        Some(pitch) => {
            assert(0 <= pitch * scale <= 0xffff_ffff_ffff_ffff * 0xffff_ffff) by (nonlinear_arith)
                requires
                    0 <= pitch <= 0xffff_ffff_ffff_ffff,
                    0 <= scale <= 0xffff_ffff,
            ;
            let product: u128 = pitch as u128 * scale as u128;
            let wide: u128 = round_to(product, DOUBLE);
            round_to(
                if wide >= TARGET_PITCH {
                    wide - TARGET_PITCH
                } else {
                    TARGET_PITCH - wide
                },
                DOUBLE,
            )
        },
        None => {
            let side: u32 = if width <= height {
                width
            } else {
                height
            };
            let fallback: u32 = if side < 170 {
                3
            } else if side < 320 {
                2
            } else {
                1
            };
            (if scale >= fallback {
                scale - fallback
            } else {
                fallback - scale
            }) as u128
        },
    }
}

/// The scale that an effort prefers for an image of the given size. The pitch of
/// a symbol's modules counts units of 2^-52 pixels.
pub fn preferred_scale_for(effort: Effort, pitch: Option<u64>, width: u32, height: u32) -> (scale:
    u32)
    ensures
        scale == preferred_scale(effort, pitch, width as int, height as int),
{
    let profile: EffortProfile = effort_profile(effort);
    let mut best: u32 = profile.scales[0];
    let mut n: usize = 1;
    while n < profile.scales.len()
        invariant
            profile.scales@ == scales(effort),
            1 <= n <= profile.scales@.len(),
            best == best_scale(
                scales(effort),
                pitch,
                width as int,
                height as int,
                n as int,
            ),
        decreases profile.scales@.len() - n,
    {
        let scale: u32 = profile.scales[n];
        if scale_error_of(pitch, width, height, scale) < scale_error_of(
            pitch,
            width,
            height,
            best,
        ) {
            best = scale;
        }
        n += 1;
    }
    best
}

fn index_of_channel(channel: Channel) -> (index: usize)
    ensures
        index == channel_index(channel),
        index < 5,
{
    match channel {
        Channel::Luma => 0,
        Channel::Red => 1,
        Channel::Green => 2,
        Channel::Blue => 3,
        Channel::Min => 4,
    }
}

fn alphabetical_of(channel: Channel) -> (place: usize)
    ensures
        place == alphabetical(channel),
{
    match channel {
        Channel::Blue => 0,
        Channel::Green => 1,
        Channel::Luma => 2,
        Channel::Min => 3,
        Channel::Red => 4,
    }
}

proof fn lemma_looks_at(effort: Effort, channel: Channel)
    ensures
        looks_at(effort, channel) == (match channel {
            Channel::Luma => true,
            Channel::Min => effort == Effort::Thorough,
            _ => effort != Effort::Fast,
        }),
{
    let list = channels(effort);
    match effort {
        Effort::Fast => {
            assert(list.len() == 1 && list[0] == Channel::Luma);
        },
        Effort::Balanced => {
            assert(list.len() == 4 && list[0] == Channel::Luma && list[1] == Channel::Green
                && list[2] == Channel::Red && list[3] == Channel::Blue);
        },
        Effort::Thorough => {
            assert(list.len() == 5 && list[0] == Channel::Luma && list[1] == Channel::Green
                && list[2] == Channel::Red && list[3] == Channel::Blue && list[4] == Channel::Min);
        },
    }
}

fn looks_at_channel(effort: Effort, channel: Channel) -> (looks: bool)
    ensures
        looks == looks_at(effort, channel),
{
    proof {
        lemma_looks_at(effort, channel);
    }
    match channel {
        Channel::Luma => true,
        Channel::Min => effort == Effort::Thorough,
        _ => effort != Effort::Fast,
    }
}

fn outranked_by_of(effort: Effort, scores: &Vec<i64>, a: Channel, b: Channel) -> (one: i64)
    requires
        scores@.len() == 5,
    ensures
        one == outranked_by(effort, scores@, a, b),
        0 <= one <= 1,
{
    let (mine, other): (i64, i64) = (scores[index_of_channel(a)], scores[index_of_channel(b)]);
    if looks_at_channel(effort, a) && (mine > other || (mine == other && alphabetical_of(a)
        < alphabetical_of(b))) {
        1
    } else {
        0
    }
}

fn channel_rank_of(effort: Effort, scores: &Vec<i64>, channel: Channel) -> (rank: i64)
    requires
        scores@.len() == 5,
    ensures
        rank == channel_rank(effort, scores@, channel),
        0 <= rank <= 5,
{
    if looks_at_channel(effort, channel) {
        outranked_by_of(effort, scores, Channel::Luma, channel) + outranked_by_of(
            effort,
            scores,
            Channel::Red,
            channel,
        ) + outranked_by_of(effort, scores, Channel::Green, channel) + outranked_by_of(
            effort,
            scores,
            Channel::Blue,
            channel,
        ) + outranked_by_of(effort, scores, Channel::Min, channel)
    } else {
        5
    }
}

fn stage_of(effort: Effort, variant: &VariantSpec) -> (stage: i64)
    ensures
        stage == recipe_stage(effort, variant.recipe),
        0 <= stage <= 3,
{
    match variant.recipe {
        Recipe::Original => 0,
        Recipe::Channel { .. } => 1,
        Recipe::Calibrated { .. } => 2,
        Recipe::Standard { terminal, .. } => match terminal {
            Terminal::Identity => 2,
            Terminal::Otsu => 2,
            Terminal::Adaptive { window, bias } => {
                let primary: u32 = if effort == Effort::Fast {
                    21
                } else {
                    25
                };
                if window == primary && bias == 5 {
                    2
                } else {
                    3
                }
            },
            _ => 3,
        },
    }
}

fn sort_key_of(effort: Effort, scores: &Vec<i64>, preferred: u32, variant: &VariantSpec) -> (key:
    i64)
    requires
        scores@.len() == 5,
    ensures
        key == sort_key(effort, scores@, preferred as int, variant.recipe),
{
    let stage: i64 = stage_of(effort, variant);
    let kind: i64 = match variant.recipe {
        Recipe::Standard { .. } => 1,
        _ => 0,
    };
    let rank: i64 = match variant_channel(variant) {
        Some(channel) => channel_rank_of(effort, scores, channel),
        None => 6,
    };
    let scale: u32 = variant_scale(variant);
    let distance: i64 = if scale >= preferred {
        (scale - preferred) as i64
    } else {
        (preferred - scale) as i64
    };
    ((stage * 4294967296 + distance) * 2 + kind) * 8 + rank
}

/// Sorts a plan by stage, scale, kind and channel.
pub fn sort_variant_plan(
    plan: &Vec<VariantSpec>,
    effort: Effort,
    preferred: u32,
    scores: &Vec<i64>,
) -> (sorted: Vec<VariantSpec>)
    requires
        scores@.len() == 5,
    ensures
        sorted@ == sorted_plan(effort, scores@, preferred as int, plan@),
        covers_first(effort, sorted@),
{
    let ghost all = sort_keys(effort, scores@, preferred as int, plan@);
    let mut keys: Vec<i64> = Vec::new();
    let mut i: usize = 0;
    while i < plan.len()
        invariant
            scores@.len() == 5,
            all == sort_keys(effort, scores@, preferred as int, plan@),
            i <= plan@.len(),
            keys@ == all.take(i as int),
        decreases plan@.len() - i,
    {
        keys.push(sort_key_of(effort, scores, preferred, &plan[i]));
        i += 1;
        assert(keys@ =~= all.take(i as int));
    }
    assert(keys@ =~= all);
    let order: Vec<usize> = stable_order_of(&keys);
    let mut sorted: Vec<VariantSpec> = Vec::new();
    let ghost target = sorted_plan(effort, scores@, preferred as int, plan@);
    let mut i: usize = 0;
    while i < order.len()
        invariant
            order@ == stable_order(all),
            all == sort_keys(effort, scores@, preferred as int, plan@),
            in_order(order@, all, plan@.len() as int),
            target == sorted_plan(effort, scores@, preferred as int, plan@),
            i <= order@.len(),
            sorted@ == target.take(i as int),
        decreases order@.len() - i,
    {
        assert(order@[i as int] < plan@.len());
        sorted.push(plan[order[i]]);
        i += 1;
        assert(sorted@ =~= target.take(i as int));
    }
    assert(sorted@ =~= target);
    proof {
        sorted_plans_cover_first(effort, scores@, preferred as int, plan@);
    }
    sorted
}

/// A sorted plan covers every channel and scale before it tries anything else.
pub proof fn sorted_plans_cover_first(
    effort: Effort,
    scores: Seq<i64>,
    preferred: int,
    plan: Seq<VariantSpec>,
)
    requires
        scores.len() == 5,
        0 <= preferred <= 0xffff_ffff,
        plan.len() <= usize::MAX,
    ensures
        covers_first(effort, sorted_plan(effort, scores, preferred, plan)),
{
    let keys = sort_keys(effort, scores, preferred, plan);
    let order = stable_order(keys);
    let sorted = sorted_plan(effort, scores, preferred, plan);
    crate::order::sorted_indices_in_order(keys, keys.len() as int);
    assert forall|i: int, j: int| 0 <= i < j < sorted.len() implies recipe_stage(
        effort,
        (#[trigger] sorted[i]).recipe,
    ) <= recipe_stage(effort, (#[trigger] sorted[j]).recipe) by {
        let (a, b) = (order[i] as int, order[j] as int);
        assert(keys[a] <= keys[b]);
        lemma_key_shows_stage(effort, scores, preferred, plan[a].recipe, plan[b].recipe);
    }
}

proof fn lemma_channel_rank(effort: Effort, scores: Seq<i64>, channel: Channel)
    ensures
        0 <= channel_rank(effort, scores, channel) <= 5,
{
}

proof fn lemma_key_shows_stage(
    effort: Effort,
    scores: Seq<i64>,
    preferred: int,
    a: Recipe,
    b: Recipe,
)
    requires
        0 <= preferred <= 0xffff_ffff,
        sort_key(effort, scores, preferred, a) <= sort_key(effort, scores, preferred, b),
    ensures
        recipe_stage(effort, a) <= recipe_stage(effort, b),
{
    if let Some(channel) = channel_of(a) {
        lemma_channel_rank(effort, scores, channel);
    }
    if let Some(channel) = channel_of(b) {
        lemma_channel_rank(effort, scores, channel);
    }
    assert(0 <= scale_of(a) <= 0xffff_ffff);
    assert(0 <= scale_of(b) <= 0xffff_ffff);
}

fn prune(plan: &Vec<VariantSpec>, achromatic: bool) -> (kept: Vec<VariantSpec>)
    ensures
        kept@ == pruned(plan@, achromatic, plan@.len() as int),
{
    let mut kept: Vec<VariantSpec> = Vec::new();
    let mut n: usize = 0;
    while n < plan.len()
        invariant
            n <= plan@.len(),
            kept@ == pruned(plan@, achromatic, n as int),
        decreases plan@.len() - n,
    {
        let colorless: bool = match variant_channel(&plan[n]) {
            None => true,
            Some(channel) => channel == Channel::Luma,
        };
        if !achromatic || colorless {
            kept.push(plan[n]);
        }
        n += 1;
    }
    kept
}

fn is_named_in(name: &String, other: &Vec<VariantSpec>) -> (found: bool)
    ensures
        found == has_name(other@, name@),
{
    let mut i: usize = 0;
    while i < other.len()
        invariant
            i <= other@.len(),
            forall|j: int| 0 <= j < i ==> recipe_name((#[trigger] other@[j]).recipe) != name@,
        decreases other@.len() - i,
    {
        if other[i].name() == *name {
            assert(recipe_name(other@[i as int].recipe) == name@);
            return true;
        }
        i += 1;
    }
    false
}

fn select_named(plan: &Vec<VariantSpec>, other: &Vec<VariantSpec>, included: bool) -> (kept: Vec<
    VariantSpec,
>)
    ensures
        kept@ == named_in(plan@, other@, included, plan@.len() as int),
{
    let mut kept: Vec<VariantSpec> = Vec::new();
    let mut n: usize = 0;
    while n < plan.len()
        invariant
            n <= plan@.len(),
            kept@ == named_in(plan@, other@, included, n as int),
        decreases plan@.len() - n,
    {
        if is_named_in(&plan[n].name(), other) == included {
            kept.push(plan[n]);
        }
        n += 1;
    }
    kept
}

/// The variants of an image in the order in which they are tried, whether the
/// image is achromatic, and the preferred scale.
///
/// `scores` says how well luma, red, green, blue and their minimum separate dark
/// from light; larger is better.
pub fn prioritize_variant_plan(
    source: &WasmImage,
    effort: Effort,
    scores: &Vec<i64>,
    pitch: Option<u64>,
) -> (planned: (Vec<VariantSpec>, bool, u32))
    requires
        scores@.len() == 5,
    ensures
        planned.0@ == prioritized(
            effort,
            is_achromatic(source@),
            scores@,
            pitch,
            source@.width,
            source@.height,
        ),
        planned.1 == is_achromatic(source@),
        planned.2 == preferred_scale(effort, pitch, source@.width, source@.height),
        effort != Effort::Thorough ==> covers_first(effort, planned.0@),
        planned.0@.len() == planned_length(effort, is_achromatic(source@)),
        distinct_names(planned.0@),
{
    proof {
        searches_have_their_length(scores@, pitch, source@.width, source@.height);
        searches_name_variants_apart(
            effort,
            is_achromatic(source@),
            scores@,
            pitch,
            source@.width,
            source@.height,
        );
    }
    let achromatic: bool = analyze_preflight(source).achromatic;
    let (width, height): (u32, u32) = (source.width(), source.height());
    let whole: Vec<VariantSpec> = build_variant_plan(effort);
    let plan: Vec<VariantSpec> = prune(&whole, achromatic);
    let preferred: u32 = preferred_scale_for(effort, pitch, width, height);
    if effort == Effort::Thorough {
        let balanced_plan: Vec<VariantSpec> = build_variant_plan(Effort::Balanced);
        let balanced: Vec<VariantSpec> = select_named(&plan, &balanced_plan, true);
        let additional: Vec<VariantSpec> = select_named(&plan, &balanced_plan, false);
        let balanced_scale: u32 = preferred_scale_for(Effort::Balanced, pitch, width, height);
        let mut first: Vec<VariantSpec> = sort_variant_plan(
            &balanced,
            effort,
            balanced_scale,
            scores,
        );
        let second: Vec<VariantSpec> = sort_variant_plan(&additional, effort, preferred, scores);
        let ghost start = first@;
        let mut i: usize = 0;
        while i < second.len()
            invariant
                i <= second@.len(),
                first@ == start + second@.take(i as int),
            decreases second@.len() - i,
        {
            first.push(second[i]);
            i += 1;
            assert(first@ =~= start + second@.take(i as int));
        }
        assert(second@.take(i as int) =~= second@);
        (first, achromatic, preferred)
    } else {
        (sort_variant_plan(&plan, effort, preferred, scores), achromatic, preferred)
    }
}

/// An achromatic image is never searched in a color channel.
pub proof fn achromatic_plans_are_colorless(plan: Seq<VariantSpec>, n: int)
    requires
        0 <= n <= plan.len(),
    ensures
        forall|i: int|
            0 <= i < pruned(plan, true, n).len() ==> is_colorless(
                (#[trigger] pruned(plan, true, n)[i]).recipe,
            ),
    decreases n,
{
    if n > 0 {
        achromatic_plans_are_colorless(plan, n - 1);
    }
}

/// Without pruning a plan stays whole.
pub proof fn colorful_plans_stay_whole(plan: Seq<VariantSpec>, n: int)
    requires
        0 <= n <= plan.len(),
    ensures
        pruned(plan, false, n) == plan.take(n),
    decreases n,
{
    if n > 0 {
        colorful_plans_stay_whole(plan, n - 1);
        assert(pruned(plan, false, n) =~= plan.take(n));
    } else {
        assert(pruned(plan, false, n) =~= plan.take(0));
    }
}

proof fn lemma_same_placed(order: Seq<usize>, a: Seq<i64>, b: Seq<i64>, item: usize, n: int)
    requires
        item < n,
        forall|i: int| 0 <= i < order.len() ==> (#[trigger] order[i]) < n,
        forall|i: int, j: int|
            0 <= i < n && 0 <= j < n ==> (#[trigger] a[i] <= #[trigger] a[j]) == (b[i] <= b[j]),
    ensures
        placed(order, a, item) == placed(order, b, item),
    decreases order.len(),
{
    if order.len() > 0 {
        assert(order.last() == order[order.len() - 1]);
        assert((a[order.last() as int] <= a[item as int]) == (b[order.last() as int]
            <= b[item as int]));
        assert forall|i: int| 0 <= i < order.drop_last().len() implies (
        #[trigger] order.drop_last()[i]) < n by {
            assert(order[i] < n);
        }
        lemma_same_placed(order.drop_last(), a, b, item, n);
    }
}

/// Keys that compare alike sort alike.
proof fn lemma_same_order(a: Seq<i64>, b: Seq<i64>, n: int)
    requires
        0 <= n <= a.len() <= usize::MAX,
        a.len() == b.len(),
        forall|i: int, j: int|
            0 <= i < a.len() && 0 <= j < a.len() ==> (#[trigger] a[i] <= #[trigger] a[j]) == (b[i]
                <= b[j]),
    ensures
        sorted_indices(a, n) == sorted_indices(b, n),
    decreases n,
{
    if n > 0 {
        lemma_same_order(a, b, n - 1);
        crate::order::sorted_indices_in_order(a, n - 1);
        let order = sorted_indices(a, n - 1);
        assert forall|i: int| 0 <= i < order.len() implies (#[trigger] order[i]) < n by {
        }
        lemma_same_placed(order, a, b, (n - 1) as usize, n);
    }
}

/// Whether every variant of a plan shows a channel that a balanced search looks
/// at.
spec fn balanced_channels(plan: Seq<VariantSpec>) -> bool {
    forall|i: int|
        0 <= i < plan.len() ==> channel_of((#[trigger] plan[i]).recipe) != Some(Channel::Min)
}

proof fn lemma_family_channels(
    effort: Effort,
    coverage: crate::plan::Coverage,
    terminal: crate::plan::Terminal,
    quality: int,
    n: int,
)
    requires
        effort == Effort::Balanced,
        0 <= n <= crate::plan::all_combinations(effort).len(),
    ensures
        balanced_channels(crate::plan::family(effort, coverage, terminal, quality, n)),
    decreases n,
{
    if n > 0 {
        lemma_family_channels(effort, coverage, terminal, quality, n - 1);
        let list = channels(effort);
        assert(list.len() == 4 && list[0] == Channel::Luma && list[1] == Channel::Green && list[2]
            == Channel::Red && list[3] == Channel::Blue);
        let c = crate::plan::all_combinations(effort)[n - 1];
        assert(0 <= (n - 1) % 4 < 4);
        assert(c.0 != Channel::Min);
    }
}

proof fn lemma_other_channels(n: int)
    requires
        0 <= n <= crate::effort::adaptive_settings(Effort::Balanced).len(),
    ensures
        balanced_channels(crate::plan::other_adaptive(Effort::Balanced, n)),
    decreases n,
{
    if n > 0 {
        lemma_other_channels(n - 1);
        let (window, bias) = crate::effort::adaptive_settings(Effort::Balanced)[n - 1];
        lemma_family_channels(
            Effort::Balanced,
            crate::plan::Coverage::Reduced,
            crate::plan::Terminal::Adaptive { window, bias },
            30,
            crate::plan::all_combinations(Effort::Balanced).len() as int,
        );
    }
}

proof fn lemma_calibrated_channels(n: int)
    requires
        0 <= n <= scales(Effort::Balanced).len(),
    ensures
        balanced_channels(crate::plan::calibrated_families(Effort::Balanced, n)),
    decreases n,
{
    if n > 0 {
        lemma_calibrated_channels(n - 1);
    }
}

proof fn lemma_balanced_plan_channels()
    ensures
        balanced_channels(own_plan(Effort::Balanced)),
{
    let effort = Effort::Balanced;
    let all = crate::plan::all_combinations(effort).len() as int;
    lemma_calibrated_channels(scales(effort).len() as int);
    lemma_other_channels(crate::effort::adaptive_settings(effort).len() as int);
    lemma_family_channels(
        effort,
        crate::plan::Coverage::All,
        crate::plan::Terminal::Identity,
        20,
        all,
    );
    lemma_family_channels(effort, crate::plan::Coverage::All, crate::plan::Terminal::Otsu, 24, all);
    lemma_family_channels(
        effort,
        crate::plan::Coverage::All,
        crate::plan::Terminal::Adaptive { window: 25, bias: 5 },
        30,
        all,
    );
    let amount = crate::plan::Sharpening::Standard;
    lemma_family_channels(
        effort,
        crate::plan::Coverage::Focused,
        crate::plan::Terminal::Unsharp { amount },
        26,
        all,
    );
    lemma_family_channels(
        effort,
        crate::plan::Coverage::Focused,
        crate::plan::Terminal::UnsharpAdaptive { amount, window: 25, bias: 5 },
        34,
        all,
    );
    assert(balanced_channels(crate::plan::plain_variants()));
    assert(balanced_channels(crate::plan::covering_families(effort)));
    assert(balanced_channels(crate::plan::leading_variants(effort)));
    assert(balanced_channels(crate::plan::unusual_variants(effort)));
    assert(balanced_channels(crate::plan::unsharp_family(effort)));
    assert(balanced_channels(crate::plan::sharpened_family(effort)));
    assert(balanced_channels(crate::plan::wanted_variants(effort)));
}

/// For channels that both look at, a balanced and a thorough search agree on
/// which of two is more promising.
proof fn lemma_ranks_agree(scores: Seq<i64>, a: Channel, b: Channel)
    requires
        scores.len() == 5,
        a != Channel::Min,
        b != Channel::Min,
    ensures
        (channel_rank(Effort::Balanced, scores, a) <= channel_rank(Effort::Balanced, scores, b))
            == (channel_rank(Effort::Thorough, scores, a) <= channel_rank(
            Effort::Thorough,
            scores,
            b,
        )),
        0 <= channel_rank(Effort::Balanced, scores, a) <= 5,
        0 <= channel_rank(Effort::Thorough, scores, a) <= 5,
{
    lemma_all_looks_at(Effort::Balanced);
    lemma_all_looks_at(Effort::Thorough);
}

proof fn lemma_all_looks_at(effort: Effort)
    ensures
        looks_at(effort, Channel::Luma),
        looks_at(effort, Channel::Red) == (effort != Effort::Fast),
        looks_at(effort, Channel::Green) == (effort != Effort::Fast),
        looks_at(effort, Channel::Blue) == (effort != Effort::Fast),
        looks_at(effort, Channel::Min) == (effort == Effort::Thorough),
{
    lemma_looks_at(effort, Channel::Luma);
    lemma_looks_at(effort, Channel::Red);
    lemma_looks_at(effort, Channel::Green);
    lemma_looks_at(effort, Channel::Blue);
    lemma_looks_at(effort, Channel::Min);
}

proof fn lemma_keys_agree(scores: Seq<i64>, preferred: int, a: Recipe, b: Recipe)
    requires
        scores.len() == 5,
        0 <= preferred <= 0xffff_ffff,
        channel_of(a) != Some(Channel::Min),
        channel_of(b) != Some(Channel::Min),
    ensures
        (sort_key(Effort::Balanced, scores, preferred, a) <= sort_key(
            Effort::Balanced,
            scores,
            preferred,
            b,
        )) == (sort_key(Effort::Thorough, scores, preferred, a) <= sort_key(
            Effort::Thorough,
            scores,
            preferred,
            b,
        )),
{
    match (channel_of(a), channel_of(b)) {
        (Some(ca), Some(cb)) => {
            lemma_ranks_agree(scores, ca, cb);
            lemma_ranks_agree(scores, cb, ca);
        },
        (Some(ca), None) => {
            lemma_ranks_agree(scores, ca, ca);
        },
        (None, Some(cb)) => {
            lemma_ranks_agree(scores, cb, cb);
        },
        (None, None) => {},
    }
}

proof fn lemma_sorted_agree(scores: Seq<i64>, preferred: int, plan: Seq<VariantSpec>)
    requires
        scores.len() == 5,
        0 <= preferred <= 0xffff_ffff,
        balanced_channels(plan),
        plan.len() <= usize::MAX,
    ensures
        sorted_plan(Effort::Balanced, scores, preferred, plan) == sorted_plan(
            Effort::Thorough,
            scores,
            preferred,
            plan,
        ),
{
    let a = sort_keys(Effort::Balanced, scores, preferred, plan);
    let b = sort_keys(Effort::Thorough, scores, preferred, plan);
    assert forall|i: int, j: int| 0 <= i < a.len() && 0 <= j < a.len() implies (#[trigger] a[i]
        <= #[trigger] a[j]) == (b[i] <= b[j]) by {
        lemma_keys_agree(scores, preferred, plan[i].recipe, plan[j].recipe);
    }
    lemma_same_order(a, b, a.len() as int);
    assert(sorted_plan(Effort::Balanced, scores, preferred, plan) =~= sorted_plan(
        Effort::Thorough,
        scores,
        preferred,
        plan,
    ));
}

proof fn lemma_named_in_push(
    plan: Seq<VariantSpec>,
    more: VariantSpec,
    other: Seq<VariantSpec>,
    included: bool,
    n: int,
)
    requires
        0 <= n <= plan.len(),
    ensures
        named_in(plan.push(more), other, included, n) == named_in(plan, other, included, n),
    decreases n,
{
    if n > 0 {
        lemma_named_in_push(plan, more, other, included, n - 1);
    }
}

/// What a longer plan adds to `start` has names that `start` lacks.
proof fn lemma_extended_new(start: Seq<VariantSpec>, more: Seq<VariantSpec>, n: int, limit: int)
    requires
        start.len() <= limit,
        0 <= n <= more.len(),
    ensures
        extended(start, more, n, limit).len() >= start.len(),
        forall|i: int|
            0 <= i < start.len() ==> #[trigger] extended(start, more, n, limit)[i] == start[i],
        forall|i: int|
            start.len() <= i < extended(start, more, n, limit).len() ==> !has_name(
                start,
                recipe_name((#[trigger] extended(start, more, n, limit)[i]).recipe),
            ),
    decreases n,
{
    if n > 0 {
        lemma_extended_new(start, more, n - 1, limit);
        let before = extended(start, more, n - 1, limit);
        let name = recipe_name(more[n - 1].recipe);
        if !has_name(before, name) {
            if has_name(start, name) {
                let i = choose|i: int|
                    0 <= i < start.len() && recipe_name((#[trigger] start[i]).recipe) == name;
                assert(before[i] == start[i]);
            }
        }
    }
}

/// The balanced part of the pruned thorough plan is the pruned balanced plan.
proof fn lemma_balanced_part(achromatic: bool, n: int)
    requires
        0 <= n <= variant_plan(Effort::Thorough).len(),
    ensures
        ({
            let balanced = variant_plan(Effort::Balanced);
            let part = pruned(variant_plan(Effort::Thorough), achromatic, n);
            let m = if n <= balanced.len() {
                n
            } else {
                balanced.len() as int
            };
            named_in(part, balanced, true, part.len() as int) == pruned(balanced, achromatic, m)
        }),
    decreases n,
{
    let balanced = variant_plan(Effort::Balanced);
    let thorough = variant_plan(Effort::Thorough);
    if n > 0 {
        lemma_balanced_part(achromatic, n - 1);
        lemma_extended_new(
            own_plan(Effort::Balanced),
            own_plan(Effort::Thorough),
            own_plan(Effort::Thorough).len() as int,
            crate::effort::variant_limit(Effort::Thorough),
        );
        let before = pruned(thorough, achromatic, n - 1);
        let last = thorough[n - 1];
        if !(achromatic && !is_colorless(last.recipe)) {
            lemma_named_in_push(before, last, balanced, true, before.len() as int);
            assert(before.push(last).last() == last);
            if n <= balanced.len() {
                assert(balanced[n - 1] == last);
                assert(has_name(balanced, recipe_name(last.recipe)));
            } else {
                assert(!has_name(balanced, recipe_name(last.recipe)));
            }
        } else if n <= balanced.len() {
            assert(balanced[n - 1] == last);
        }
    }
}

proof fn lemma_pruned_channels(plan: Seq<VariantSpec>, achromatic: bool, n: int)
    requires
        balanced_channels(plan),
        0 <= n <= plan.len(),
    ensures
        balanced_channels(pruned(plan, achromatic, n)),
        pruned(plan, achromatic, n).len() <= n,
    decreases n,
{
    if n > 0 {
        lemma_pruned_channels(plan, achromatic, n - 1);
    }
}

proof fn lemma_best_scale(effort: Effort, pitch: Option<u64>, width: int, height: int, n: int)
    requires
        1 <= n <= scales(effort).len(),
    ensures
        1 <= best_scale(scales(effort), pitch, width, height, n) <= 6,
    decreases n,
{
    if n > 1 {
        lemma_best_scale(effort, pitch, width, height, n - 1);
    }
}

/// How many variants an effort tries on an image with color and on one without.
pub open spec fn planned_length(effort: Effort, achromatic: bool) -> int {
    match effort {
        Effort::Fast => if achromatic {
            17
        } else {
            20
        },
        Effort::Balanced => if achromatic {
            45
        } else {
            102
        },
        Effort::Thorough => if achromatic {
            99
        } else {
            262
        },
    }
}

proof fn lemma_pruned_len(plan: Seq<VariantSpec>, n: int)
    requires
        0 <= n <= plan.len(),
    ensures
        pruned(plan, true, n).len() == colorless_count(plan, n),
    decreases n,
{
    if n > 0 {
        lemma_pruned_len(plan, n - 1);
    }
}

proof fn lemma_named_in_split(plan: Seq<VariantSpec>, other: Seq<VariantSpec>, n: int)
    requires
        0 <= n <= plan.len(),
    ensures
        named_in(plan, other, true, n).len() + named_in(plan, other, false, n).len() == n,
    decreases n,
{
    if n > 0 {
        lemma_named_in_split(plan, other, n - 1);
    }
}

/// How many variants of an image a search tries: all of its plan if the image has
/// color, else those that show none.
pub proof fn searches_have_their_length(
    scores: Seq<i64>,
    pitch: Option<u64>,
    width: int,
    height: int,
)
    ensures
        prioritized(Effort::Fast, false, scores, pitch, width, height).len() == 20,
        prioritized(Effort::Fast, true, scores, pitch, width, height).len() == 17,
        prioritized(Effort::Balanced, false, scores, pitch, width, height).len() == 102,
        prioritized(Effort::Balanced, true, scores, pitch, width, height).len() == 45,
        prioritized(Effort::Thorough, false, scores, pitch, width, height).len() == 262,
        prioritized(Effort::Thorough, true, scores, pitch, width, height).len() == 99,
{
    plans_have_their_length();
    plans_have_their_colorless_part();
    colorful_plans_stay_whole(variant_plan(Effort::Fast), 20);
    colorful_plans_stay_whole(variant_plan(Effort::Balanced), 102);
    lemma_pruned_len(variant_plan(Effort::Fast), 20);
    lemma_pruned_len(variant_plan(Effort::Balanced), 102);
    let thorough = variant_plan(Effort::Thorough);
    let balanced = variant_plan(Effort::Balanced);
    colorful_plans_stay_whole(thorough, 262);
    lemma_pruned_len(thorough, 262);
    lemma_named_in_split(pruned(thorough, false, 262), balanced, 262);
    lemma_named_in_split(pruned(thorough, true, 262), balanced, 99);
}

proof fn lemma_pruned_keeps(plan: Seq<VariantSpec>, achromatic: bool, at: int, n: int)
    requires
        0 <= at < n <= plan.len(),
        is_colorless(plan[at].recipe),
    ensures
        exists|i: int|
            0 <= i < pruned(plan, achromatic, n).len() && #[trigger] pruned(plan, achromatic, n)[i]
                == plan[at],
    decreases n,
{
    let before = pruned(plan, achromatic, n - 1);
    let after = pruned(plan, achromatic, n);
    if at == n - 1 {
        assert(after[before.len() as int] == plan[at]);
    } else {
        lemma_pruned_keeps(plan, achromatic, at, n - 1);
        let i = choose|i: int| 0 <= i < before.len() && #[trigger] before[i] == plan[at];
        assert(after[i] == plan[at]);
    }
}

proof fn lemma_named_in_some(
    plan: Seq<VariantSpec>,
    other: Seq<VariantSpec>,
    included: bool,
    at: int,
    n: int,
)
    requires
        0 <= at < n <= plan.len(),
        has_name(other, recipe_name(plan[at].recipe)) == included,
    ensures
        named_in(plan, other, included, n).len() > 0,
    decreases n,
{
    if at < n - 1 {
        lemma_named_in_some(plan, other, included, at, n - 1);
    }
}

/// On one image, a thorough search starts with exactly what a balanced search
/// would do, in the same order, and then goes on.
pub proof fn thorough_runs_balanced_first(
    achromatic: bool,
    scores: Seq<i64>,
    pitch: Option<u64>,
    width: int,
    height: int,
)
    requires
        scores.len() == 5,
    ensures
        ({
            let balanced = prioritized(Effort::Balanced, achromatic, scores, pitch, width, height);
            let thorough = prioritized(Effort::Thorough, achromatic, scores, pitch, width, height);
            &&& balanced.len() < thorough.len()
            &&& thorough.take(balanced.len() as int) == balanced
        }),
{
    let plan = variant_plan(Effort::Balanced);
    let preferred = preferred_scale(Effort::Balanced, pitch, width, height);
    let part = pruned(plan, achromatic, plan.len() as int);
    thorough_extends_balanced();
    lemma_balanced_part(achromatic, variant_plan(Effort::Thorough).len() as int);
    lemma_balanced_plan_channels();
    lemma_pruned_channels(plan, achromatic, plan.len() as int);
    lemma_best_scale(
        Effort::Balanced,
        pitch,
        width,
        height,
        scales(Effort::Balanced).len() as int,
    );
    lemma_sorted_agree(scores, preferred, part);
    let balanced = prioritized(Effort::Balanced, achromatic, scores, pitch, width, height);
    let thorough = prioritized(Effort::Thorough, achromatic, scores, pitch, width, height);
    assert(thorough.take(balanced.len() as int) =~= balanced);
    let whole = variant_plan(Effort::Thorough);
    let n = whole.len() as int;
    let kept = pruned(whole, achromatic, n);
    thorough_tries_more();
    lemma_extended_new(
        own_plan(Effort::Balanced),
        own_plan(Effort::Thorough),
        own_plan(Effort::Thorough).len() as int,
        crate::effort::variant_limit(Effort::Thorough),
    );
    let at = choose|i: int|
        plan.len() <= i < whole.len() && #[trigger] whole[i] == inverted_variant();
    lemma_pruned_keeps(whole, achromatic, at, n);
    let i = choose|i: int| 0 <= i < kept.len() && #[trigger] kept[i] == whole[at];
    assert(!has_name(plan, recipe_name(whole[at].recipe)));
    lemma_named_in_some(kept, plan, false, i, kept.len() as int);
}

/// Whether every variant of one plan stands among the first `n` of another.
spec fn are_among(part: Seq<VariantSpec>, plan: Seq<VariantSpec>, n: int) -> bool {
    forall|i: int| 0 <= i < part.len() ==> #[trigger] is_among(part[i], plan, n)
}

spec fn is_among(variant: VariantSpec, plan: Seq<VariantSpec>, n: int) -> bool {
    exists|k: int| 0 <= k < n && #[trigger] plan[k] == variant
}

proof fn lemma_among_push(
    part: Seq<VariantSpec>,
    plan: Seq<VariantSpec>,
    n: int,
)
    requires
        0 < n <= plan.len(),
        distinct_names(plan),
        distinct_names(part),
        are_among(part, plan, n - 1),
    ensures
        are_among(part, plan, n),
        distinct_names(part.push(plan[n - 1])),
        are_among(part.push(plan[n - 1]), plan, n),
{
    let next = part.push(plan[n - 1]);
    assert forall|i: int| 0 <= i < part.len() implies #[trigger] is_among(part[i], plan, n)
        && recipe_name(part[i].recipe) != recipe_name(plan[n - 1].recipe) by {
        assert(is_among(part[i], plan, n - 1));
        let k = choose|k: int| 0 <= k < n - 1 && #[trigger] plan[k] == part[i];
        assert(plan[k].recipe == part[i].recipe);
    }
    assert forall|i: int| 0 <= i < next.len() implies #[trigger] is_among(next[i], plan, n) by {
        if i < part.len() {
            assert(is_among(part[i], plan, n));
        } else {
            assert(plan[n - 1] == next[i]);
        }
    }
    assert forall|i: int, j: int| 0 <= i < j < next.len() implies recipe_name(
        (#[trigger] next[i]).recipe,
    ) != recipe_name((#[trigger] next[j]).recipe) by {
        assert(next[i] == part[i]);
        assert(is_among(part[i], plan, n));
        if j < part.len() {
            assert(next[j] == part[j]);
        }
    }
}

proof fn lemma_pruned_names(plan: Seq<VariantSpec>, achromatic: bool, n: int)
    requires
        0 <= n <= plan.len(),
        distinct_names(plan),
    ensures
        distinct_names(pruned(plan, achromatic, n)),
        are_among(pruned(plan, achromatic, n), plan, n),
    decreases n,
{
    if n > 0 {
        lemma_pruned_names(plan, achromatic, n - 1);
        lemma_among_push(pruned(plan, achromatic, n - 1), plan, n);
    }
}

proof fn lemma_named_in_names(
    plan: Seq<VariantSpec>,
    other: Seq<VariantSpec>,
    included: bool,
    n: int,
)
    requires
        0 <= n <= plan.len(),
        distinct_names(plan),
    ensures
        distinct_names(named_in(plan, other, included, n)),
        are_among(named_in(plan, other, included, n), plan, n),
        forall|i: int|
            0 <= i < named_in(plan, other, included, n).len() ==> has_name(
                other,
                recipe_name((#[trigger] named_in(plan, other, included, n)[i]).recipe),
            ) == included,
    decreases n,
{
    if n > 0 {
        lemma_named_in_names(plan, other, included, n - 1);
        lemma_among_push(named_in(plan, other, included, n - 1), plan, n);
    }
}

proof fn lemma_sorted_names(
    effort: Effort,
    scores: Seq<i64>,
    preferred: int,
    plan: Seq<VariantSpec>,
)
    requires
        distinct_names(plan),
        plan.len() <= usize::MAX,
    ensures
        distinct_names(sorted_plan(effort, scores, preferred, plan)),
        forall|i: int|
            0 <= i < plan.len() ==> plan.contains(
                #[trigger] sorted_plan(effort, scores, preferred, plan)[i],
            ),
{
    let keys = sort_keys(effort, scores, preferred, plan);
    let order = stable_order(keys);
    let sorted = sorted_plan(effort, scores, preferred, plan);
    crate::order::sorted_indices_in_order(keys, keys.len() as int);
    assert forall|i: int| 0 <= i < plan.len() implies plan.contains(#[trigger] sorted[i]) by {
        assert(order[i] < plan.len());
        assert(plan[order[i] as int] == sorted[i]);
    }
    assert forall|i: int, j: int| 0 <= i < j < sorted.len() implies recipe_name(
        (#[trigger] sorted[i]).recipe,
    ) != recipe_name((#[trigger] sorted[j]).recipe) by {
        let (a, b) = (order[i] as int, order[j] as int);
        assert(a != b && a < plan.len() && b < plan.len());
        assert(recipe_name(plan[a].recipe) != recipe_name(plan[b].recipe));
    }
}

/// A search tries no two variants of one name, whatever the order.
pub proof fn searches_name_variants_apart(
    effort: Effort,
    achromatic: bool,
    scores: Seq<i64>,
    pitch: Option<u64>,
    width: int,
    height: int,
)
    ensures
        distinct_names(prioritized(effort, achromatic, scores, pitch, width, height)),
{
    let all = variant_plan(effort);
    let plan = pruned(all, achromatic, all.len() as int);
    let preferred = preferred_scale(effort, pitch, width, height);
    names_tell_variants_apart(effort);
    lemma_pruned_names(all, achromatic, all.len() as int);
    searches_have_their_length(scores, pitch, width, height);
    if effort == Effort::Thorough {
        let balanced = variant_plan(Effort::Balanced);
        let n = plan.len() as int;
        let (known, new) = (named_in(plan, balanced, true, n), named_in(plan, balanced, false, n));
        let small = preferred_scale(Effort::Balanced, pitch, width, height);
        lemma_named_in_names(plan, balanced, true, n);
        lemma_named_in_names(plan, balanced, false, n);
        lemma_sorted_names(effort, scores, small, known);
        lemma_sorted_names(effort, scores, preferred, new);
        let first = sorted_plan(effort, scores, small, known);
        let second = sorted_plan(effort, scores, preferred, new);
        let whole = first + second;
        let m = first.len() as int;
        assert forall|i: int, j: int| 0 <= i < j < whole.len() implies recipe_name(
            (#[trigger] whole[i]).recipe,
        ) != recipe_name((#[trigger] whole[j]).recipe) by {
            if j < m {
                assert(whole[i] == first[i] && whole[j] == first[j]);
            } else if i >= m {
                assert(whole[i] == second[i - m] && whole[j] == second[j - m]);
            } else {
                assert(whole[i] == first[i] && whole[j] == second[j - m]);
                assert(known.contains(first[i]) && new.contains(second[j - m]));
                let (a, b) = (known.index_of(first[i]), new.index_of(second[j - m]));
                assert(known[a] == first[i] && new[b] == second[j - m]);
            }
        }
    } else {
        lemma_sorted_names(effort, scores, preferred, plan);
    }
}

} // verus!
