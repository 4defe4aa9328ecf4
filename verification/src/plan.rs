//! The variants of an image that a recovery tries, and their order.

use vstd::prelude::*;

use crate::effort::{
    adaptive_settings, channel_name, channels, effort_profile, scales, variant_limit, Channel,
    Effort, EffortProfile,
};
use crate::recovery_result::POINT;
use crate::rounding::{round_quotient, round_to, rounded, rounded_quotient, DOUBLE};
use crate::text::{decimal, decimal_text};

verus! {

/// How strongly edges are sharpened.
#[derive(Clone, Copy, Debug, PartialEq, Eq, Structural)]
pub enum Sharpening {
    /// By 1.35.
    Standard,
    /// By 1.8.
    Strong,
}

/// The exponent of a tone curve.
#[derive(Clone, Copy, Debug, PartialEq, Eq, Structural)]
pub enum ToneCurve {
    /// Exponent 0.7.
    Brighten,
    /// Exponent 1.35.
    Darken,
}

/// The last step of rendering a variant.
#[derive(Clone, Copy, Debug, PartialEq, Eq, Structural)]
pub enum Terminal {
    Identity,
    Otsu,
    Adaptive { window: u32, bias: u32 },
    GaussianAdaptive { window: u32, bias: u32 },
    Unsharp { amount: Sharpening },
    UnsharpAdaptive { amount: Sharpening, window: u32, bias: u32 },
    Gamma { curve: ToneCurve },
    GammaAdaptive { curve: ToneCurve, window: u32, bias: u32 },
    Nearest,
    Invert,
}

/// How a variant is rendered.
#[derive(Clone, Copy, Debug, PartialEq, Eq, Structural)]
pub enum Recipe {
    Original,
    Channel { channel: Channel },
    Calibrated { scale: u32, terminal: Terminal },
    Standard { channel: Channel, scale: u32, terminal: Terminal },
}

/// A variant of an image. Its quality is a double-precision number of points.
#[derive(Clone, Copy, Debug, PartialEq, Eq, Structural)]
pub struct VariantSpec {
    pub quality: u64,
    pub recipe: Recipe,
}

/// How a variant's name ends after a calibrated enlargement.
pub open spec fn calibrated_suffix(terminal: Terminal) -> Seq<char> {
    match terminal {
        Terminal::Identity => "gray"@,
        Terminal::GaussianAdaptive { window, bias } => "adapt"@ + decimal(window as nat) + "-c"@
            + decimal(bias as nat),
        _ => "otsu"@,
    }
}

/// How the name of any other enlarged variant ends.
pub open spec fn standard_suffix(terminal: Terminal) -> Seq<char> {
    match terminal {
        Terminal::Identity => "contrast"@,
        Terminal::Otsu => "otsu"@,
        Terminal::Adaptive { window, bias } => "adaptive-"@ + decimal(window as nat) + "-"@
            + decimal(bias as nat),
        Terminal::GaussianAdaptive { window, bias } => "adapt"@ + decimal(window as nat) + "-c"@
            + decimal(bias as nat),
        Terminal::Unsharp { amount } => match amount {
            Sharpening::Standard => "unsharp"@,
            Sharpening::Strong => "unsharp-1p8"@,
        },
        Terminal::UnsharpAdaptive { amount, window, bias } => match amount {
            Sharpening::Standard => "unsharp-adaptive"@,
            Sharpening::Strong => "unsharp-1p8-adaptive"@,
        },
        Terminal::Gamma { curve } => match curve {
            ToneCurve::Brighten => "gamma-0.7"@,
            ToneCurve::Darken => "gamma-1.35"@,
        },
        Terminal::GammaAdaptive { curve, window, bias } => match curve {
            ToneCurve::Brighten => "gamma-0.7-adaptive"@,
            ToneCurve::Darken => "gamma-1.35-adaptive"@,
        },
        Terminal::Nearest => "nearest"@,
        Terminal::Invert => "inverted"@,
    }
}

/// The name of a variant.
pub open spec fn recipe_name(recipe: Recipe) -> Seq<char> {
    match recipe {
        Recipe::Original => "original"@,
        Recipe::Channel { channel } => if channel == Channel::Luma {
            "gray"@
        } else {
            "channel-"@ + channel_name(channel)
        },
        Recipe::Calibrated { scale, terminal } => "s"@ + decimal(scale as nat) + "-lanczos-"@
            + calibrated_suffix(terminal),
        Recipe::Standard { channel, scale, terminal } => if terminal == Terminal::Invert {
            "inverted-"@ + channel_name(channel)
        } else {
            channel_name(channel) + "-"@ + decimal(scale as nat) + "x-"@ + standard_suffix(
                terminal,
            )
        },
    }
}

fn calibrated_suffix_text(terminal: Terminal) -> (text: String)
    ensures
        text@ == calibrated_suffix(terminal),
{
    match terminal {
        Terminal::Identity => String::from_str("gray"),
        Terminal::GaussianAdaptive { window, bias } => String::from_str("adapt").concat(
            decimal_text(window as u64).as_str(),
        ).concat("-c").concat(decimal_text(bias as u64).as_str()),
        _ => String::from_str("otsu"),
    }
}

fn standard_suffix_text(terminal: Terminal) -> (text: String)
    ensures
        text@ == standard_suffix(terminal),
{
    match terminal {
        Terminal::Identity => String::from_str("contrast"),
        Terminal::Otsu => String::from_str("otsu"),
        Terminal::Adaptive { window, bias } => String::from_str("adaptive-").concat(
            decimal_text(window as u64).as_str(),
        ).concat("-").concat(decimal_text(bias as u64).as_str()),
        Terminal::GaussianAdaptive { window, bias } => String::from_str("adapt").concat(
            decimal_text(window as u64).as_str(),
        ).concat("-c").concat(decimal_text(bias as u64).as_str()),
        Terminal::Unsharp { amount } => match amount {
            Sharpening::Standard => String::from_str("unsharp"),
            Sharpening::Strong => String::from_str("unsharp-1p8"),
        },
        Terminal::UnsharpAdaptive { amount, window: _, bias: _ } => match amount {
            Sharpening::Standard => String::from_str("unsharp-adaptive"),
            Sharpening::Strong => String::from_str("unsharp-1p8-adaptive"),
        },
        Terminal::Gamma { curve } => match curve {
            ToneCurve::Brighten => String::from_str("gamma-0.7"),
            ToneCurve::Darken => String::from_str("gamma-1.35"),
        },
        Terminal::GammaAdaptive { curve, window: _, bias: _ } => match curve {
            ToneCurve::Brighten => String::from_str("gamma-0.7-adaptive"),
            ToneCurve::Darken => String::from_str("gamma-1.35-adaptive"),
        },
        Terminal::Nearest => String::from_str("nearest"),
        Terminal::Invert => String::from_str("inverted"),
    }
}

impl VariantSpec {
    /// The name of the variant.
    pub fn name(&self) -> (name: String)
        ensures
            name@ == recipe_name(self.recipe),
    {
        match self.recipe {
            Recipe::Original => String::from_str("original"),
            Recipe::Channel { channel } => if channel == Channel::Luma {
                String::from_str("gray")
            } else {
                String::from_str("channel-").concat(channel.name())
            },
            Recipe::Calibrated { scale, terminal } => String::from_str("s").concat(
                decimal_text(scale as u64).as_str(),
            ).concat("-lanczos-").concat(calibrated_suffix_text(terminal).as_str()),
            Recipe::Standard { channel, scale, terminal } => if terminal == Terminal::Invert {
                String::from_str("inverted-").concat(channel.name())
            } else {
                String::from_str(channel.name()).concat("-").concat(
                    decimal_text(scale as u64).as_str(),
                ).concat("x-").concat(standard_suffix_text(terminal).as_str())
            },
        }
    }
}

/// Every channel at every scale, scale by scale.
pub open spec fn all_combinations(effort: Effort) -> Seq<(Channel, u32)> {
    let n = channels(effort).len();
    Seq::new(
        scales(effort).len() * n,
        |i: int| (channels(effort)[i % n as int], scales(effort)[i / n as int]),
    )
}

/// The combinations that get the more expensive transforms.
pub open spec fn is_focused(effort: Effort, combination: (Channel, u32)) -> bool {
    let (channel, scale) = combination;
    match effort {
        Effort::Fast => channel == Channel::Luma,
        Effort::Balanced => channel == Channel::Luma || scale <= 2,
        Effort::Thorough => channel == Channel::Luma || channel == Channel::Min || scale == 1
            || scale == 2 || scale == 4,
    }
}

/// The combinations that get the less promising transforms.
pub open spec fn is_reduced(effort: Effort, combination: (Channel, u32)) -> bool {
    let (channel, scale) = combination;
    match effort {
        Effort::Fast => channel == Channel::Luma,
        Effort::Balanced => channel == Channel::Luma || scale == 1,
        Effort::Thorough => channel == Channel::Luma || channel == Channel::Min,
    }
}

/// Which combinations a family of variants covers.
#[derive(Clone, Copy, Debug, PartialEq, Eq, Structural)]
pub enum Coverage {
    All,
    Focused,
    Reduced,
    /// The largest scale only.
    Largest,
    /// All scales but the largest.
    Smaller,
}

/// The largest factor by which an effort enlarges an image.
pub open spec fn largest_scale(effort: Effort) -> u32 {
    scales(effort).last()
}

/// Whether `coverage` includes a combination.
pub open spec fn covers(coverage: Coverage, effort: Effort, combination: (Channel, u32)) -> bool {
    match coverage {
        Coverage::All => true,
        Coverage::Focused => is_focused(effort, combination),
        Coverage::Reduced => is_reduced(effort, combination),
        Coverage::Largest => combination.1 == largest_scale(effort),
        Coverage::Smaller => combination.1 != largest_scale(effort),
    }
}

/// A number of tenths of a point, from ten on, in double precision.
#[verifier::opaque]
pub open spec fn tenths(n: int) -> int {
    rounded_quotient(n * POINT, 10, DOUBLE as int)
}

/// A tenth in double precision, in sixteenths of the units of a score.
pub const TENTH: u64 = 7_205_759_403_792_794;

/// A quality of some tenths, and one tenth more for each time that an image is
/// enlarged, in double precision.
#[verifier::opaque]
pub open spec fn quality_at(base: int, scale: u32) -> u64 {
    (rounded(16 * tenths(base) + rounded(scale * TENTH, DOUBLE as int), DOUBLE as int)
        / 16) as u64
}

fn tenths_of(n: u32) -> (quality: u64)
    requires
        n <= 100,
    ensures
        quality == tenths(n as int) as u64,
        quality == tenths(n as int),
        quality <= 1_000_000_000_000_000_000,
{
    proof {
        reveal(tenths);
    }
    let units: u128 = n as u128 * 4_503_599_627_370_496;
    let rounded_units: u128 = round_quotient(units, 10, DOUBLE);
    rounded_units as u64
}

fn quality_of(base: u32, scale: u32) -> (quality: u64)
    requires
        base <= 100,
        scale <= 100,
    ensures
        quality == quality_at(base as int, scale),
{
    proof {
        reveal(quality_at);
    }
    assert(0 <= scale * 7_205_759_403_792_794 <= 100 * 7_205_759_403_792_794);
    let times: u128 = scale as u128 * 7_205_759_403_792_794;
    let steps: u128 = round_to(times, DOUBLE);
    let whole: u128 = 16 * tenths_of(base) as u128 + steps;
    let rounded_whole: u128 = round_to(whole, DOUBLE);
    (rounded_whole / 16) as u64
}

/// One transform at the covered combinations among the first `n`. Larger scales
/// count for more quality.
pub open spec fn family(
    effort: Effort,
    coverage: Coverage,
    terminal: Terminal,
    quality: int,
    n: int,
) -> Seq<VariantSpec>
    decreases n,
{
    if n <= 0 {
        Seq::empty()
    } else {
        let before = family(effort, coverage, terminal, quality, n - 1);
        let (channel, scale) = all_combinations(effort)[n - 1];
        if covers(coverage, effort, (channel, scale)) {
            before.push(
                VariantSpec {
                    quality: quality_at(quality, scale),
                    recipe: Recipe::Standard { channel, scale, terminal },
                },
            )
        } else {
            before
        }
    }
}

/// One transform at all covered combinations.
pub open spec fn whole_family(
    effort: Effort,
    coverage: Coverage,
    terminal: Terminal,
    quality: int,
) -> Seq<VariantSpec> {
    family(effort, coverage, terminal, quality, all_combinations(effort).len() as int)
}

/// The calibrated variants at one scale.
pub open spec fn calibrated_family(scale: u32) -> Seq<VariantSpec> {
    seq![
        VariantSpec {
            quality: quality_at(30, scale),
            recipe: Recipe::Calibrated { scale, terminal: Terminal::Identity },
        },
        VariantSpec {
            quality: quality_at(32, scale),
            recipe: Recipe::Calibrated { scale, terminal: Terminal::Otsu },
        },
        VariantSpec {
            quality: quality_at(40, scale),
            recipe: Recipe::Calibrated {
                scale,
                terminal: Terminal::GaussianAdaptive { window: 11, bias: 0 },
            },
        },
        VariantSpec {
            quality: quality_at(38, scale),
            recipe: Recipe::Calibrated {
                scale,
                terminal: Terminal::GaussianAdaptive { window: 11, bias: 3 },
            },
        },
        VariantSpec {
            quality: quality_at(37, scale),
            recipe: Recipe::Calibrated {
                scale,
                terminal: Terminal::GaussianAdaptive { window: 31, bias: 3 },
            },
        },
    ]
}

/// The calibrated variants at the first `n` scales, but for the scale 1.
pub open spec fn calibrated_families(effort: Effort, n: int) -> Seq<VariantSpec>
    decreases n,
{
    if n <= 0 {
        Seq::empty()
    } else if scales(effort)[n - 1] > 1 {
        calibrated_families(effort, n - 1) + calibrated_family(scales(effort)[n - 1])
    } else {
        calibrated_families(effort, n - 1)
    }
}

/// The adaptive setting whose window is nearest to 25.
pub open spec fn primary_adaptive(effort: Effort) -> (u32, u32) {
    match effort {
        Effort::Fast => (21, 5),
        _ => (25, 5),
    }
}

/// The adaptive thresholds other than the primary one, among the first `n`.
pub open spec fn other_adaptive(effort: Effort, n: int) -> Seq<VariantSpec>
    decreases n,
{
    if n <= 0 {
        Seq::empty()
    } else {
        let (window, bias) = adaptive_settings(effort)[n - 1];
        if (window, bias) == primary_adaptive(effort) {
            other_adaptive(effort, n - 1)
        } else {
            other_adaptive(effort, n - 1) + whole_family(
                effort,
                Coverage::Reduced,
                Terminal::Adaptive { window, bias },
                30,
            )
        }
    }
}

/// How strongly an effort sharpens.
pub open spec fn sharpening(effort: Effort) -> Sharpening {
    if effort == Effort::Thorough {
        Sharpening::Strong
    } else {
        Sharpening::Standard
    }
}

/// The image itself, its luma and its color channels.
pub open spec fn plain_variants() -> Seq<VariantSpec> {
    seq![
        VariantSpec { quality: tenths(10) as u64, recipe: Recipe::Original },
        VariantSpec {
            quality: tenths(12) as u64,
            recipe: Recipe::Channel { channel: Channel::Luma },
        },
        VariantSpec {
            quality: tenths(11) as u64,
            recipe: Recipe::Channel { channel: Channel::Blue },
        },
        VariantSpec {
            quality: tenths(11) as u64,
            recipe: Recipe::Channel { channel: Channel::Green },
        },
        VariantSpec {
            quality: tenths(11) as u64,
            recipe: Recipe::Channel { channel: Channel::Red },
        },
    ]
}

/// The transforms that every effort tries on every channel at every scale:
/// contrast, Otsu's threshold and one adaptive threshold.
pub open spec fn covering_families(effort: Effort) -> Seq<VariantSpec> {
    let (window, bias) = primary_adaptive(effort);
    whole_family(effort, Coverage::All, Terminal::Identity, 20) + whole_family(
        effort,
        Coverage::All,
        Terminal::Otsu,
        24,
    ) + whole_family(effort, Coverage::All, Terminal::Adaptive { window, bias }, 30)
}

/// The inverted image and the unblended enlargements, of which the thorough
/// effort always tries some.
pub open spec fn unusual_variants(effort: Effort) -> Seq<VariantSpec> {
    if effort == Effort::Thorough {
        seq![inverted_variant()] + whole_family(effort, Coverage::Largest, Terminal::Nearest, 18)
    } else {
        Seq::empty()
    }
}

/// The inverted luma of an image.
pub open spec fn inverted_variant() -> VariantSpec {
    VariantSpec {
        quality: tenths(15) as u64,
        recipe: Recipe::Standard { channel: Channel::Luma, scale: 1, terminal: Terminal::Invert },
    }
}

/// The sharpened variants.
pub open spec fn unsharp_family(effort: Effort) -> Seq<VariantSpec> {
    whole_family(
        effort,
        Coverage::Focused,
        Terminal::Unsharp { amount: sharpening(effort) },
        26,
    )
}

/// The sharpened and thresholded variants, which the fast effort leaves out.
pub open spec fn sharpened_family(effort: Effort) -> Seq<VariantSpec> {
    if effort == Effort::Fast {
        Seq::empty()
    } else {
        whole_family(
            effort,
            Coverage::Focused,
            Terminal::UnsharpAdaptive { amount: sharpening(effort), window: 25, bias: 5 },
            34,
        )
    }
}

/// The variants of one tone curve.
pub open spec fn tone_families(effort: Effort, curve: ToneCurve) -> Seq<VariantSpec> {
    whole_family(effort, Coverage::Focused, Terminal::Gamma { curve }, 22) + whole_family(
        effort,
        Coverage::Reduced,
        Terminal::GammaAdaptive { curve, window: 35, bias: 7 },
        32,
    )
}

/// The variants that only the thorough effort tries, as far as there is room.
pub open spec fn thorough_families(effort: Effort) -> Seq<VariantSpec> {
    if effort == Effort::Thorough {
        tone_families(effort, ToneCurve::Brighten) + tone_families(effort, ToneCurve::Darken)
            + whole_family(effort, Coverage::Smaller, Terminal::Nearest, 18)
    } else {
        Seq::empty()
    }
}

/// What comes first in every plan: plain and calibrated variants, and the
/// transforms that cover every channel and scale.
pub open spec fn leading_variants(effort: Effort) -> Seq<VariantSpec> {
    plain_variants() + calibrated_families(effort, scales(effort).len() as int)
        + covering_families(effort)
}

/// Everything that an effort would try, most promising transforms first.
pub open spec fn wanted_variants(effort: Effort) -> Seq<VariantSpec> {
    leading_variants(effort) + unusual_variants(effort) + unsharp_family(effort)
        + sharpened_family(effort) + other_adaptive(
        effort,
        adaptive_settings(effort).len() as int,
    ) + thorough_families(effort)
}

/// At most the first `limit` of a plan.
pub open spec fn limited(plan: Seq<VariantSpec>, limit: int) -> Seq<VariantSpec> {
    if limit < plan.len() {
        plan.take(limit)
    } else {
        plan
    }
}

/// The plan of an effort by itself.
pub open spec fn own_plan(effort: Effort) -> Seq<VariantSpec> {
    limited(wanted_variants(effort), variant_limit(effort))
}

/// Whether a plan has a variant of the given name.
pub open spec fn has_name(plan: Seq<VariantSpec>, name: Seq<char>) -> bool {
    exists|i: int| 0 <= i < plan.len() && recipe_name((#[trigger] plan[i]).recipe) == name
}

/// `plan` with those of the first `n` of `more` that have new names, up to
/// `limit` in all.
pub open spec fn extended(
    plan: Seq<VariantSpec>,
    more: Seq<VariantSpec>,
    n: int,
    limit: int,
) -> Seq<VariantSpec>
    decreases n,
{
    if n <= 0 {
        plan
    } else {
        let before = extended(plan, more, n - 1, limit);
        if before.len() >= limit || has_name(before, recipe_name(more[n - 1].recipe)) {
            before
        } else {
            before.push(more[n - 1])
        }
    }
}

/// The plan of an effort. The thorough plan extends the balanced one.
pub open spec fn variant_plan(effort: Effort) -> Seq<VariantSpec> {
    if effort == Effort::Thorough {
        extended(
            own_plan(Effort::Balanced),
            own_plan(Effort::Thorough),
            own_plan(Effort::Thorough).len() as int,
            variant_limit(effort),
        )
    } else {
        own_plan(effort)
    }
}

proof fn lemma_extended(plan: Seq<VariantSpec>, more: Seq<VariantSpec>, n: int, limit: int)
    requires
        plan.len() <= limit,
    ensures
        extended(plan, more, n, limit).len() <= limit,
        plan.len() <= extended(plan, more, n, limit).len(),
        extended(plan, more, n, limit).take(plan.len() as int) == plan,
    decreases n,
{
    if n > 0 {
        lemma_extended(plan, more, n - 1, limit);
        let before = extended(plan, more, n - 1, limit);
        assert(extended(plan, more, n, limit).take(plan.len() as int) =~= before.take(
            plan.len() as int,
        ));
    } else {
        assert(plan.take(plan.len() as int) =~= plan);
    }
}

/// The thorough plan starts with the whole balanced plan, in its order.
pub proof fn thorough_extends_balanced()
    ensures
        variant_plan(Effort::Balanced).len() <= variant_plan(Effort::Thorough).len(),
        variant_plan(Effort::Thorough).take(variant_plan(Effort::Balanced).len() as int)
            == variant_plan(Effort::Balanced),
{
    lemma_extended(
        own_plan(Effort::Balanced),
        own_plan(Effort::Thorough),
        own_plan(Effort::Thorough).len() as int,
        variant_limit(Effort::Thorough),
    );
}

proof fn lemma_limited(plan: Seq<VariantSpec>, more: Seq<VariantSpec>, limit: int)
    requires
        0 <= limit,
    ensures
        limited(limited(plan, limit) + more, limit) == limited(plan + more, limit),
{
    assert(limited(limited(plan, limit) + more, limit) =~= limited(plan + more, limit));
}

fn push_variant(plan: &mut Vec<VariantSpec>, limit: usize, spec: VariantSpec)
    requires
        old(plan)@.len() <= limit,
    ensures
        final(plan)@ == limited(old(plan)@.push(spec), limit as int),
        final(plan)@.len() <= limit,
{
    if plan.len() < limit {
        plan.push(spec);
    } else {
        assert(plan@ =~= limited(plan@.push(spec), limit as int));
    }
}

/// What building a plan reads, and the variants collected so far.
struct PlanBuilder {
    effort: Effort,
    combinations: Vec<(Channel, u32)>,
    limit: usize,
    plan: Vec<VariantSpec>,
}

impl PlanBuilder {
    spec fn wf(&self) -> bool {
        &&& self.combinations@ == all_combinations(self.effort)
        &&& self.limit == variant_limit(self.effort)
        &&& self.plan@.len() <= self.limit
    }

    /// Holds `wanted`, as far as the limit allows.
    spec fn holds(&self, wanted: Seq<VariantSpec>) -> bool {
        self.plan@ == limited(wanted, self.limit as int)
    }

    fn covers(&self, coverage: Coverage, channel: Channel, scale: u32) -> (covered: bool)
        ensures
            covered == covers(coverage, self.effort, (channel, scale)),
    {
        match coverage {
            Coverage::All => true,
            Coverage::Focused => match self.effort {
                Effort::Fast => channel == Channel::Luma,
                Effort::Balanced => channel == Channel::Luma || scale <= 2,
                Effort::Thorough => channel == Channel::Luma || channel == Channel::Min || scale
                    == 1 || scale == 2 || scale == 4,
            },
            Coverage::Reduced => match self.effort {
                Effort::Fast => channel == Channel::Luma,
                Effort::Balanced => channel == Channel::Luma || scale == 1,
                Effort::Thorough => channel == Channel::Luma || channel == Channel::Min,
            },
            Coverage::Largest => scale == self.largest(),
            Coverage::Smaller => scale != self.largest(),
        }
    }

    fn largest(&self) -> (scale: u32)
        ensures
            scale == largest_scale(self.effort),
    {
        match self.effort {
            Effort::Fast => 2,
            Effort::Balanced => 4,
            Effort::Thorough => 6,
        }
    }

    fn push(&mut self, Ghost(wanted): Ghost<Seq<VariantSpec>>, spec: VariantSpec)
        requires
            old(self).wf(),
            old(self).holds(wanted),
        ensures
            final(self).wf(),
            final(self).effort == old(self).effort,
            final(self).holds(wanted.push(spec)),
    {
        proof {
            lemma_limited(wanted, seq![spec], self.limit as int);
            assert(wanted + seq![spec] =~= wanted.push(spec));
            assert(self.plan@ + seq![spec] =~= self.plan@.push(spec));
        }
        push_variant(&mut self.plan, self.limit, spec);
    }

    fn push_family(
        &mut self,
        Ghost(wanted): Ghost<Seq<VariantSpec>>,
        coverage: Coverage,
        terminal: Terminal,
        quality: u32,
    )
        requires
            old(self).wf(),
            old(self).holds(wanted),
            quality <= 100,
        ensures
            final(self).wf(),
            final(self).effort == old(self).effort,
            final(self).holds(
                wanted + whole_family(old(self).effort, coverage, terminal, quality as int),
            ),
    {
        let ghost effort = self.effort;
        let count: usize = self.combinations.len();
        let mut n: usize = 0;
        assert(wanted + family(effort, coverage, terminal, quality as int, 0) =~= wanted);
        while n < count
            invariant
                self.wf(),
                self.effort == effort,
                effort == old(self).effort,
                quality <= 100,
                n <= count == all_combinations(effort).len(),
                self.holds(wanted + family(effort, coverage, terminal, quality as int, n as int)),
            decreases count - n,
        {
            let (channel, scale) = self.combinations[n];
            proof {
                lemma_scales_small(effort, n as int);
            }
            let ghost before = family(effort, coverage, terminal, quality as int, n as int);
            if self.covers(coverage, channel, scale) {
                let spec = VariantSpec {
                    quality: quality_of(quality, scale),
                    recipe: Recipe::Standard { channel, scale, terminal },
                };
                self.push(Ghost(wanted + before), spec);
                assert((wanted + before).push(spec) =~= wanted + before.push(spec));
            }
            n += 1;
        }
    }
}

proof fn lemma_scales_small(effort: Effort, i: int)
    requires
        0 <= i < all_combinations(effort).len(),
    ensures
        1 <= all_combinations(effort)[i].1 <= 6,
{
    let n = channels(effort).len() as int;
    assert(1 <= n <= 5);
    let s = scales(effort).len() as int;
    assert(0 <= i / n < s) by (nonlinear_arith)
        requires
            0 <= i < s * n,
            1 <= n,
    ;
}

fn combinations_of(profile: &EffortProfile, effort: Effort) -> (list: Vec<(Channel, u32)>)
    requires
        profile.scales@ == scales(effort),
        profile.channels@ == channels(effort),
    ensures
        list@ == all_combinations(effort),
{
    let mut list: Vec<(Channel, u32)> = Vec::new();
    let n: usize = profile.channels.len();
    let mut s: usize = 0;
    proof {
        assert(1 <= channels(effort).len() <= 5);
        assert(1 <= scales(effort).len() <= 5);
        assert(0 * n == 0);
    }
    while s < profile.scales.len()
        invariant
            profile.scales@ == scales(effort),
            profile.channels@ == channels(effort),
            1 <= n == channels(effort).len() <= 5,
            s <= scales(effort).len() <= 5,
            list@ == all_combinations(effort).take(s * n),
        decreases scales(effort).len() - s,
    {
        let mut c: usize = 0;
        while c < n
            invariant
                profile.scales@ == scales(effort),
                profile.channels@ == channels(effort),
                1 <= n == channels(effort).len() <= 5,
                s < scales(effort).len() <= 5,
                c <= n,
                list@ == all_combinations(effort).take(s * n + c),
            decreases n - c,
        {
            list.push((profile.channels[c], profile.scales[s]));
            proof {
                let i = s * n + c;
                vstd::arithmetic::div_mod::lemma_fundamental_div_mod_converse(
                    i,
                    n as int,
                    s as int,
                    c as int,
                );
                assert(0 <= i < scales(effort).len() * n) by (nonlinear_arith)
                    requires
                        0 <= s < scales(effort).len(),
                        0 <= c < n,
                        i == s * n + c,
                ;
                assert(list@ =~= all_combinations(effort).take(i + 1));
            }
            c += 1;
        }
        assert((s + 1) * n == s * n + n) by (nonlinear_arith);
        s += 1;
    }
    assert(all_combinations(effort).take(s * n) =~= all_combinations(effort));
    list
}

fn push_calibrated(builder: &mut PlanBuilder, Ghost(wanted): Ghost<Seq<VariantSpec>>, scale: u32)
    requires
        old(builder).wf(),
        old(builder).holds(wanted),
        scale <= 6,
    ensures
        final(builder).wf(),
        final(builder).effort == old(builder).effort,
        final(builder).holds(wanted + calibrated_family(scale)),
{
    let ghost all = calibrated_family(scale);
    builder.push(
        Ghost(wanted),
        VariantSpec {
            quality: quality_of(30, scale),
            recipe: Recipe::Calibrated { scale, terminal: Terminal::Identity },
        },
    );
    builder.push(
        Ghost(wanted.push(all[0])),
        VariantSpec {
            quality: quality_of(32, scale),
            recipe: Recipe::Calibrated { scale, terminal: Terminal::Otsu },
        },
    );
    builder.push(
        Ghost(wanted.push(all[0]).push(all[1])),
        VariantSpec {
            quality: quality_of(40, scale),
            recipe: Recipe::Calibrated {
                scale,
                terminal: Terminal::GaussianAdaptive { window: 11, bias: 0 },
            },
        },
    );
    builder.push(
        Ghost(wanted.push(all[0]).push(all[1]).push(all[2])),
        VariantSpec {
            quality: quality_of(38, scale),
            recipe: Recipe::Calibrated {
                scale,
                terminal: Terminal::GaussianAdaptive { window: 11, bias: 3 },
            },
        },
    );
    builder.push(
        Ghost(wanted.push(all[0]).push(all[1]).push(all[2]).push(all[3])),
        VariantSpec {
            quality: quality_of(37, scale),
            recipe: Recipe::Calibrated {
                scale,
                terminal: Terminal::GaussianAdaptive { window: 31, bias: 3 },
            },
        },
    );
    assert(wanted.push(all[0]).push(all[1]).push(all[2]).push(all[3]).push(all[4]) =~= wanted
        + all);
}

fn push_plain(builder: &mut PlanBuilder)
    requires
        old(builder).wf(),
        old(builder).holds(Seq::empty()),
    ensures
        final(builder).wf(),
        final(builder).effort == old(builder).effort,
        final(builder).holds(plain_variants()),
{
    let ghost all = plain_variants();
    builder.push(
        Ghost(Seq::empty()),
        VariantSpec { quality: tenths_of(10), recipe: Recipe::Original },
    );
    assert(Seq::empty().push(all[0]) =~= all.take(1));
    builder.push(
        Ghost(all.take(1)),
        VariantSpec {
            quality: tenths_of(12),
            recipe: Recipe::Channel { channel: Channel::Luma },
        },
    );
    assert(all.take(1).push(all[1]) =~= all.take(2));
    builder.push(
        Ghost(all.take(2)),
        VariantSpec {
            quality: tenths_of(11),
            recipe: Recipe::Channel { channel: Channel::Blue },
        },
    );
    assert(all.take(2).push(all[2]) =~= all.take(3));
    builder.push(
        Ghost(all.take(3)),
        VariantSpec {
            quality: tenths_of(11),
            recipe: Recipe::Channel { channel: Channel::Green },
        },
    );
    assert(all.take(3).push(all[3]) =~= all.take(4));
    builder.push(
        Ghost(all.take(4)),
        VariantSpec {
            quality: tenths_of(11),
            recipe: Recipe::Channel { channel: Channel::Red },
        },
    );
    assert(all.take(4).push(all[4]) =~= all);
}

/// Builds the plan of an effort by itself.
fn build_variant_plan_raw(effort: Effort) -> (plan: Vec<VariantSpec>)
    ensures
        plan@ == own_plan(effort),
{
    let profile: EffortProfile = effort_profile(effort);
    let combinations: Vec<(Channel, u32)> = combinations_of(&profile, effort);
    let mut builder = PlanBuilder {
        effort,
        combinations,
        limit: profile.variant_limit,
        plan: Vec::new(),
    };
    assert(builder.plan@ =~= limited(Seq::empty(), builder.limit as int));
    push_plain(&mut builder);
    let mut s: usize = 0;
    let ghost plain = plain_variants();
    assert(plain + calibrated_families(effort, 0) =~= plain);
    while s < profile.scales.len()
        invariant
            profile.scales@ == scales(effort),
            s <= profile.scales@.len(),
            builder.wf(),
            builder.effort == effort,
            builder.holds(plain + calibrated_families(effort, s as int)),
        decreases profile.scales@.len() - s,
    {
        let scale: u32 = profile.scales[s];
        assert(1 <= scale <= 6);
        if scale > 1 {
            let ghost before = calibrated_families(effort, s as int);
            push_calibrated(&mut builder, Ghost(plain + before), scale);
            assert(plain + before + calibrated_family(scale) =~= plain + (before
                + calibrated_family(scale)));
        }
        s += 1;
    }
    // Cover every channel/scale with the three highest-yield transforms.
    // More expensive sharpening and threshold diversity use a focused subset.
    let ghost w1 = plain + calibrated_families(effort, scales(effort).len() as int);
    let ghost f1 = whole_family(effort, Coverage::All, Terminal::Identity, 20);
    builder.push_family(Ghost(w1), Coverage::All, Terminal::Identity, 20);
    let ghost f2 = whole_family(effort, Coverage::All, Terminal::Otsu, 24);
    builder.push_family(Ghost(w1 + f1), Coverage::All, Terminal::Otsu, 24);
    let (window, bias): (u32, u32) = match effort {
        Effort::Fast => (21, 5),
        _ => (25, 5),
    };
    let primary = Terminal::Adaptive { window, bias };
    let ghost f3 = whole_family(effort, Coverage::All, primary, 30);
    builder.push_family(Ghost(w1 + f1 + f2), Coverage::All, primary, 30);
    let ghost w2 = leading_variants(effort);
    assert(w1 + f1 + f2 + f3 =~= w2);
    let ghost w3 = w2 + unusual_variants(effort);
    if effort == Effort::Thorough {
        push_unusual(&mut builder, Ghost(w2));
    } else {
        assert(w3 =~= w2);
    }
    let amount: Sharpening = if effort == Effort::Thorough {
        Sharpening::Strong
    } else {
        Sharpening::Standard
    };
    let ghost w4 = w3 + unsharp_family(effort);
    builder.push_family(Ghost(w3), Coverage::Focused, Terminal::Unsharp { amount }, 26);
    let ghost w5 = w4 + sharpened_family(effort);
    if effort != Effort::Fast {
        builder.push_family(
            Ghost(w4),
            Coverage::Focused,
            Terminal::UnsharpAdaptive { amount, window: 25, bias: 5 },
            34,
        );
    } else {
        assert(w5 =~= w4);
    }
    let mut a: usize = 0;
    assert(w5 + other_adaptive(effort, 0) =~= w5);
    while a < profile.adaptive.len()
        invariant
            profile.adaptive@ == adaptive_settings(effort),
            a <= profile.adaptive@.len(),
            (window, bias) == primary_adaptive(effort),
            builder.wf(),
            builder.effort == effort,
            builder.holds(w5 + other_adaptive(effort, a as int)),
        decreases profile.adaptive@.len() - a,
    {
        let (other_window, other_bias) = profile.adaptive[a];
        if other_window != window || other_bias != bias {
            let ghost before = other_adaptive(effort, a as int);
            let terminal = Terminal::Adaptive { window: other_window, bias: other_bias };
            builder.push_family(Ghost(w5 + before), Coverage::Reduced, terminal, 30);
            assert(w5 + before + whole_family(effort, Coverage::Reduced, terminal, 30) =~= w5 + (
            before + whole_family(effort, Coverage::Reduced, terminal, 30)));
        }
        a += 1;
    }
    let ghost w6 = w5 + other_adaptive(effort, adaptive_settings(effort).len() as int);
    if effort == Effort::Thorough {
        push_thorough(&mut builder, Ghost(w6));
    } else {
        assert(w6 + thorough_families(effort) =~= w6);
    }
    assert(w6 + thorough_families(effort) =~= wanted_variants(effort));
    builder.plan
}

fn push_unusual(builder: &mut PlanBuilder, Ghost(wanted): Ghost<Seq<VariantSpec>>)
    requires
        old(builder).wf(),
        old(builder).holds(wanted),
        old(builder).effort == Effort::Thorough,
    ensures
        final(builder).wf(),
        final(builder).effort == old(builder).effort,
        final(builder).holds(wanted + unusual_variants(Effort::Thorough)),
{
    let inverted = VariantSpec {
        quality: tenths_of(15),
        recipe: Recipe::Standard { channel: Channel::Luma, scale: 1, terminal: Terminal::Invert },
    };
    builder.push(Ghost(wanted), inverted);
    builder.push_family(
        Ghost(wanted.push(inverted)),
        Coverage::Largest,
        Terminal::Nearest,
        18,
    );
    let ghost family = whole_family(
        Effort::Thorough,
        Coverage::Largest,
        Terminal::Nearest,
        18,
    );
    assert(wanted.push(inverted) + family =~= wanted + unusual_variants(Effort::Thorough));
}

fn push_thorough(builder: &mut PlanBuilder, Ghost(wanted): Ghost<Seq<VariantSpec>>)
    requires
        old(builder).wf(),
        old(builder).holds(wanted),
        old(builder).effort == Effort::Thorough,
    ensures
        final(builder).wf(),
        final(builder).effort == old(builder).effort,
        final(builder).holds(wanted + thorough_families(Effort::Thorough)),
{
    let ghost effort = Effort::Thorough;
    let ghost g1 = whole_family(
        effort,
        Coverage::Focused,
        Terminal::Gamma { curve: ToneCurve::Brighten },
        22,
    );
    builder.push_family(
        Ghost(wanted),
        Coverage::Focused,
        Terminal::Gamma { curve: ToneCurve::Brighten },
        22,
    );
    let ghost g2 = whole_family(
        effort,
        Coverage::Reduced,
        Terminal::GammaAdaptive { curve: ToneCurve::Brighten, window: 35, bias: 7 },
        32,
    );
    builder.push_family(
        Ghost(wanted + g1),
        Coverage::Reduced,
        Terminal::GammaAdaptive { curve: ToneCurve::Brighten, window: 35, bias: 7 },
        32,
    );
    let ghost g3 = whole_family(
        effort,
        Coverage::Focused,
        Terminal::Gamma { curve: ToneCurve::Darken },
        22,
    );
    builder.push_family(
        Ghost(wanted + g1 + g2),
        Coverage::Focused,
        Terminal::Gamma { curve: ToneCurve::Darken },
        22,
    );
    let ghost g4 = whole_family(
        effort,
        Coverage::Reduced,
        Terminal::GammaAdaptive { curve: ToneCurve::Darken, window: 35, bias: 7 },
        32,
    );
    builder.push_family(
        Ghost(wanted + g1 + g2 + g3),
        Coverage::Reduced,
        Terminal::GammaAdaptive { curve: ToneCurve::Darken, window: 35, bias: 7 },
        32,
    );
    let ghost g5 = whole_family(effort, Coverage::Smaller, Terminal::Nearest, 18);
    builder.push_family(
        Ghost(wanted + g1 + g2 + g3 + g4),
        Coverage::Smaller,
        Terminal::Nearest,
        18,
    );
    assert(wanted + g1 + g2 + g3 + g4 + g5 =~= wanted + thorough_families(effort));
}

fn names_of(plan: &Vec<VariantSpec>) -> (names: Vec<String>)
    ensures
        names@.len() == plan@.len(),
        forall|i: int|
            0 <= i < plan@.len() ==> (#[trigger] names@[i])@ == recipe_name(plan@[i].recipe),
{
    let mut names: Vec<String> = Vec::new();
    let mut i: usize = 0;
    while i < plan.len()
        invariant
            i <= plan@.len(),
            names@.len() == i,
            forall|j: int| 0 <= j < i ==> (#[trigger] names@[j])@ == recipe_name(plan@[j].recipe),
        decreases plan@.len() - i,
    {
        names.push(plan[i].name());
        i += 1;
    }
    names
}

/// Whether a plan whose names are `names` has a variant called `name`.
fn is_named(names: &Vec<String>, name: &String, Ghost(plan): Ghost<Seq<VariantSpec>>) -> (found:
    bool)
    requires
        names@.len() == plan.len(),
        forall|i: int|
            0 <= i < plan.len() ==> (#[trigger] names@[i])@ == recipe_name(plan[i].recipe),
    ensures
        found == has_name(plan, name@),
{
    let mut i: usize = 0;
    while i < names.len()
        invariant
            i <= names@.len() == plan.len(),
            forall|j: int|
                0 <= j < plan.len() ==> (#[trigger] names@[j])@ == recipe_name(plan[j].recipe),
            forall|j: int| 0 <= j < i ==> recipe_name((#[trigger] plan[j]).recipe) != name@,
        decreases names@.len() - i,
    {
        assert(names@[i as int]@ == recipe_name(plan[i as int].recipe));
        if names[i] == *name {
            return true;
        }
        i += 1;
    }
    false
}

/// The variants that `effort` tries.
pub fn build_variant_plan(effort: Effort) -> (plan: Vec<VariantSpec>)
    ensures
        plan@ == variant_plan(effort),
        plan@.len() == variant_limit(effort),
        effort == Effort::Thorough ==> exists|i: int|
            0 <= i < plan@.len() && ends_with((#[trigger] plan@[i]).recipe, Terminal::Invert),
        effort == Effort::Thorough ==> exists|i: int|
            0 <= i < plan@.len() && ends_with((#[trigger] plan@[i]).recipe, Terminal::Nearest),
{
    proof {
        crate::plan_length::plans_have_their_length();
        thorough_tries_more();
    }
    if effort != Effort::Thorough {
        return build_variant_plan_raw(effort);
    }
    let limit: usize = effort_profile(effort).variant_limit;
    let mut plan: Vec<VariantSpec> = build_variant_plan_raw(Effort::Balanced);
    let more: Vec<VariantSpec> = build_variant_plan_raw(Effort::Thorough);
    let mut names: Vec<String> = names_of(&plan);
    let mut n: usize = 0;
    while n < more.len()
        invariant
            limit == variant_limit(Effort::Thorough),
            more@ == own_plan(Effort::Thorough),
            n <= more@.len(),
            plan@ == extended(own_plan(Effort::Balanced), more@, n as int, limit as int),
            names@.len() == plan@.len(),
            forall|i: int|
                0 <= i < plan@.len() ==> (#[trigger] names@[i])@ == recipe_name(plan@[i].recipe),
        decreases more@.len() - n,
    {
        let variant: VariantSpec = more[n];
        let name: String = variant.name();
        if plan.len() < limit && !is_named(&names, &name, Ghost(plan@)) {
            plan.push(variant);
            names.push(name);
        }
        n += 1;
    }
    plan
}

/// The channel that a variant shows.
pub open spec fn channel_of(recipe: Recipe) -> Option<Channel> {
    match recipe {
        Recipe::Original => None,
        Recipe::Channel { channel } => Some(channel),
        Recipe::Calibrated { .. } => Some(Channel::Luma),
        Recipe::Standard { channel, .. } => Some(channel),
    }
}

/// The factor by which a variant is enlarged.
pub open spec fn scale_of(recipe: Recipe) -> int {
    match recipe {
        Recipe::Original => 1,
        Recipe::Channel { channel } => 1,
        Recipe::Calibrated { scale, .. } => scale as int,
        Recipe::Standard { scale, .. } => scale as int,
    }
}

/// The channel that a variant shows.
pub fn variant_channel(spec: &VariantSpec) -> (channel: Option<Channel>)
    ensures
        channel == channel_of(spec.recipe),
{
    match spec.recipe {
        Recipe::Original => None,
        Recipe::Channel { channel } => Some(channel),
        Recipe::Calibrated { .. } => Some(Channel::Luma),
        Recipe::Standard { channel, .. } => Some(channel),
    }
}

/// The factor by which a variant is enlarged.
pub fn variant_scale(spec: &VariantSpec) -> (scale: u32)
    ensures
        scale == scale_of(spec.recipe),
{
    match spec.recipe {
        Recipe::Original => 1,
        Recipe::Channel { .. } => 1,
        Recipe::Calibrated { scale, .. } => scale,
        Recipe::Standard { scale, .. } => scale,
    }
}

/// The variants of batch `index`: every `count`-th of the plan.
pub open spec fn batch(plan: Seq<VariantSpec>, index: int, count: int) -> Seq<VariantSpec>
    recommends
        0 <= index < count,
{
    Seq::new(
        (if index < plan.len() {
            (plan.len() - index + count - 1) / count
        } else {
            0
        }) as nat,
        |k: int| plan[index + k * count],
    )
}

/// Every variant of a plan is in the batch that its place names, and in that
/// batch only once.
pub proof fn batches_cover_plan(plan: Seq<VariantSpec>, count: int, i: int)
    requires
        1 <= count,
        0 <= i < plan.len(),
    ensures
        0 <= i % count < count,
        0 <= i / count < batch(plan, i % count, count).len(),
        batch(plan, i % count, count)[i / count] == plan[i],
{
    let b = i % count;
    let k = i / count;
    vstd::arithmetic::div_mod::lemma_fundamental_div_mod(i, count);
    vstd::arithmetic::mul::lemma_mul_is_commutative(count, k);
    let room = plan.len() - b + count - 1;
    assert(k < room / count) by (nonlinear_arith)
        requires
            1 <= count,
            b + k * count < plan.len(),
            room == plan.len() - b + count - 1,
    ;
}

/// Two places of batches that show one place of a plan are the same place of
/// the same batch: batches share nothing.
pub proof fn batches_are_disjoint(
    plan: Seq<VariantSpec>,
    count: int,
    index_a: int,
    k_a: int,
    index_b: int,
    k_b: int,
)
    requires
        1 <= count,
        0 <= index_a < count,
        0 <= index_b < count,
        0 <= k_a < batch(plan, index_a, count).len(),
        0 <= k_b < batch(plan, index_b, count).len(),
        index_a + k_a * count == index_b + k_b * count,
    ensures
        index_a == index_b,
        k_a == k_b,
{
    vstd::arithmetic::div_mod::lemma_fundamental_div_mod_converse(
        index_a + k_a * count,
        count,
        k_a,
        index_a,
    );
    vstd::arithmetic::div_mod::lemma_fundamental_div_mod_converse(
        index_b + k_b * count,
        count,
        k_b,
        index_b,
    );
}

/// Selects the variants of one of `batch_count` batches.
pub fn select_variant_batch(
    plan: &Vec<VariantSpec>,
    batch_index: usize,
    batch_count: usize,
) -> (selected: Vec<VariantSpec>)
    requires
        batch_index < batch_count,
    ensures
        selected@ == batch(plan@, batch_index as int, batch_count as int),
{
    let mut selected: Vec<VariantSpec> = Vec::new();
    let mut i: usize = batch_index;
    let mut ended: bool = batch_index >= plan.len();
    let ghost all = batch(plan@, batch_index as int, batch_count as int);
    assert(0 * batch_count == 0);
    while !ended
        invariant
            batch_index < batch_count,
            all == batch(plan@, batch_index as int, batch_count as int),
            !ended ==> i < plan@.len() && i == batch_index + selected@.len() * batch_count,
            ended ==> batch_index + selected@.len() * batch_count >= plan@.len(),
            selected@.len() <= all.len(),
            selected@ == all.take(selected@.len() as int),
        decreases plan@.len() - selected@.len() + (if ended {
            0int
        } else {
            1
        }),
    {
        let ghost k = selected@.len() as int;
        proof {
            let room = plan@.len() - batch_index + batch_count - 1;
            assert(k < room / (batch_count as int)) by (nonlinear_arith)
                requires
                    1 <= batch_count,
                    batch_index + k * batch_count < plan@.len(),
                    room == plan@.len() - batch_index + batch_count - 1,
            ;
            assert((k + 1) * batch_count == k * batch_count + batch_count) by (nonlinear_arith);
            assert(k <= k * batch_count) by (nonlinear_arith)
                requires
                    0 <= k,
                    1 <= batch_count,
            ;
        }
        selected.push(plan[i]);
        assert(selected@ =~= all.take(k + 1));
        if plan.len() - i > batch_count {
            i += batch_count;
        } else {
            ended = true;
        }
    }
    proof {
        let k = selected@.len() as int;
        if batch_index < plan@.len() {
            let room = plan@.len() - batch_index + batch_count - 1;
            assert(room / (batch_count as int) <= k) by (nonlinear_arith)
                requires
                    1 <= batch_count,
                    batch_index + k * batch_count >= plan@.len(),
                    room == plan@.len() - batch_index + batch_count - 1,
            ;
        }
        assert(all.take(k) =~= all);
    }
    selected
}

/// Whether a variant is an enlargement that ends with the given transform.
pub open spec fn ends_with(recipe: Recipe, terminal: Terminal) -> bool {
    recipe matches Recipe::Standard { terminal: last, .. } && last == terminal
}

/// Whether no variant of a plan ends with the given transform.
pub open spec fn lacks(plan: Seq<VariantSpec>, terminal: Terminal) -> bool {
    forall|i: int| 0 <= i < plan.len() ==> !ends_with((#[trigger] plan[i]).recipe, terminal)
}

proof fn lemma_family_terminals(
    effort: Effort,
    coverage: Coverage,
    terminal: Terminal,
    quality: int,
    n: int,
)
    requires
        0 <= n,
    ensures
        forall|i: int|
            0 <= i < family(effort, coverage, terminal, quality, n).len() ==> ends_with(
                (#[trigger] family(effort, coverage, terminal, quality, n)[i]).recipe,
                terminal,
            ),
        family(effort, coverage, terminal, quality, n).len() <= n,
        coverage == Coverage::All ==> family(effort, coverage, terminal, quality, n).len() == n,
    decreases n,
{
    if n > 0 {
        lemma_family_terminals(effort, coverage, terminal, quality, n - 1);
    }
}

proof fn lemma_other_lacks(effort: Effort, terminal: Terminal, n: int)
    requires
        0 <= n,
        terminal == Terminal::Invert || terminal == Terminal::Nearest,
    ensures
        lacks(other_adaptive(effort, n), terminal),
    decreases n,
{
    if n > 0 {
        lemma_other_lacks(effort, terminal, n - 1);
        let (window, bias) = adaptive_settings(effort)[n - 1];
        lemma_family_terminals(
            effort,
            Coverage::Reduced,
            Terminal::Adaptive { window, bias },
            30,
            all_combinations(effort).len() as int,
        );
    }
}

proof fn lemma_calibrated_lacks(effort: Effort, terminal: Terminal, n: int)
    requires
        0 <= n <= scales(effort).len(),
    ensures
        lacks(calibrated_families(effort, n), terminal),
        calibrated_families(effort, n).len() <= 5 * n,
    decreases n,
{
    if n > 0 {
        lemma_calibrated_lacks(effort, terminal, n - 1);
    }
}

proof fn lemma_leading_lacks(effort: Effort, terminal: Terminal)
    requires
        terminal == Terminal::Invert || terminal == Terminal::Nearest,
    ensures
        lacks(leading_variants(effort), terminal),
        leading_variants(effort).len() <= 5 + 5 * scales(effort).len() + 3 * all_combinations(
            effort,
        ).len(),
{
    let all = all_combinations(effort).len() as int;
    let (window, bias) = primary_adaptive(effort);
    lemma_calibrated_lacks(effort, terminal, scales(effort).len() as int);
    lemma_family_terminals(effort, Coverage::All, Terminal::Identity, 20, all);
    lemma_family_terminals(effort, Coverage::All, Terminal::Otsu, 24, all);
    lemma_family_terminals(effort, Coverage::All, Terminal::Adaptive { window, bias }, 30, all);
    assert(lacks(plain_variants(), terminal));
    assert(lacks(covering_families(effort), terminal));
}

proof fn lemma_balanced_lacks(terminal: Terminal)
    requires
        terminal == Terminal::Invert || terminal == Terminal::Nearest,
    ensures
        lacks(own_plan(Effort::Balanced), terminal),
{
    let effort = Effort::Balanced;
    let all = all_combinations(effort).len() as int;
    let amount = sharpening(effort);
    lemma_leading_lacks(effort, terminal);
    lemma_other_lacks(effort, terminal, adaptive_settings(effort).len() as int);
    lemma_family_terminals(effort, Coverage::Focused, Terminal::Unsharp { amount }, 26, all);
    lemma_family_terminals(
        effort,
        Coverage::Focused,
        Terminal::UnsharpAdaptive { amount, window: 25, bias: 5 },
        34,
        all,
    );
    assert(lacks(unsharp_family(effort), terminal));
    assert(lacks(sharpened_family(effort), terminal));
    assert(lacks(wanted_variants(effort), terminal));
}

proof fn lemma_decimal_ends(value: nat)
    ensures
        decimal(value).len() > 0,
        decimal(value).last() != 't',
        decimal(value).last() != 'e',
    decreases value,
{
    reveal_with_fuel(decimal, 2);
    if value >= 10 {
        lemma_decimal_ends(value / 10);
    }
}

proof fn lemma_channel_starts(channel: Channel)
    ensures
        channel_name(channel).len() > 0,
        channel_name(channel)[0] != 'i',
        channel_name(channel).last() != 't',
{
    reveal_strlit("luma");
    reveal_strlit("red");
    reveal_strlit("green");
    reveal_strlit("blue");
    reveal_strlit("min");
}

/// Only inverted variants have names that start with an i.
proof fn lemma_name_starts(recipe: Recipe)
    ensures
        recipe_name(recipe).len() > 0,
        (recipe_name(recipe)[0] == 'i') == ends_with(recipe, Terminal::Invert),
{
    reveal_strlit("original");
    reveal_strlit("gray");
    reveal_strlit("channel-");
    reveal_strlit("s");
    reveal_strlit("inverted-");
    match recipe {
        Recipe::Standard { channel, scale, terminal } => {
            lemma_channel_starts(channel);
        },
        _ => {},
    }
}

/// Whether a name ends as those of unblended enlargements do.
spec fn ends_nearest(name: Seq<char>) -> bool {
    name.len() >= 3 && name[name.len() - 1] == 't' && name[name.len() - 3] == 'e'
}

proof fn lemma_suffix_ends(terminal: Terminal)
    ensures
        standard_suffix(terminal).len() >= 3,
        ends_nearest(standard_suffix(terminal)) == (terminal == Terminal::Nearest),
        calibrated_suffix(terminal).len() >= 3,
        !ends_nearest(calibrated_suffix(terminal)),
{
    reveal_strlit("gray");
    reveal_strlit("otsu");
    reveal_strlit("adapt");
    reveal_strlit("-c");
    reveal_strlit("-");
    reveal_strlit("contrast");
    reveal_strlit("adaptive-");
    reveal_strlit("unsharp");
    reveal_strlit("unsharp-1p8");
    reveal_strlit("unsharp-adaptive");
    reveal_strlit("unsharp-1p8-adaptive");
    reveal_strlit("gamma-0.7");
    reveal_strlit("gamma-1.35");
    reveal_strlit("gamma-0.7-adaptive");
    reveal_strlit("gamma-1.35-adaptive");
    reveal_strlit("nearest");
    reveal_strlit("inverted");
    match terminal {
        Terminal::Adaptive { window, bias } => {
            lemma_decimal_ends(bias as nat);
        },
        Terminal::GaussianAdaptive { window, bias } => {
            lemma_decimal_ends(bias as nat);
        },
        _ => {},
    }
}

/// Only unblended enlargements have names that end as theirs do.
proof fn lemma_name_ends(recipe: Recipe)
    ensures
        ends_nearest(recipe_name(recipe)) == ends_with(recipe, Terminal::Nearest),
{
    match recipe {
        Recipe::Original => {
            reveal_strlit("original");
        },
        Recipe::Channel { channel } => {
            reveal_strlit("gray");
            lemma_channel_starts(channel);
        },
        Recipe::Calibrated { scale, terminal } => {
            lemma_suffix_ends(terminal);
            let name = recipe_name(recipe);
            let suffix = calibrated_suffix(terminal);
            let m = name.len() - suffix.len();
            assert(forall|k: int| 0 <= k < suffix.len() ==> name[m + k] == suffix[k]);
            assert(name[name.len() - 1] == suffix[suffix.len() - 1]);
            assert(name[name.len() - 3] == suffix[suffix.len() - 3]);
        },
        Recipe::Standard { channel, scale, terminal } => {
            if terminal == Terminal::Invert {
                lemma_channel_starts(channel);
            } else {
                lemma_suffix_ends(terminal);
                let name = recipe_name(recipe);
                let suffix = standard_suffix(terminal);
                let m = name.len() - suffix.len();
                assert(forall|k: int| 0 <= k < suffix.len() ==> name[m + k] == suffix[k]);
                assert(name[name.len() - 1] == suffix[suffix.len() - 1]);
                assert(name[name.len() - 3] == suffix[suffix.len() - 3]);
            }
        },
    }
}

/// A variant whose kind has new names gets into an extended plan while there is
/// room.
proof fn lemma_extended_keeps(
    plan: Seq<VariantSpec>,
    more: Seq<VariantSpec>,
    terminal: Terminal,
    k: int,
    n: int,
    limit: int,
)
    requires
        terminal == Terminal::Invert || terminal == Terminal::Nearest,
        0 <= k < more.len(),
        ends_with(more[k].recipe, terminal),
        lacks(plan, terminal),
        lacks(more.take(k), terminal),
        plan.len() + k < limit,
        0 <= n <= more.len(),
    ensures
        n <= k ==> lacks(extended(plan, more, n, limit), terminal) && extended(
            plan,
            more,
            n,
            limit,
        ).len() <= plan.len() + n,
        n > k ==> exists|i: int|
            plan.len() <= i < extended(plan, more, n, limit).len() && #[trigger] extended(
                plan,
                more,
                n,
                limit,
            )[i] == more[k],
        plan.len() <= extended(plan, more, n, limit).len(),
    decreases n,
{
    if n > 0 {
        lemma_extended_keeps(plan, more, terminal, k, n - 1, limit);
        let before = extended(plan, more, n - 1, limit);
        let after = extended(plan, more, n, limit);
        let name = recipe_name(more[n - 1].recipe);
        if n <= k {
            assert(more.take(k)[n - 1] == more[n - 1]);
        } else if n == k + 1 {
            if has_name(before, name) {
                let i = choose|i: int|
                    0 <= i < before.len() && recipe_name((#[trigger] before[i]).recipe) == name;
                lemma_name_starts(before[i].recipe);
                lemma_name_starts(more[k].recipe);
                lemma_name_ends(before[i].recipe);
                lemma_name_ends(more[k].recipe);
                assert(!ends_with(before[i].recipe, terminal));
            }
            assert(after[before.len() as int] == more[k]);
        } else {
            let i = choose|i: int|
                plan.len() <= i < before.len() && #[trigger] before[i] == more[k];
            assert(after[i] == more[k]);
        }
    }
}

proof fn lemma_thorough_combinations()
    ensures
        all_combinations(Effort::Thorough).len() == 25,
        all_combinations(Effort::Thorough)[24].1 == 6,
{
    let (c, s) = (channels(Effort::Thorough).len(), scales(Effort::Thorough).len());
    assert(c == 5 && s == 5);
    assert(s * c == 25) by (nonlinear_arith)
        requires
            c == 5,
            s == 5,
    ;
    assert(24int / c as int == 4) by (nonlinear_arith)
        requires
            c == 5,
    ;
}

proof fn lemma_largest_family()
    ensures
        whole_family(Effort::Thorough, Coverage::Largest, Terminal::Nearest, 18).len() > 0,
{
    let effort = Effort::Thorough;
    lemma_thorough_combinations();
    assert(covers(Coverage::Largest, effort, all_combinations(effort)[24]));
}

/// The thorough plan goes beyond the balanced one: it has the inverted luma and
/// enlargements that blend nothing.
pub proof fn thorough_tries_more()
    ensures
        variant_plan(Effort::Thorough).len() > variant_plan(Effort::Balanced).len(),
        exists|i: int|
            variant_plan(Effort::Balanced).len() <= i < variant_plan(Effort::Thorough).len()
                && #[trigger] variant_plan(Effort::Thorough)[i] == inverted_variant(),
        exists|i: int|
            variant_plan(Effort::Balanced).len() <= i < variant_plan(Effort::Thorough).len()
                && ends_with(
                (#[trigger] variant_plan(Effort::Thorough)[i]).recipe,
                Terminal::Nearest,
            ),
{
    let effort = Effort::Thorough;
    let more = own_plan(effort);
    let wanted = wanted_variants(effort);
    let leading = leading_variants(effort);
    let unusual = unusual_variants(effort);
    let limit = variant_limit(effort);
    let k = leading.len() as int;
    lemma_thorough_combinations();
    assert(scales(effort).len() == 5);
    lemma_leading_lacks(effort, Terminal::Invert);
    lemma_leading_lacks(effort, Terminal::Nearest);
    lemma_balanced_lacks(Terminal::Invert);
    lemma_balanced_lacks(Terminal::Nearest);
    lemma_largest_family();
    lemma_family_terminals(effort, Coverage::Largest, Terminal::Nearest, 18, 25);
    assert(unusual[0] == inverted_variant());
    assert(ends_with(unusual[1].recipe, Terminal::Nearest));
    assert(wanted.take(k + 2) =~= leading + unusual.take(2));
    assert(more.len() >= k + 2);
    assert(more[k] == unusual[0]);
    assert(more[k + 1] == unusual[1]);
    assert(more.take(k) =~= leading);
    assert(more.take(k + 1) =~= leading.push(inverted_variant()));
    lemma_extended_keeps(
        own_plan(Effort::Balanced),
        more,
        Terminal::Invert,
        k,
        more.len() as int,
        limit,
    );
    lemma_extended_keeps(
        own_plan(Effort::Balanced),
        more,
        Terminal::Nearest,
        k + 1,
        more.len() as int,
        limit,
    );
}

} // verus!
