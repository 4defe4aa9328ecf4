//! How long plans are, and that the names of their variants tell them apart.

use vstd::prelude::*;

use crate::effort::{
    adaptive_settings, channel_name, channels, scales, variant_limit, Channel, Effort,
};
use crate::plan::{
    all_combinations, calibrated_families, calibrated_family, calibrated_suffix, channel_of,
    covering_families, covers, extended, family, has_name, inverted_variant, lacks, largest_scale,
    leading_variants, limited, other_adaptive, own_plan, plain_variants, primary_adaptive,
    recipe_name, sharpened_family, sharpening, standard_suffix, thorough_families, tone_families,
    unsharp_family, unusual_variants, variant_plan, wanted_variants, whole_family, Coverage, Recipe,
    Sharpening, Terminal, ToneCurve, VariantSpec,
};
use crate::text::{decimal, digit};

verus! {

/// Whether a transform is one that plans end standard variants with.
spec fn planned_terminal(terminal: Terminal) -> bool {
    match terminal {
        Terminal::Adaptive { window, bias } => 10 <= window <= 99 && bias <= 99,
        Terminal::UnsharpAdaptive { amount, window, bias } => window == 25 && bias == 5,
        Terminal::GammaAdaptive { curve, window, bias } => window == 35 && bias == 7,
        Terminal::GaussianAdaptive { .. } => false,
        _ => true,
    }
}

/// Whether a transform is one that plans end calibrated variants with.
spec fn planned_calibration(terminal: Terminal) -> bool {
    match terminal {
        Terminal::Identity => true,
        Terminal::Otsu => true,
        Terminal::GaussianAdaptive { window, bias } => 10 <= window <= 99 && bias <= 99,
        _ => false,
    }
}

/// Whether a recipe is one of those that plans are made of.
spec fn planned(recipe: Recipe) -> bool {
    match recipe {
        Recipe::Original => true,
        Recipe::Channel { channel } => true,
        Recipe::Calibrated { scale, terminal } => 1 <= scale <= 9 && planned_calibration(terminal),
        Recipe::Standard { channel, scale, terminal } => 1 <= scale <= 9 && planned_terminal(
            terminal,
        ) && (terminal == Terminal::Invert ==> scale == 1),
    }
}

proof fn lemma_digit(a: nat, b: nat)
    requires
        a < 10,
        b < 10,
        digit(a) == digit(b),
    ensures
        a == b,
{
}

proof fn lemma_decimal(value: nat)
    requires
        value < 100,
    ensures
        value < 10 ==> decimal(value) == seq![digit(value)],
        value >= 10 ==> decimal(value) == seq![digit(value / 10), digit(value % 10)],
{
    reveal_with_fuel(decimal, 2);
    if value >= 10 {
        assert(decimal(value) =~= seq![digit(value / 10), digit(value % 10)]);
    }
}

proof fn lemma_decimal_injective(a: nat, b: nat)
    requires
        a < 100,
        b < 100,
        decimal(a) == decimal(b),
    ensures
        a == b,
{
    lemma_decimal(a);
    lemma_decimal(b);
    if a < 10 {
        assert(decimal(a).len() == 1);
        if b >= 10 {
            assert(decimal(b).len() == 2);
        }
        assert(seq![digit(a)][0] == digit(a) && seq![digit(b)][0] == digit(b));
        lemma_digit(a, b);
    } else {
        assert(decimal(a).len() == 2);
        if b < 10 {
            assert(decimal(b).len() == 1);
        }
        assert(decimal(a)[0] == decimal(b)[0] && decimal(a)[1] == decimal(b)[1]);
        lemma_digit(a / 10, b / 10);
        lemma_digit(a % 10, b % 10);
    }
}

/// A text between a start of a known length and its end.
proof fn lemma_middle(a: Seq<char>, x: Seq<char>, y: Seq<char>)
    requires
        a + x == a + y,
    ensures
        x == y,
{
    assert(x =~= (a + x).subrange(a.len() as int, (a + x).len() as int));
    assert(y =~= (a + y).subrange(a.len() as int, (a + y).len() as int));
}

/// Numbers between the same texts: equal texts have equal numbers.
proof fn lemma_settings(start: Seq<char>, dash: Seq<char>, w: nat, b: nat, v: nat, c: nat)
    requires
        10 <= w < 100,
        10 <= v < 100,
        b < 100,
        c < 100,
        start + decimal(w) + dash + decimal(b) == start + decimal(v) + dash + decimal(c),
    ensures
        w == v,
        b == c,
{
    lemma_decimal(w);
    lemma_decimal(v);
    let x = start + decimal(w) + dash + decimal(b);
    let y = start + decimal(v) + dash + decimal(c);
    let m = start.len() as int;
    assert(decimal(w) =~= x.subrange(m, m + 2));
    assert(decimal(v) =~= y.subrange(m, m + 2));
    lemma_decimal_injective(w, v);
    lemma_middle(start + decimal(w) + dash, decimal(b), decimal(c));
    lemma_decimal_injective(b, c);
}

proof fn lemma_suffix_shape(terminal: Terminal)
    requires
        planned_terminal(terminal),
        terminal != Terminal::Invert,
    ensures
        ({
            let text = standard_suffix(terminal);
            match terminal {
                Terminal::Identity => text.len() == 8,
                Terminal::Otsu => text.len() == 4,
                Terminal::Adaptive { window, bias } => 13 <= text.len() <= 14 && text[0] == 'a',
                Terminal::GaussianAdaptive { .. } => true,
                Terminal::Unsharp { amount } => text[0] == 'u' && text.len() == (if amount
                    == Sharpening::Standard {
                    7int
                } else {
                    11
                }),
                Terminal::UnsharpAdaptive { amount, window, bias } => text[0] == 'u' && text.len()
                    == (if amount == Sharpening::Standard {
                    16int
                } else {
                    20
                }),
                Terminal::Gamma { curve } => text[0] == 'g' && text.len() == (if curve
                    == ToneCurve::Brighten {
                    9int
                } else {
                    10
                }),
                Terminal::GammaAdaptive { curve, window, bias } => text[0] == 'g' && text.len()
                    == (if curve == ToneCurve::Brighten {
                    18int
                } else {
                    19
                }),
                Terminal::Nearest => text.len() == 7 && text[0] == 'n',
                Terminal::Invert => true,
            }
        }),
{
    reveal_strlit("contrast");
    reveal_strlit("otsu");
    reveal_strlit("adaptive-");
    reveal_strlit("-");
    reveal_strlit("unsharp");
    reveal_strlit("unsharp-1p8");
    reveal_strlit("unsharp-adaptive");
    reveal_strlit("unsharp-1p8-adaptive");
    reveal_strlit("gamma-0.7");
    reveal_strlit("gamma-1.35");
    reveal_strlit("gamma-0.7-adaptive");
    reveal_strlit("gamma-1.35-adaptive");
    reveal_strlit("nearest");
    if let Terminal::Adaptive { window, bias } = terminal {
        lemma_decimal(window as nat);
        lemma_decimal(bias as nat);
    }
}

proof fn lemma_suffix_injective(a: Terminal, b: Terminal)
    requires
        planned_terminal(a),
        planned_terminal(b),
        a != Terminal::Invert,
        b != Terminal::Invert,
        standard_suffix(a) == standard_suffix(b),
    ensures
        a == b,
{
    lemma_suffix_shape(a);
    lemma_suffix_shape(b);
    match (a, b) {
        (
            Terminal::Adaptive { window: w, bias: c },
            Terminal::Adaptive { window: v, bias: d },
        ) => {
            lemma_settings("adaptive-"@, "-"@, w as nat, c as nat, v as nat, d as nat);
        },
        _ => {},
    }
}

proof fn lemma_calibration_start(terminal: Terminal)
    requires
        planned_calibration(terminal),
    ensures
        calibrated_suffix(terminal)[0] == (match terminal {
            Terminal::Identity => 'g',
            Terminal::Otsu => 'o',
            _ => 'a',
        }),
{
    reveal_strlit("gray");
    reveal_strlit("otsu");
    reveal_strlit("adapt");
    if let Terminal::GaussianAdaptive { window, bias } = terminal {
        let start = "adapt"@ + decimal(window as nat);
        assert(start[0] == 'a');
        assert((start + "-c"@)[0] == 'a');
    }
}

proof fn lemma_calibration_injective(a: Terminal, b: Terminal)
    requires
        planned_calibration(a),
        planned_calibration(b),
        calibrated_suffix(a) == calibrated_suffix(b),
    ensures
        a == b,
{
    lemma_calibration_start(a);
    lemma_calibration_start(b);
    match (a, b) {
        (
            Terminal::GaussianAdaptive { window: w, bias: c },
            Terminal::GaussianAdaptive { window: v, bias: d },
        ) => {
            lemma_settings("adapt"@, "-c"@, w as nat, c as nat, v as nat, d as nat);
        },
        _ => {},
    }
}

proof fn lemma_channel_injective(a: Channel, b: Channel)
    requires
        channel_name(a)[0] == channel_name(b)[0],
    ensures
        a == b,
{
    reveal_strlit("luma");
    reveal_strlit("red");
    reveal_strlit("green");
    reveal_strlit("blue");
    reveal_strlit("min");
}

proof fn lemma_channel_shape(channel: Channel)
    ensures
        3 <= channel_name(channel).len() <= 5,
        channel_name(channel)[0] == 'l' || channel_name(channel)[0] == 'r' || channel_name(
            channel,
        )[0] == 'b' || channel_name(channel)[0] == 'm' || (channel_name(channel)[0] == 'g'
            && channel_name(channel)[2] == 'e'),
{
    reveal_strlit("luma");
    reveal_strlit("red");
    reveal_strlit("green");
    reveal_strlit("blue");
    reveal_strlit("min");
}

/// How the name of a recipe starts.
proof fn lemma_name_shape(recipe: Recipe)
    requires
        planned(recipe),
    ensures
        ({
            let name = recipe_name(recipe);
            &&& name.len() >= 4
            &&& match recipe {
                Recipe::Original => name[0] == 'o',
                Recipe::Channel { channel } => if channel == Channel::Luma {
                    name[0] == 'g' && name[2] == 'a'
                } else {
                    name[0] == 'c'
                },
                Recipe::Calibrated { .. } => name[0] == 's',
                Recipe::Standard { channel, scale, terminal } => if terminal == Terminal::Invert {
                    name[0] == 'i'
                } else {
                    name[0] == channel_name(channel)[0] && name[2] == channel_name(channel)[2]
                },
            }
        }),
{
    match recipe {
        Recipe::Original => {
            reveal_strlit("original");
        },
        Recipe::Channel { channel } => {
            reveal_strlit("gray");
            reveal_strlit("channel-");
        },
        Recipe::Calibrated { scale, terminal } => {
            reveal_strlit("s");
            reveal_strlit("-lanczos-");
        },
        Recipe::Standard { channel, scale, terminal } => {
            reveal_strlit("inverted-");
            reveal_strlit("-");
            reveal_strlit("x-");
            lemma_channel_shape(channel);
        },
    }
}

/// The names of planned recipes tell them apart.
proof fn lemma_names_injective(a: Recipe, b: Recipe)
    requires
        planned(a),
        planned(b),
        recipe_name(a) == recipe_name(b),
    ensures
        a == b,
{
    lemma_name_shape(a);
    lemma_name_shape(b);
    let name = recipe_name(a);
    match (a, b) {
        (Recipe::Channel { channel: c }, Recipe::Channel { channel: d }) => {
            if c != Channel::Luma && d != Channel::Luma {
                lemma_middle("channel-"@, channel_name(c), channel_name(d));
                lemma_channel_injective(c, d);
            }
        },
        (
            Recipe::Calibrated { scale: s, terminal: t },
            Recipe::Calibrated { scale: r, terminal: u },
        ) => {
            reveal_strlit("s");
            lemma_decimal(s as nat);
            lemma_decimal(r as nat);
            assert(recipe_name(a)[1] == digit(s as nat));
            assert(recipe_name(b)[1] == digit(r as nat));
            lemma_digit(s as nat, r as nat);
            lemma_middle(
                "s"@ + decimal(s as nat) + "-lanczos-"@,
                calibrated_suffix(t),
                calibrated_suffix(u),
            );
            lemma_calibration_injective(t, u);
        },
        (
            Recipe::Standard { channel: c, scale: s, terminal: t },
            Recipe::Standard { channel: d, scale: r, terminal: u },
        ) => {
            lemma_channel_shape(c);
            lemma_channel_shape(d);
            if t == Terminal::Invert && u == Terminal::Invert {
                lemma_middle("inverted-"@, channel_name(c), channel_name(d));
                lemma_channel_injective(c, d);
            } else if t != Terminal::Invert && u != Terminal::Invert {
                reveal_strlit("-");
                lemma_channel_injective(c, d);
                lemma_decimal(s as nat);
                lemma_decimal(r as nat);
                let m = channel_name(c).len() as int;
                assert(recipe_name(a)[m + 1] == digit(s as nat));
                assert(recipe_name(b)[m + 1] == digit(r as nat));
                lemma_digit(s as nat, r as nat);
                lemma_middle(
                    channel_name(c) + "-"@ + decimal(s as nat) + "x-"@,
                    standard_suffix(t),
                    standard_suffix(u),
                );
                lemma_suffix_injective(t, u);
            }
        },
        (Recipe::Channel { channel: c }, Recipe::Standard { channel: d, .. }) => {
            lemma_channel_shape(d);
        },
        (Recipe::Standard { channel: c, .. }, Recipe::Channel { channel: d }) => {
            lemma_channel_shape(c);
        },
        (Recipe::Standard { channel: c, .. }, _) => {
            lemma_channel_shape(c);
        },
        (_, Recipe::Standard { channel: d, .. }) => {
            lemma_channel_shape(d);
        },
        _ => {},
    }
}

/// How many of the first `n` combinations are covered.
spec fn covered(effort: Effort, coverage: Coverage, n: int) -> int
    decreases n,
{
    if n <= 0 {
        0
    } else {
        covered(effort, coverage, n - 1) + (if covers(
            coverage,
            effort,
            all_combinations(effort)[n - 1],
        ) {
            1int
        } else {
            0
        })
    }
}

proof fn lemma_family_len(
    effort: Effort,
    coverage: Coverage,
    terminal: Terminal,
    quality: int,
    n: int,
)
    ensures
        family(effort, coverage, terminal, quality, n).len() == covered(effort, coverage, n),
    decreases n,
{
    if n > 0 {
        lemma_family_len(effort, coverage, terminal, quality, n - 1);
    }
}

proof fn lemma_fast_combinations()
    ensures
        all_combinations(Effort::Fast) == seq![(Channel::Luma, 1u32), (Channel::Luma, 2u32)],
{
    let list = all_combinations(Effort::Fast);
    let (c, s) = (channels(Effort::Fast), scales(Effort::Fast));
    assert(c.len() == 1 && s.len() == 2);
    assert(s.len() * c.len() == 2) by (nonlinear_arith)
        requires
            c.len() == 1,
            s.len() == 2,
    ;
    assert(list =~= seq![(Channel::Luma, 1u32), (Channel::Luma, 2u32)]);
}

proof fn lemma_balanced_combination(i: int)
    requires
        0 <= i < 16,
    ensures
        all_combinations(Effort::Balanced).len() == 16,
        all_combinations(Effort::Balanced)[i] == (
            seq![Channel::Luma, Channel::Green, Channel::Red, Channel::Blue][i % 4],
            seq![1u32, 2, 3, 4][i / 4],
        ),
{
    let (c, s) = (channels(Effort::Balanced), scales(Effort::Balanced));
    assert(c.len() == 4 && s.len() == 4);
    assert(s.len() * c.len() == 16) by (nonlinear_arith)
        requires
            c.len() == 4,
            s.len() == 4,
    ;
}

proof fn lemma_balanced_covered(coverage: Coverage)
    ensures
        all_combinations(Effort::Balanced).len() == 16,
        covered(Effort::Balanced, coverage, 16) == (match coverage {
            Coverage::All => 16int,
            Coverage::Focused => 10,
            Coverage::Reduced => 7,
            Coverage::Largest => 4,
            Coverage::Smaller => 12,
        }),
{
    reveal_with_fuel(covered, 17);
    lemma_balanced_combination(0);
    lemma_balanced_combination(1);
    lemma_balanced_combination(2);
    lemma_balanced_combination(3);
    lemma_balanced_combination(4);
    lemma_balanced_combination(5);
    lemma_balanced_combination(6);
    lemma_balanced_combination(7);
    lemma_balanced_combination(8);
    lemma_balanced_combination(9);
    lemma_balanced_combination(10);
    lemma_balanced_combination(11);
    lemma_balanced_combination(12);
    lemma_balanced_combination(13);
    lemma_balanced_combination(14);
    lemma_balanced_combination(15);
}

proof fn lemma_fast_len()
    ensures
        own_plan(Effort::Fast) == wanted_variants(Effort::Fast),
        wanted_variants(Effort::Fast).len() == 20,
{
    let effort = Effort::Fast;
    lemma_fast_combinations();
    reveal_with_fuel(covered, 3);
    reveal_with_fuel(calibrated_families, 3);
    reveal_with_fuel(other_adaptive, 3);
    assert(scales(effort).len() == 2 && adaptive_settings(effort).len() == 2);
    lemma_family_len(effort, Coverage::All, Terminal::Identity, 20, 2);
    lemma_family_len(effort, Coverage::All, Terminal::Otsu, 24, 2);
    lemma_family_len(effort, Coverage::All, Terminal::Adaptive { window: 21, bias: 5 }, 30, 2);
    lemma_family_len(
        effort,
        Coverage::Focused,
        Terminal::Unsharp { amount: sharpening(effort) },
        26,
        2,
    );
    lemma_family_len(
        effort,
        Coverage::Reduced,
        Terminal::Adaptive { window: 35, bias: 8 },
        30,
        2,
    );
    assert(calibrated_families(effort, 2).len() == 5);
    assert(other_adaptive(effort, 2).len() == 2);
    assert(covering_families(effort).len() == 6);
    assert(unsharp_family(effort).len() == 2);
    assert(leading_variants(effort).len() == 16);
}

proof fn lemma_balanced_len()
    ensures
        own_plan(Effort::Balanced) == wanted_variants(Effort::Balanced),
        wanted_variants(Effort::Balanced).len() == 102,
{
    let effort = Effort::Balanced;
    let amount = sharpening(effort);
    lemma_balanced_covered(Coverage::All);
    lemma_balanced_covered(Coverage::Focused);
    lemma_balanced_covered(Coverage::Reduced);
    reveal_with_fuel(calibrated_families, 5);
    reveal_with_fuel(other_adaptive, 4);
    assert(scales(effort).len() == 4 && adaptive_settings(effort).len() == 3);
    lemma_family_len(effort, Coverage::All, Terminal::Identity, 20, 16);
    lemma_family_len(effort, Coverage::All, Terminal::Otsu, 24, 16);
    lemma_family_len(effort, Coverage::All, Terminal::Adaptive { window: 25, bias: 5 }, 30, 16);
    lemma_family_len(effort, Coverage::Focused, Terminal::Unsharp { amount }, 26, 16);
    lemma_family_len(
        effort,
        Coverage::Focused,
        Terminal::UnsharpAdaptive { amount, window: 25, bias: 5 },
        34,
        16,
    );
    lemma_family_len(
        effort,
        Coverage::Reduced,
        Terminal::Adaptive { window: 15, bias: 3 },
        30,
        16,
    );
    lemma_family_len(
        effort,
        Coverage::Reduced,
        Terminal::Adaptive { window: 41, bias: 8 },
        30,
        16,
    );
    assert(calibrated_families(effort, 4).len() == 15);
    assert(other_adaptive(effort, 3).len() == 14);
    assert(covering_families(effort).len() == 48);
    assert(leading_variants(effort).len() == 68);
}

/// Whether a variant shows no color channel.
pub open spec fn is_colorless(recipe: Recipe) -> bool {
    channel_of(recipe) is None || channel_of(recipe) == Some(Channel::Luma)
}

/// How many of the first `n` variants show no color channel.
pub open spec fn colorless_count(plan: Seq<VariantSpec>, n: int) -> int
    decreases n,
{
    if n <= 0 {
        0
    } else {
        colorless_count(plan, n - 1) + (if is_colorless(plan[n - 1].recipe) {
            1int
        } else {
            0
        })
    }
}

proof fn lemma_colorless_joined(a: Seq<VariantSpec>, b: Seq<VariantSpec>, n: int)
    requires
        0 <= n <= b.len(),
    ensures
        colorless_count(a + b, a.len() + n) == colorless_count(a, a.len() as int)
            + colorless_count(b, n),
    decreases n,
{
    if n > 0 {
        lemma_colorless_joined(a, b, n - 1);
        assert((a + b)[a.len() + n - 1] == b[n - 1]);
    } else {
        lemma_colorless_prefix(a + b, a, a.len() as int);
    }
}

proof fn lemma_colorless_prefix(a: Seq<VariantSpec>, b: Seq<VariantSpec>, n: int)
    requires
        0 <= n <= a.len(),
        n <= b.len(),
        forall|i: int| 0 <= i < n ==> a[i] == b[i],
    ensures
        colorless_count(a, n) == colorless_count(b, n),
    decreases n,
{
    if n > 0 {
        lemma_colorless_prefix(a, b, n - 1);
    }
}

/// How many variants of a plan show no color channel.
spec fn colorless(plan: Seq<VariantSpec>) -> int {
    colorless_count(plan, plan.len() as int)
}

proof fn lemma_colorless(a: Seq<VariantSpec>, b: Seq<VariantSpec>)
    ensures
        colorless(a + b) == colorless(a) + colorless(b),
{
    lemma_colorless_joined(a, b, b.len() as int);
}

/// How many of the first `n` combinations are covered and show luma.
spec fn covered_luma(effort: Effort, coverage: Coverage, n: int) -> int
    decreases n,
{
    if n <= 0 {
        0
    } else {
        let combination = all_combinations(effort)[n - 1];
        covered_luma(effort, coverage, n - 1) + (if covers(coverage, effort, combination)
            && combination.0 == Channel::Luma {
            1int
        } else {
            0
        })
    }
}

proof fn lemma_family_colorless(
    effort: Effort,
    coverage: Coverage,
    terminal: Terminal,
    quality: int,
    n: int,
)
    ensures
        colorless(family(effort, coverage, terminal, quality, n)) == covered_luma(
            effort,
            coverage,
            n,
        ),
    decreases n,
{
    if n > 0 {
        lemma_family_colorless(effort, coverage, terminal, quality, n - 1);
        let before = family(effort, coverage, terminal, quality, n - 1);
        let after = family(effort, coverage, terminal, quality, n);
        lemma_colorless_prefix(before, after, before.len() as int);
    }
}

proof fn lemma_calibrated_colorless(scale: u32)
    ensures
        colorless(calibrated_family(scale)) == 5,
{
    reveal_with_fuel(colorless_count, 6);
}

proof fn lemma_calibrated_all_colorless(effort: Effort, n: int)
    requires
        0 <= n <= scales(effort).len(),
    ensures
        colorless(calibrated_families(effort, n)) == calibrated_families(effort, n).len(),
    decreases n,
{
    if n > 0 {
        lemma_calibrated_all_colorless(effort, n - 1);
        lemma_calibrated_colorless(scales(effort)[n - 1]);
        lemma_colorless(
            calibrated_families(effort, n - 1),
            calibrated_family(scales(effort)[n - 1]),
        );
    }
}

proof fn lemma_plain_colorless()
    ensures
        colorless(plain_variants()) == 2,
{
    reveal_with_fuel(colorless_count, 6);
}

proof fn lemma_balanced_luma(coverage: Coverage)
    requires
        coverage == Coverage::All || coverage == Coverage::Focused || coverage
            == Coverage::Reduced,
    ensures
        covered_luma(Effort::Balanced, coverage, 16) == 4,
{
    reveal_with_fuel(covered_luma, 17);
    lemma_balanced_combination(0);
    lemma_balanced_combination(1);
    lemma_balanced_combination(2);
    lemma_balanced_combination(3);
    lemma_balanced_combination(4);
    lemma_balanced_combination(5);
    lemma_balanced_combination(6);
    lemma_balanced_combination(7);
    lemma_balanced_combination(8);
    lemma_balanced_combination(9);
    lemma_balanced_combination(10);
    lemma_balanced_combination(11);
    lemma_balanced_combination(12);
    lemma_balanced_combination(13);
    lemma_balanced_combination(14);
    lemma_balanced_combination(15);
}

/// The colorless variants of a plan of which every family covers `luma` of them.
proof fn lemma_wanted_colorless(effort: Effort, luma: int)
    requires
        effort == Effort::Fast || effort == Effort::Balanced,
        forall|coverage: Coverage|
            coverage == Coverage::All || coverage == Coverage::Focused || coverage
                == Coverage::Reduced ==> #[trigger] covered_luma(
                effort,
                coverage,
                all_combinations(effort).len() as int,
            ) == luma,
    ensures
        colorless(wanted_variants(effort)) == 2 + calibrated_families(
            effort,
            scales(effort).len() as int,
        ).len() + 4 * luma + (if effort == Effort::Balanced {
            luma
        } else {
            0
        }) + luma * (adaptive_settings(effort).len() - 1),
{
    let n = all_combinations(effort).len() as int;
    let a = adaptive_settings(effort).len() as int;
    let amount = sharpening(effort);
    let (window, bias) = primary_adaptive(effort);
    assert(covered_luma(effort, Coverage::All, n) == luma);
    assert(covered_luma(effort, Coverage::Focused, n) == luma);
    assert(covered_luma(effort, Coverage::Reduced, n) == luma);
    let contrast = whole_family(effort, Coverage::All, Terminal::Identity, 20);
    let otsu = whole_family(effort, Coverage::All, Terminal::Otsu, 24);
    let adaptive = whole_family(effort, Coverage::All, Terminal::Adaptive { window, bias }, 30);
    lemma_family_colorless(effort, Coverage::All, Terminal::Identity, 20, n);
    lemma_family_colorless(effort, Coverage::All, Terminal::Otsu, 24, n);
    lemma_family_colorless(effort, Coverage::All, Terminal::Adaptive { window, bias }, 30, n);
    lemma_family_colorless(effort, Coverage::Focused, Terminal::Unsharp { amount }, 26, n);
    lemma_family_colorless(
        effort,
        Coverage::Focused,
        Terminal::UnsharpAdaptive { amount, window: 25, bias: 5 },
        34,
        n,
    );
    lemma_colorless(contrast, otsu);
    lemma_colorless(contrast + otsu, adaptive);
    lemma_plain_colorless();
    let calibrated = calibrated_families(effort, scales(effort).len() as int);
    lemma_calibrated_all_colorless(effort, scales(effort).len() as int);
    lemma_colorless(plain_variants(), calibrated);
    lemma_colorless(plain_variants() + calibrated, covering_families(effort));
    let leading = leading_variants(effort);
    lemma_colorless(leading, unusual_variants(effort));
    lemma_colorless(leading + unusual_variants(effort), unsharp_family(effort));
    let sharp = leading + unusual_variants(effort) + unsharp_family(effort);
    lemma_colorless(sharp, sharpened_family(effort));
    lemma_colorless(sharp + sharpened_family(effort), other_adaptive(effort, a));
    lemma_other_colorless(effort, luma);
    lemma_colorless(
        sharp + sharpened_family(effort) + other_adaptive(effort, a),
        thorough_families(effort),
    );
}

proof fn lemma_other_colorless(effort: Effort, luma: int)
    requires
        effort == Effort::Fast || effort == Effort::Balanced,
        covered_luma(effort, Coverage::Reduced, all_combinations(effort).len() as int) == luma,
    ensures
        colorless(other_adaptive(effort, adaptive_settings(effort).len() as int)) == luma * (
        adaptive_settings(effort).len() - 1),
{
    reveal_with_fuel(other_adaptive, 4);
    let n = all_combinations(effort).len() as int;
    if effort == Effort::Fast {
        let terminal = Terminal::Adaptive { window: 35, bias: 8 };
        let one = whole_family(effort, Coverage::Reduced, terminal, 30);
        assert(adaptive_settings(effort).len() == 2);
        lemma_family_colorless(effort, Coverage::Reduced, terminal, 30, n);
        lemma_colorless(Seq::empty(), one);
        assert(other_adaptive(effort, 2) == Seq::<VariantSpec>::empty() + one);
    } else {
        let first = Terminal::Adaptive { window: 15, bias: 3 };
        let second = Terminal::Adaptive { window: 41, bias: 8 };
        let (one, two) = (
            whole_family(effort, Coverage::Reduced, first, 30),
            whole_family(effort, Coverage::Reduced, second, 30),
        );
        assert(adaptive_settings(effort).len() == 3);
        lemma_family_colorless(effort, Coverage::Reduced, first, 30, n);
        lemma_family_colorless(effort, Coverage::Reduced, second, 30, n);
        lemma_colorless(Seq::empty(), one);
        lemma_colorless(Seq::<VariantSpec>::empty() + one, two);
        assert(other_adaptive(effort, 3) == Seq::<VariantSpec>::empty() + one + two);
    }
}

/// Whether a plan is made of planned recipes.
spec fn all_planned(plan: Seq<VariantSpec>) -> bool {
    forall|i: int| 0 <= i < plan.len() ==> planned((#[trigger] plan[i]).recipe)
}

/// Whether a plan has a variant with the given recipe.
spec fn has_recipe(plan: Seq<VariantSpec>, recipe: Recipe) -> bool {
    exists|i: int| 0 <= i < plan.len() && (#[trigger] plan[i]).recipe == recipe
}

/// Whether no recipe stands in a plan twice.
spec fn distinct_recipes(plan: Seq<VariantSpec>) -> bool {
    forall|i: int, j: int|
        0 <= i < j < plan.len() ==> (#[trigger] plan[i]).recipe != (#[trigger] plan[j]).recipe
}

proof fn lemma_has_name(plan: Seq<VariantSpec>, recipe: Recipe)
    requires
        all_planned(plan),
        planned(recipe),
    ensures
        has_name(plan, recipe_name(recipe)) == has_recipe(plan, recipe),
{
    if has_name(plan, recipe_name(recipe)) {
        let i = choose|i: int|
            0 <= i < plan.len() && recipe_name((#[trigger] plan[i]).recipe) == recipe_name(recipe);
        lemma_names_injective(plan[i].recipe, recipe);
    }
    if has_recipe(plan, recipe) {
        let i = choose|i: int| 0 <= i < plan.len() && (#[trigger] plan[i]).recipe == recipe;
        assert(recipe_name(plan[i].recipe) == recipe_name(recipe));
    }
}

/// Those of the first `n` variants whose recipes a plan lacks.
spec fn fresh(plan: Seq<VariantSpec>, more: Seq<VariantSpec>, n: int) -> Seq<VariantSpec>
    decreases n,
{
    if n <= 0 {
        Seq::empty()
    } else if has_recipe(plan, more[n - 1].recipe) {
        fresh(plan, more, n - 1)
    } else {
        fresh(plan, more, n - 1).push(more[n - 1])
    }
}

/// All variants whose recipes a plan lacks.
spec fn all_fresh(plan: Seq<VariantSpec>, more: Seq<VariantSpec>) -> Seq<VariantSpec> {
    fresh(plan, more, more.len() as int)
}

proof fn lemma_fresh_members(plan: Seq<VariantSpec>, more: Seq<VariantSpec>, n: int)
    requires
        0 <= n <= more.len(),
    ensures
        forall|i: int|
            0 <= i < fresh(plan, more, n).len() ==> exists|k: int|
                0 <= k < n && #[trigger] fresh(plan, more, n)[i] == #[trigger] more[k],
    decreases n,
{
    if n > 0 {
        lemma_fresh_members(plan, more, n - 1);
        let before = fresh(plan, more, n - 1);
        let after = fresh(plan, more, n);
        assert forall|i: int| 0 <= i < after.len() implies exists|k: int|
            0 <= k < n && #[trigger] after[i] == #[trigger] more[k] by {
            if i < before.len() {
                let k = choose|k: int| 0 <= k < n - 1 && before[i] == #[trigger] more[k];
                assert(after[i] == more[k]);
            } else {
                assert(after[i] == more[n - 1]);
            }
        }
    }
}

/// Extending a plan adds what it lacks, up to the limit.
proof fn lemma_extended_fresh(
    plan: Seq<VariantSpec>,
    more: Seq<VariantSpec>,
    n: int,
    limit: int,
)
    requires
        all_planned(plan),
        all_planned(more),
        distinct_recipes(more),
        plan.len() <= limit,
        0 <= n <= more.len(),
    ensures
        extended(plan, more, n, limit) == limited(plan + fresh(plan, more, n), limit),
    decreases n,
{
    let after = plan + fresh(plan, more, n);
    if n > 0 {
        lemma_extended_fresh(plan, more, n - 1, limit);
        lemma_fresh_members(plan, more, n - 1);
        let earlier = fresh(plan, more, n - 1);
        let whole = plan + earlier;
        let before = limited(whole, limit);
        let recipe = more[n - 1].recipe;
        if before.len() >= limit {
            assert(before =~= limited(after, limit));
        } else {
            assert(before == whole);
            assert forall|i: int| 0 <= i < whole.len() implies planned(
                (#[trigger] whole[i]).recipe,
            ) && (i >= plan.len() ==> whole[i].recipe != recipe) by {
                if i >= plan.len() {
                    assert(whole[i] == earlier[i - plan.len()]);
                    let k = choose|k: int|
                        0 <= k < n - 1 && earlier[i - plan.len()] == #[trigger] more[k];
                    assert(more[k].recipe != more[n - 1].recipe);
                }
            }
            lemma_has_name(whole, recipe);
            if has_recipe(plan, recipe) {
                let i = choose|i: int| 0 <= i < plan.len() && (#[trigger] plan[i]).recipe == recipe;
                assert(whole[i].recipe == recipe);
                assert(after =~= whole);
            } else {
                if has_recipe(whole, recipe) {
                    let i = choose|i: int|
                        0 <= i < whole.len() && (#[trigger] whole[i]).recipe == recipe;
                    assert(plan[i].recipe == recipe);
                }
                assert(after =~= whole.push(more[n - 1]));
            }
        }
    } else {
        assert(after =~= plan);
    }
}

proof fn lemma_fresh_prefix(
    plan: Seq<VariantSpec>,
    a: Seq<VariantSpec>,
    b: Seq<VariantSpec>,
    n: int,
)
    requires
        0 <= n <= a.len(),
        n <= b.len(),
        forall|i: int| 0 <= i < n ==> a[i] == b[i],
    ensures
        fresh(plan, a, n) == fresh(plan, b, n),
    decreases n,
{
    if n > 0 {
        lemma_fresh_prefix(plan, a, b, n - 1);
    }
}

proof fn lemma_fresh_joined(
    plan: Seq<VariantSpec>,
    a: Seq<VariantSpec>,
    b: Seq<VariantSpec>,
    n: int,
)
    requires
        0 <= n <= b.len(),
    ensures
        fresh(plan, a + b, a.len() + n) == all_fresh(plan, a) + fresh(plan, b, n),
    decreases n,
{
    if n > 0 {
        lemma_fresh_joined(plan, a, b, n - 1);
        assert((a + b)[a.len() + n - 1] == b[n - 1]);
    } else {
        lemma_fresh_prefix(plan, a + b, a, a.len() as int);
    }
    assert(fresh(plan, a + b, a.len() + n) =~= all_fresh(plan, a) + fresh(plan, b, n));
}

proof fn lemma_fresh_all(plan: Seq<VariantSpec>, more: Seq<VariantSpec>, n: int)
    requires
        0 <= n <= more.len(),
        forall|i: int| 0 <= i < more.len() ==> !has_recipe(plan, (#[trigger] more[i]).recipe),
    ensures
        fresh(plan, more, n) == more.take(n),
    decreases n,
{
    if n > 0 {
        lemma_fresh_all(plan, more, n - 1);
    }
    assert(fresh(plan, more, n) =~= more.take(n));
}

proof fn lemma_fresh_none(plan: Seq<VariantSpec>, more: Seq<VariantSpec>, n: int)
    requires
        0 <= n <= more.len(),
        forall|i: int| 0 <= i < more.len() ==> has_recipe(plan, (#[trigger] more[i]).recipe),
    ensures
        fresh(plan, more, n).len() == 0,
    decreases n,
{
    if n > 0 {
        lemma_fresh_none(plan, more, n - 1);
    }
}

/// What sets the parts of a plan apart.
spec fn part_of(recipe: Recipe) -> int {
    match recipe {
        Recipe::Original => 0,
        Recipe::Channel { channel } => 0,
        Recipe::Calibrated { scale, terminal } => scale as int,
        Recipe::Standard { channel, scale, terminal } => match terminal {
            Terminal::Identity => -1,
            Terminal::Otsu => -2,
            Terminal::Adaptive { window, bias } => -100 - window,
            Terminal::GaussianAdaptive { window, bias } => -3,
            Terminal::Unsharp { amount } => -4,
            Terminal::UnsharpAdaptive { amount, window, bias } => -5,
            Terminal::Gamma { curve } => if curve == ToneCurve::Brighten {
                -6
            } else {
                -7
            },
            Terminal::GammaAdaptive { curve, window, bias } => if curve == ToneCurve::Brighten {
                -8
            } else {
                -9
            },
            Terminal::Nearest => if scale == 6 {
                -10
            } else {
                -11
            },
            Terminal::Invert => -12,
        },
    }
}

/// What the balanced plan makes of a part of the thorough one: how many of its
/// variants are new, and how many of these show no color channel.
spec fn is_part(part: Seq<VariantSpec>, tag: int, new: int, plain: int) -> bool {
    let added = all_fresh(own_plan(Effort::Balanced), part);
    &&& all_planned(part)
    &&& distinct_recipes(part)
    &&& forall|i: int| 0 <= i < part.len() ==> part_of((#[trigger] part[i]).recipe) == tag
    &&& added.len() == new
    &&& colorless(added) == plain
}

/// The start of the thorough plan: the parts in it, and what is new.
spec fn is_start(start: Seq<VariantSpec>, tags: Set<int>, new: int, plain: int) -> bool {
    let added = all_fresh(own_plan(Effort::Balanced), start);
    &&& all_planned(start)
    &&& distinct_recipes(start)
    &&& forall|i: int| 0 <= i < start.len() ==> tags.contains(part_of((#[trigger] start[i]).recipe))
    &&& added.len() == new
    &&& colorless(added) == plain
}

proof fn lemma_step(
    start: Seq<VariantSpec>,
    tags: Set<int>,
    new: int,
    plain: int,
    part: Seq<VariantSpec>,
    tag: int,
    more_new: int,
    more_plain: int,
)
    requires
        is_start(start, tags, new, plain),
        is_part(part, tag, more_new, more_plain),
        !tags.contains(tag),
    ensures
        is_start(start + part, tags.insert(tag), new + more_new, plain + more_plain),
        all_fresh(own_plan(Effort::Balanced), start + part) == all_fresh(
            own_plan(Effort::Balanced),
            start,
        ) + all_fresh(own_plan(Effort::Balanced), part),
{
    let plan = own_plan(Effort::Balanced);
    let whole = start + part;
    lemma_fresh_joined(plan, start, part, part.len() as int);
    lemma_colorless(all_fresh(plan, start), all_fresh(plan, part));
    let n = start.len() as int;
    assert forall|i: int| 0 <= i < whole.len() implies planned((#[trigger] whole[i]).recipe)
        && tags.insert(tag).contains(part_of(whole[i].recipe)) && (i >= n ==> part_of(
        whole[i].recipe,
    ) == tag) && (i < n ==> tags.contains(part_of(whole[i].recipe))) by {
        if i < n {
            assert(whole[i] == start[i]);
        } else {
            assert(whole[i] == part[i - n]);
        }
    }
    assert forall|i: int, j: int| 0 <= i < j < whole.len() implies (#[trigger] whole[i]).recipe != (
    #[trigger] whole[j]).recipe by {
        if j < n {
            assert(whole[i] == start[i] && whole[j] == start[j]);
        } else if i >= n {
            assert(whole[i] == part[i - n] && whole[j] == part[j - n]);
        } else {
            assert(part_of(whole[i].recipe) != part_of(whole[j].recipe));
        }
    }
}

/// The recipes that a balanced plan is made of.
spec fn balanced_recipe(recipe: Recipe) -> bool {
    match recipe {
        Recipe::Original => true,
        Recipe::Channel { channel } => true,
        Recipe::Calibrated { scale, terminal } => 2 <= scale <= 4 && planned_calibration(terminal),
        Recipe::Standard { channel, scale, terminal } => channel != Channel::Min && 1 <= scale <= 4
            && (terminal == Terminal::Identity || terminal == Terminal::Otsu || terminal == (
        Terminal::Adaptive { window: 25, bias: 5 }) || terminal == (Terminal::Adaptive {
            window: 15,
            bias: 3,
        }) || terminal == (Terminal::Adaptive { window: 41, bias: 8 }) || terminal == (
        Terminal::Unsharp { amount: Sharpening::Standard }) || terminal == (
        Terminal::UnsharpAdaptive { amount: Sharpening::Standard, window: 25, bias: 5 })),
    }
}

spec fn all_balanced(plan: Seq<VariantSpec>) -> bool {
    forall|i: int| 0 <= i < plan.len() ==> balanced_recipe((#[trigger] plan[i]).recipe)
}

proof fn lemma_family_balanced(coverage: Coverage, terminal: Terminal, quality: int, n: int)
    requires
        0 <= n <= 16,
        balanced_recipe(Recipe::Standard { channel: Channel::Luma, scale: 1, terminal }),
    ensures
        all_balanced(family(Effort::Balanced, coverage, terminal, quality, n)),
    decreases n,
{
    if n > 0 {
        lemma_family_balanced(coverage, terminal, quality, n - 1);
        lemma_balanced_combination(n - 1);
        let list = seq![Channel::Luma, Channel::Green, Channel::Red, Channel::Blue];
        assert(list[(n - 1) % 4] != Channel::Min);
        assert(1 <= seq![1u32, 2, 3, 4][(n - 1) / 4] <= 4);
    }
}

proof fn lemma_balanced_recipes()
    ensures
        all_balanced(own_plan(Effort::Balanced)),
        all_planned(own_plan(Effort::Balanced)),
{
    let effort = Effort::Balanced;
    lemma_balanced_len();
    lemma_balanced_combination(0);
    lemma_family_balanced(Coverage::All, Terminal::Identity, 20, 16);
    lemma_family_balanced(Coverage::All, Terminal::Otsu, 24, 16);
    lemma_family_balanced(Coverage::All, Terminal::Adaptive { window: 25, bias: 5 }, 30, 16);
    lemma_family_balanced(Coverage::Reduced, Terminal::Adaptive { window: 15, bias: 3 }, 30, 16);
    lemma_family_balanced(Coverage::Reduced, Terminal::Adaptive { window: 41, bias: 8 }, 30, 16);
    lemma_family_balanced(
        Coverage::Focused,
        Terminal::Unsharp { amount: Sharpening::Standard },
        26,
        16,
    );
    lemma_family_balanced(
        Coverage::Focused,
        Terminal::UnsharpAdaptive { amount: Sharpening::Standard, window: 25, bias: 5 },
        34,
        16,
    );
    reveal_with_fuel(calibrated_families, 5);
    reveal_with_fuel(other_adaptive, 4);
    assert(scales(effort).len() == 4 && adaptive_settings(effort).len() == 3);
    assert(all_balanced(calibrated_family(2)));
    assert(all_balanced(calibrated_family(3)));
    assert(all_balanced(calibrated_family(4)));
    assert(all_balanced(calibrated_families(effort, 4)));
    assert(all_balanced(other_adaptive(effort, 3)));
    assert(all_balanced(covering_families(effort)));
    assert(all_balanced(leading_variants(effort)));
    assert(all_balanced(unsharp_family(effort)));
    assert(all_balanced(sharpened_family(effort)));
    assert(all_balanced(wanted_variants(effort)));
}

spec fn thorough_channel(k: int) -> Channel {
    if k == 0 {
        Channel::Luma
    } else if k == 1 {
        Channel::Green
    } else if k == 2 {
        Channel::Red
    } else if k == 3 {
        Channel::Blue
    } else {
        Channel::Min
    }
}

spec fn thorough_scale(k: int) -> u32 {
    if k == 0 {
        1
    } else if k == 1 {
        2
    } else if k == 2 {
        3
    } else if k == 3 {
        4
    } else {
        6
    }
}

proof fn lemma_thorough_combination(i: int)
    requires
        0 <= i < 25,
    ensures
        all_combinations(Effort::Thorough).len() == 25,
        all_combinations(Effort::Thorough)[i] == (thorough_channel(i % 5), thorough_scale(i / 5)),
{
    let (c, s) = (channels(Effort::Thorough), scales(Effort::Thorough));
    assert(c.len() == 5 && s.len() == 5);
    assert(s.len() * c.len() == 25) by (nonlinear_arith)
        requires
            c.len() == 5,
            s.len() == 5,
    ;
    assert(c[i % 5] == thorough_channel(i % 5));
    assert(s[i / 5] == thorough_scale(i / 5));
}

proof fn lemma_thorough_covered(coverage: Coverage)
    ensures
        covered(Effort::Thorough, coverage, 25) == (match coverage {
            Coverage::All => 25int,
            Coverage::Focused => 19,
            Coverage::Reduced => 10,
            Coverage::Largest => 5,
            Coverage::Smaller => 20,
        }),
        coverage == Coverage::Focused ==> covered(Effort::Thorough, coverage, 18) == 15,
{
    reveal_with_fuel(covered, 26);
    assert(largest_scale(Effort::Thorough) == 6);
    lemma_thorough_combination(0);
    lemma_thorough_combination(1);
    lemma_thorough_combination(2);
    lemma_thorough_combination(3);
    lemma_thorough_combination(4);
    lemma_thorough_combination(5);
    lemma_thorough_combination(6);
    lemma_thorough_combination(7);
    lemma_thorough_combination(8);
    lemma_thorough_combination(9);
    lemma_thorough_combination(10);
    lemma_thorough_combination(11);
    lemma_thorough_combination(12);
    lemma_thorough_combination(13);
    lemma_thorough_combination(14);
    lemma_thorough_combination(15);
    lemma_thorough_combination(16);
    lemma_thorough_combination(17);
    lemma_thorough_combination(18);
    lemma_thorough_combination(19);
    lemma_thorough_combination(20);
    lemma_thorough_combination(21);
    lemma_thorough_combination(22);
    lemma_thorough_combination(23);
    lemma_thorough_combination(24);
}

proof fn lemma_thorough_luma(coverage: Coverage)
    ensures
        covered_luma(Effort::Thorough, coverage, 25) == (match coverage {
            Coverage::Largest => 1int,
            Coverage::Smaller => 4,
            _ => 5,
        }),
        coverage == Coverage::Focused ==> covered_luma(Effort::Thorough, coverage, 18) == 4,
{
    reveal_with_fuel(covered_luma, 26);
    assert(largest_scale(Effort::Thorough) == 6);
    lemma_thorough_combination(0);
    lemma_thorough_combination(1);
    lemma_thorough_combination(2);
    lemma_thorough_combination(3);
    lemma_thorough_combination(4);
    lemma_thorough_combination(5);
    lemma_thorough_combination(6);
    lemma_thorough_combination(7);
    lemma_thorough_combination(8);
    lemma_thorough_combination(9);
    lemma_thorough_combination(10);
    lemma_thorough_combination(11);
    lemma_thorough_combination(12);
    lemma_thorough_combination(13);
    lemma_thorough_combination(14);
    lemma_thorough_combination(15);
    lemma_thorough_combination(16);
    lemma_thorough_combination(17);
    lemma_thorough_combination(18);
    lemma_thorough_combination(19);
    lemma_thorough_combination(20);
    lemma_thorough_combination(21);
    lemma_thorough_combination(22);
    lemma_thorough_combination(23);
    lemma_thorough_combination(24);
}

/// What a family holds: one variant for each covered combination, in their order.
proof fn lemma_family_members(coverage: Coverage, terminal: Terminal, quality: int, n: int)
    requires
        0 <= n <= 25,
        planned_terminal(terminal),
        terminal != Terminal::Invert,
    ensures
        ({
            let list = family(Effort::Thorough, coverage, terminal, quality, n);
            &&& all_planned(list)
            &&& distinct_recipes(list)
            &&& forall|i: int|
                0 <= i < list.len() ==> is_member(
                    (#[trigger] list[i]).recipe,
                    coverage,
                    terminal,
                    n,
                )
        }),
    decreases n,
{
    if n > 0 {
        lemma_family_members(coverage, terminal, quality, n - 1);
        lemma_thorough_combination(n - 1);
        let before = family(Effort::Thorough, coverage, terminal, quality, n - 1);
        let after = family(Effort::Thorough, coverage, terminal, quality, n);
        assert forall|i: int| 0 <= i < after.len() implies is_member(
            (#[trigger] after[i]).recipe,
            coverage,
            terminal,
            n,
        ) by {
            if i < before.len() {
                assert(is_member(before[i].recipe, coverage, terminal, n - 1));
                let k = choose|k: int|
                    0 <= k < n - 1 && #[trigger] thorough_member(
                        before[i].recipe,
                        coverage,
                        terminal,
                        k,
                    );
                assert(thorough_member(after[i].recipe, coverage, terminal, k));
            } else {
                assert(thorough_member(after[i].recipe, coverage, terminal, n - 1));
            }
        }
        assert forall|i: int, j: int| 0 <= i < j < after.len() implies (#[trigger] after[i]).recipe
            != (#[trigger] after[j]).recipe by {
            assert(after[i] == before[i]);
            if j < before.len() {
                assert(after[j] == before[j]);
            } else {
                assert(is_member(before[i].recipe, coverage, terminal, n - 1));
                let k = choose|k: int|
                    0 <= k < n - 1 && #[trigger] thorough_member(
                        before[i].recipe,
                        coverage,
                        terminal,
                        k,
                    );
                lemma_places_differ(k, n - 1);
            }
        }
    }
}

/// Whether a recipe is the one that a family has at the `k`-th combination.
spec fn thorough_member(recipe: Recipe, coverage: Coverage, terminal: Terminal, k: int) -> bool {
    let (channel, scale) = (thorough_channel(k % 5), thorough_scale(k / 5));
    covers(coverage, Effort::Thorough, (channel, scale)) && recipe == (Recipe::Standard {
        channel,
        scale,
        terminal,
    })
}

/// Whether a recipe is one that a family has at the first `n` combinations.
spec fn is_member(recipe: Recipe, coverage: Coverage, terminal: Terminal, n: int) -> bool {
    exists|k: int| 0 <= k < n && #[trigger] thorough_member(recipe, coverage, terminal, k)
}

proof fn lemma_places_differ(i: int, j: int)
    requires
        0 <= i < j < 25,
    ensures
        thorough_channel(i % 5) != thorough_channel(j % 5) || thorough_scale(i / 5)
            != thorough_scale(j / 5),
{
    assert(i % 5 != j % 5 || i / 5 != j / 5);
}

/// A family of a transform that the balanced plan lacks is new as a whole.
proof fn lemma_new_family(coverage: Coverage, terminal: Terminal, quality: int, tag: int)
    requires
        planned_terminal(terminal),
        terminal != Terminal::Invert,
        forall|channel: Channel, scale: u32|
            !#[trigger] balanced_recipe(Recipe::Standard { channel, scale, terminal }),
        forall|channel: Channel, scale: u32|
            covers(coverage, Effort::Thorough, (channel, scale)) ==> #[trigger] part_of(
                Recipe::Standard { channel, scale, terminal },
            ) == tag,
    ensures
        is_part(
            whole_family(Effort::Thorough, coverage, terminal, quality),
            tag,
            covered(Effort::Thorough, coverage, 25),
            covered_luma(Effort::Thorough, coverage, 25),
        ),
        all_fresh(
            own_plan(Effort::Balanced),
            whole_family(Effort::Thorough, coverage, terminal, quality),
        ) == whole_family(Effort::Thorough, coverage, terminal, quality),
        whole_family(Effort::Thorough, coverage, terminal, quality).len() == covered(
            Effort::Thorough,
            coverage,
            25,
        ),
{
    let plan = own_plan(Effort::Balanced);
    lemma_thorough_combination(0);
    let part = whole_family(Effort::Thorough, coverage, terminal, quality);
    lemma_balanced_recipes();
    lemma_family_members(coverage, terminal, quality, 25);
    lemma_family_len(Effort::Thorough, coverage, terminal, quality, 25);
    lemma_family_colorless(Effort::Thorough, coverage, terminal, quality, 25);
    assert forall|i: int| 0 <= i < part.len() implies !has_recipe(
        plan,
        (#[trigger] part[i]).recipe,
    ) && part_of(part[i].recipe) == tag by {
        assert(is_member(part[i].recipe, coverage, terminal, 25));
        let k = choose|k: int|
            0 <= k < 25 && #[trigger] thorough_member(part[i].recipe, coverage, terminal, k);
        let (channel, scale) = (thorough_channel(k % 5), thorough_scale(k / 5));
        assert(part[i].recipe == (Recipe::Standard { channel, scale, terminal }));
        assert(!balanced_recipe(Recipe::Standard { channel, scale, terminal }));
        if has_recipe(plan, part[i].recipe) {
            let j = choose|j: int|
                0 <= j < plan.len() && (#[trigger] plan[j]).recipe == part[i].recipe;
            assert(balanced_recipe(plan[j].recipe));
        }
    }
    lemma_fresh_all(plan, part, part.len() as int);
    assert(part.take(part.len() as int) =~= part);
}

proof fn lemma_has_joined(a: Seq<VariantSpec>, b: Seq<VariantSpec>, recipe: Recipe)
    requires
        has_recipe(a, recipe) || has_recipe(b, recipe),
    ensures
        has_recipe(a + b, recipe),
{
    if has_recipe(a, recipe) {
        let i = choose|i: int| 0 <= i < a.len() && (#[trigger] a[i]).recipe == recipe;
        assert((a + b)[i].recipe == recipe);
    } else {
        let i = choose|i: int| 0 <= i < b.len() && (#[trigger] b[i]).recipe == recipe;
        assert((a + b)[a.len() + i].recipe == recipe);
    }
}

/// What leads the balanced plan is in it.
proof fn lemma_leading_balanced(recipe: Recipe)
    requires
        has_recipe(leading_variants(Effort::Balanced), recipe),
    ensures
        has_recipe(own_plan(Effort::Balanced), recipe),
{
    let effort = Effort::Balanced;
    lemma_balanced_len();
    let w1 = leading_variants(effort);
    let w2 = w1 + unusual_variants(effort);
    let w3 = w2 + unsharp_family(effort);
    let w4 = w3 + sharpened_family(effort);
    let other = other_adaptive(effort, adaptive_settings(effort).len() as int);
    lemma_has_joined(w1, unusual_variants(effort), recipe);
    lemma_has_joined(w2, unsharp_family(effort), recipe);
    lemma_has_joined(w3, sharpened_family(effort), recipe);
    lemma_has_joined(w4, other, recipe);
    lemma_has_joined(w4 + other, thorough_families(effort), recipe);
}

proof fn lemma_whole_member(terminal: Terminal, quality: int, n: int, i: int)
    requires
        0 <= i < n <= 16,
    ensures
        ({
            let list = family(Effort::Balanced, Coverage::All, terminal, quality, n);
            let (channel, scale) = all_combinations(Effort::Balanced)[i];
            &&& list.len() == n
            &&& list[i].recipe == (Recipe::Standard { channel, scale, terminal })
        }),
    decreases n,
{
    if n > 1 {
        let j = if i < n - 1 {
            i
        } else {
            0
        };
        lemma_whole_member(terminal, quality, n - 1, j);
    } else {
        reveal_with_fuel(family, 2);
    }
}

/// The balanced plan covers every channel but the minimum up to the scale 4.
proof fn lemma_balanced_covers(i: int, terminal: Terminal)
    requires
        0 <= i < 16,
        terminal == Terminal::Identity || terminal == Terminal::Otsu || terminal == (
        Terminal::Adaptive { window: 25, bias: 5 }),
    ensures
        ({
            let (channel, scale) = all_combinations(Effort::Balanced)[i];
            has_recipe(
                own_plan(Effort::Balanced),
                Recipe::Standard { channel, scale, terminal },
            )
        }),
{
    let effort = Effort::Balanced;
    lemma_balanced_combination(i);
    let (channel, scale) = all_combinations(effort)[i];
    let recipe = Recipe::Standard { channel, scale, terminal };
    let contrast = whole_family(effort, Coverage::All, Terminal::Identity, 20);
    let otsu = whole_family(effort, Coverage::All, Terminal::Otsu, 24);
    let adaptive = whole_family(
        effort,
        Coverage::All,
        Terminal::Adaptive { window: 25, bias: 5 },
        30,
    );
    if terminal == Terminal::Identity {
        lemma_whole_member(terminal, 20, 16, i);
        assert(contrast[i].recipe == recipe);
    } else if terminal == Terminal::Otsu {
        lemma_whole_member(terminal, 24, 16, i);
        assert(otsu[i].recipe == recipe);
    } else {
        lemma_whole_member(terminal, 30, 16, i);
        assert(adaptive[i].recipe == recipe);
    }
    if terminal == Terminal::Identity || terminal == Terminal::Otsu {
        lemma_has_joined(contrast, otsu, recipe);
    }
    lemma_has_joined(contrast + otsu, adaptive, recipe);
    let calibrated = calibrated_families(effort, scales(effort).len() as int);
    lemma_has_joined(plain_variants() + calibrated, covering_families(effort), recipe);
    lemma_leading_balanced(recipe);
}

/// How many of the first `n` combinations go beyond the balanced plan.
spec fn beyond(n: int) -> int
    decreases n,
{
    if n <= 0 {
        0
    } else {
        beyond(n - 1) + (if (n - 1) % 5 == 4 || (n - 1) / 5 == 4 {
            1int
        } else {
            0
        })
    }
}

/// How many of these show luma.
spec fn beyond_luma(n: int) -> int
    decreases n,
{
    if n <= 0 {
        0
    } else {
        beyond_luma(n - 1) + (if (n - 1) % 5 == 0 && (n - 1) / 5 == 4 {
            1int
        } else {
            0
        })
    }
}

proof fn lemma_covering_added(terminal: Terminal, quality: int, n: int)
    requires
        0 <= n <= 25,
        terminal == Terminal::Identity || terminal == Terminal::Otsu || terminal == (
        Terminal::Adaptive { window: 25, bias: 5 }),
    ensures
        ({
            let plan = own_plan(Effort::Balanced);
            let list = family(Effort::Thorough, Coverage::All, terminal, quality, n);
            &&& list.len() == n
            &&& all_fresh(plan, list).len() == beyond(n)
            &&& colorless(all_fresh(plan, list)) == beyond_luma(n)
        }),
    decreases n,
{
    let plan = own_plan(Effort::Balanced);
    if n > 0 {
        lemma_covering_added(terminal, quality, n - 1);
        lemma_thorough_combination(n - 1);
        let before = family(Effort::Thorough, Coverage::All, terminal, quality, n - 1);
        let after = family(Effort::Thorough, Coverage::All, terminal, quality, n);
        let added = all_fresh(plan, before);
        lemma_fresh_prefix(plan, before, after, n - 1);
        let (c, s) = ((n - 1) % 5, (n - 1) / 5);
        let (channel, scale) = (thorough_channel(c), thorough_scale(s));
        let recipe = Recipe::Standard { channel, scale, terminal };
        assert(after[n - 1].recipe == recipe);
        if c == 4 || s == 4 {
            lemma_balanced_recipes();
            assert(!balanced_recipe(recipe));
            if has_recipe(plan, recipe) {
                let j = choose|j: int| 0 <= j < plan.len() && (#[trigger] plan[j]).recipe == recipe;
                assert(balanced_recipe(plan[j].recipe));
            }
            let next = all_fresh(plan, after);
            assert(next == added.push(after[n - 1]));
            lemma_colorless_prefix(added, next, added.len() as int);
        } else {
            let i = 4 * s + c;
            lemma_balanced_combination(i);
            assert(i % 4 == c && i / 4 == s);
            lemma_balanced_covers(i, terminal);
            assert(all_combinations(Effort::Balanced)[i] == (channel, scale));
        }
    }
}

proof fn lemma_covering_part(terminal: Terminal, quality: int)
    requires
        terminal == Terminal::Identity || terminal == Terminal::Otsu || terminal == (
        Terminal::Adaptive { window: 25, bias: 5 }),
    ensures
        is_part(
            whole_family(Effort::Thorough, Coverage::All, terminal, quality),
            part_of(Recipe::Standard { channel: Channel::Luma, scale: 1, terminal }),
            9,
            1,
        ),
        whole_family(Effort::Thorough, Coverage::All, terminal, quality).len() == 25,
{
    lemma_thorough_combination(0);
    lemma_covering_added(terminal, quality, 25);
    lemma_family_members(Coverage::All, terminal, quality, 25);
    reveal_with_fuel(beyond, 26);
    reveal_with_fuel(beyond_luma, 26);
    let part = whole_family(Effort::Thorough, Coverage::All, terminal, quality);
    assert forall|i: int| 0 <= i < part.len() implies part_of((#[trigger] part[i]).recipe)
        == part_of(Recipe::Standard { channel: Channel::Luma, scale: 1, terminal }) by {
        assert(is_member(part[i].recipe, Coverage::All, terminal, 25));
        let k = choose|k: int|
            0 <= k < 25 && #[trigger] thorough_member(part[i].recipe, Coverage::All, terminal, k);
    }
}

proof fn lemma_calibrated_part(scale: u32)
    requires
        scale == 2 || scale == 3 || scale == 4 || scale == 6,
    ensures
        is_part(
            calibrated_family(scale),
            scale as int,
            if scale == 6 {
                5
            } else {
                0
            },
            if scale == 6 {
                5
            } else {
                0
            },
        ),
{
    let plan = own_plan(Effort::Balanced);
    let part = calibrated_family(scale);
    assert(distinct_recipes(part));
    if scale == 6 {
        lemma_balanced_recipes();
        assert forall|i: int| 0 <= i < part.len() implies !has_recipe(
            plan,
            (#[trigger] part[i]).recipe,
        ) by {
            if has_recipe(plan, part[i].recipe) {
                let j = choose|j: int|
                    0 <= j < plan.len() && (#[trigger] plan[j]).recipe == part[i].recipe;
                assert(balanced_recipe(plan[j].recipe));
            }
        }
        lemma_fresh_all(plan, part, 5);
        assert(part.take(5) =~= part);
        lemma_calibrated_colorless(scale);
    } else {
        let effort = Effort::Balanced;
        reveal_with_fuel(calibrated_families, 5);
        assert(scales(effort).len() == 4);
        let none = Seq::<VariantSpec>::empty();
        let (two, three, four) = (
            calibrated_family(2),
            calibrated_family(3),
            calibrated_family(4),
        );
        assert(calibrated_families(effort, 4) == none + two + three + four);
        assert forall|i: int| 0 <= i < part.len() implies has_recipe(
            plan,
            (#[trigger] part[i]).recipe,
        ) by {
            let recipe = part[i].recipe;
            assert(has_recipe(part, recipe));
            if scale == 2 {
                lemma_has_joined(none, two, recipe);
            }
            if scale <= 3 {
                lemma_has_joined(none + two, three, recipe);
            }
            lemma_has_joined(none + two + three, four, recipe);
            lemma_has_joined(plain_variants(), calibrated_families(effort, 4), recipe);
            lemma_has_joined(
                plain_variants() + calibrated_families(effort, 4),
                covering_families(effort),
                recipe,
            );
            lemma_leading_balanced(recipe);
        }
        lemma_fresh_none(plan, part, 5);
    }
}

proof fn lemma_plain_start()
    ensures
        is_start(plain_variants(), set![0int], 0, 0),
{
    let plan = own_plan(Effort::Balanced);
    let part = plain_variants();
    let effort = Effort::Balanced;
    let calibrated = calibrated_families(effort, scales(effort).len() as int);
    assert(distinct_recipes(part));
    assert forall|i: int| 0 <= i < part.len() implies has_recipe(
        plan,
        (#[trigger] part[i]).recipe,
    ) by {
        let recipe = part[i].recipe;
        assert(has_recipe(part, recipe));
        lemma_has_joined(part, calibrated, recipe);
        lemma_has_joined(part + calibrated, covering_families(effort), recipe);
        lemma_leading_balanced(recipe);
    }
    lemma_fresh_none(plan, part, 5);
    assert(set![0int].contains(0));
}

proof fn lemma_inverted_part()
    ensures
        is_part(seq![inverted_variant()], -12, 1, 1),
{
    let plan = own_plan(Effort::Balanced);
    let part = seq![inverted_variant()];
    lemma_balanced_recipes();
    assert forall|i: int| 0 <= i < part.len() implies !has_recipe(
        plan,
        (#[trigger] part[i]).recipe,
    ) by {
        if has_recipe(plan, part[i].recipe) {
            let j = choose|j: int|
                0 <= j < plan.len() && (#[trigger] plan[j]).recipe == part[i].recipe;
            assert(balanced_recipe(plan[j].recipe));
        }
    }
    lemma_fresh_all(plan, part, 1);
    assert(part.take(1) =~= part);
    reveal_with_fuel(colorless_count, 2);
}

proof fn lemma_small_colorless()
    ensures
        colorless_count(variant_plan(Effort::Fast), 20) == 17,
        colorless_count(variant_plan(Effort::Balanced), 102) == 45,
{
    lemma_fast_len();
    lemma_balanced_len();
    lemma_fast_combinations();
    reveal_with_fuel(covered_luma, 3);
    reveal_with_fuel(calibrated_families, 5);
    lemma_balanced_luma(Coverage::All);
    lemma_balanced_luma(Coverage::Focused);
    lemma_balanced_luma(Coverage::Reduced);
    lemma_balanced_covered(Coverage::All);
    assert(scales(Effort::Fast).len() == 2 && scales(Effort::Balanced).len() == 4);
    assert(calibrated_families(Effort::Fast, 2).len() == 5);
    assert(calibrated_families(Effort::Balanced, 4).len() == 15);
    lemma_wanted_colorless(Effort::Fast, 2);
    lemma_wanted_colorless(Effort::Balanced, 4);
}

proof fn lemma_assoc(a: Seq<VariantSpec>, b: Seq<VariantSpec>, c: Seq<VariantSpec>)
    ensures
        a + b + c == a + (b + c),
{
    assert(a + b + c =~= a + (b + c));
}

/// The parts that come before the transforms of the thorough effort alone.
#[verifier::rlimit(40)]
proof fn lemma_leading_start()
    ensures
        is_start(
            leading_variants(Effort::Thorough),
            set![0int, 2, 3, 4, 6, -1, -2, -125],
            32,
            8,
        ),
        leading_variants(Effort::Thorough).len() == 100,
{
    let effort = Effort::Thorough;
    let plain = plain_variants();
    let (c2, c3, c4, c6) = (
        calibrated_family(2),
        calibrated_family(3),
        calibrated_family(4),
        calibrated_family(6),
    );
    let contrast = whole_family(effort, Coverage::All, Terminal::Identity, 20);
    let otsu = whole_family(effort, Coverage::All, Terminal::Otsu, 24);
    let terminal = Terminal::Adaptive { window: 25, bias: 5 };
    let adaptive = whole_family(effort, Coverage::All, terminal, 30);
    lemma_plain_start();
    lemma_calibrated_part(2);
    lemma_calibrated_part(3);
    lemma_calibrated_part(4);
    lemma_calibrated_part(6);
    lemma_covering_part(Terminal::Identity, 20);
    lemma_covering_part(Terminal::Otsu, 24);
    lemma_covering_part(terminal, 30);
    let t0 = set![0int];
    let (t1, t2) = (t0.insert(2), t0.insert(2).insert(3));
    let (t3, t4) = (t2.insert(4), t2.insert(4).insert(6));
    let (t5, t6) = (t4.insert(-1), t4.insert(-1).insert(-2));
    let (w1, w2, w3) = (plain + c2, plain + c2 + c3, plain + c2 + c3 + c4);
    let w4 = w3 + c6;
    let (w5, w6) = (w4 + contrast, w4 + contrast + otsu);
    lemma_step(plain, t0, 0, 0, c2, 2, 0, 0);
    lemma_step(w1, t1, 0, 0, c3, 3, 0, 0);
    lemma_step(w2, t2, 0, 0, c4, 4, 0, 0);
    lemma_step(w3, t3, 0, 0, c6, 6, 5, 5);
    lemma_step(w4, t4, 5, 5, contrast, -1, 9, 1);
    lemma_step(w5, t5, 14, 6, otsu, -2, 9, 1);
    lemma_step(w6, t6, 23, 7, adaptive, -125, 9, 1);
    assert(t6.insert(-125) =~= set![0int, 2, 3, 4, 6, -1, -2, -125]);
    reveal_with_fuel(calibrated_families, 6);
    assert(scales(effort).len() == 5);
    let none = Seq::<VariantSpec>::empty();
    assert(calibrated_families(effort, 5) == none + c2 + c3 + c4 + c6);
    assert(none + c2 =~= c2);
    lemma_assoc(plain, c2, c3);
    lemma_assoc(plain, c2 + c3, c4);
    lemma_assoc(plain, c2 + c3 + c4, c6);
    lemma_assoc(w4, contrast, otsu);
    lemma_assoc(w4, contrast + otsu, adaptive);
    assert(leading_variants(effort) == w6 + adaptive);
}

/// The parts before the second tone curve.
proof fn lemma_first_start()
    ensures
        is_start(
            first_parts(),
            set![0int, 2, 3, 4, 6, -1, -2, -125, -12, -10, -4, -5, -111, -117, -135, -151, -6, -8],
            145,
            50,
        ),
        first_parts().len() == 213,
{
    let effort = Effort::Thorough;
    let amount = Sharpening::Strong;
    let w0 = leading_variants(effort);
    let t0 = set![0int, 2, 3, 4, 6, -1, -2, -125];
    lemma_leading_start();
    lemma_inverted_part();
    let inverted = seq![inverted_variant()];
    lemma_step(w0, t0, 32, 8, inverted, -12, 1, 1);
    let (w1, t1) = (w0 + inverted, t0.insert(-12));
    lemma_thorough_covered(Coverage::Largest);
    lemma_thorough_luma(Coverage::Largest);
    lemma_thorough_covered(Coverage::Focused);
    lemma_thorough_luma(Coverage::Focused);
    lemma_thorough_covered(Coverage::Reduced);
    lemma_thorough_luma(Coverage::Reduced);
    lemma_new_family(Coverage::Largest, Terminal::Nearest, 18, -10);
    let nearest = whole_family(effort, Coverage::Largest, Terminal::Nearest, 18);
    lemma_step(w1, t1, 33, 9, nearest, -10, 5, 1);
    let (w2, t2) = (w1 + nearest, t1.insert(-10));
    lemma_assoc(w0, inverted, nearest);
    lemma_new_family(Coverage::Focused, Terminal::Unsharp { amount }, 26, -4);
    let unsharp = unsharp_family(effort);
    lemma_step(w2, t2, 38, 10, unsharp, -4, 19, 5);
    let (w3, t3) = (w2 + unsharp, t2.insert(-4));
    let terminal = Terminal::UnsharpAdaptive { amount, window: 25, bias: 5 };
    lemma_new_family(Coverage::Focused, terminal, 34, -5);
    let sharpened = sharpened_family(effort);
    lemma_step(w3, t3, 57, 15, sharpened, -5, 19, 5);
    let (w4, t4) = (w3 + sharpened, t3.insert(-5));
    let a1 = Terminal::Adaptive { window: 11, bias: 2 };
    let a2 = Terminal::Adaptive { window: 17, bias: 3 };
    let a3 = Terminal::Adaptive { window: 35, bias: 7 };
    let a4 = Terminal::Adaptive { window: 51, bias: 10 };
    lemma_new_family(Coverage::Reduced, a1, 30, -111);
    lemma_new_family(Coverage::Reduced, a2, 30, -117);
    lemma_new_family(Coverage::Reduced, a3, 30, -135);
    lemma_new_family(Coverage::Reduced, a4, 30, -151);
    let f1 = whole_family(effort, Coverage::Reduced, a1, 30);
    let f2 = whole_family(effort, Coverage::Reduced, a2, 30);
    let f3 = whole_family(effort, Coverage::Reduced, a3, 30);
    let f4 = whole_family(effort, Coverage::Reduced, a4, 30);
    lemma_step(w4, t4, 76, 20, f1, -111, 10, 5);
    let (w5, t5) = (w4 + f1, t4.insert(-111));
    lemma_step(w5, t5, 86, 25, f2, -117, 10, 5);
    let (w6, t6) = (w5 + f2, t5.insert(-117));
    lemma_step(w6, t6, 96, 30, f3, -135, 10, 5);
    let (w7, t7) = (w6 + f3, t6.insert(-135));
    lemma_step(w7, t7, 106, 35, f4, -151, 10, 5);
    let (w8, t8) = (w7 + f4, t7.insert(-151));
    reveal_with_fuel(other_adaptive, 6);
    assert(adaptive_settings(effort).len() == 5);
    let none = Seq::<VariantSpec>::empty();
    assert(other_adaptive(effort, 5) == none + f1 + f2 + f3 + f4);
    assert(none + f1 =~= f1);
    lemma_assoc(w4, f1, f2);
    lemma_assoc(w4, f1 + f2, f3);
    lemma_assoc(w4, f1 + f2 + f3, f4);
    assert(w8 == w4 + other_adaptive(effort, 5));
    let curve = ToneCurve::Brighten;
    let gamma = Terminal::Gamma { curve };
    let thresholded = Terminal::GammaAdaptive { curve, window: 35, bias: 7 };
    lemma_new_family(Coverage::Focused, gamma, 22, -6);
    lemma_new_family(Coverage::Reduced, thresholded, 32, -8);
    let g1 = whole_family(effort, Coverage::Focused, gamma, 22);
    let g2 = whole_family(effort, Coverage::Reduced, thresholded, 32);
    lemma_step(w8, t8, 116, 40, g1, -6, 19, 5);
    let (w9, t9) = (w8 + g1, t8.insert(-6));
    lemma_step(w9, t9, 135, 45, g2, -8, 10, 5);
    lemma_assoc(w8, g1, g2);
    assert(w9 + g2 == first_parts());
    assert(t9.insert(-8) =~= set![
        0int, 2, 3, 4, 6, -1, -2, -125, -12, -10, -4, -5, -111, -117, -135, -151, -6, -8
    ]);
}

/// What a thorough search wants before the second tone curve.
spec fn first_parts() -> Seq<VariantSpec> {
    let effort = Effort::Thorough;
    leading_variants(effort) + unusual_variants(effort) + unsharp_family(effort)
        + sharpened_family(effort) + other_adaptive(
        effort,
        adaptive_settings(effort).len() as int,
    ) + tone_families(effort, ToneCurve::Brighten)
}

/// The variants with the second tone curve.
spec fn dark_family(n: int) -> Seq<VariantSpec> {
    family(
        Effort::Thorough,
        Coverage::Focused,
        Terminal::Gamma { curve: ToneCurve::Darken },
        22,
        n,
    )
}

proof fn lemma_dark_prefix(n: int, m: int)
    requires
        0 <= n <= m,
    ensures
        dark_family(n).len() <= dark_family(m).len(),
        dark_family(m).take(dark_family(n).len() as int) == dark_family(n),
    decreases m,
{
    if n < m {
        lemma_dark_prefix(n, m - 1);
        assert(dark_family(m).take(dark_family(n).len() as int) =~= dark_family(m - 1).take(
            dark_family(n).len() as int,
        ));
    } else {
        assert(dark_family(m).take(dark_family(n).len() as int) =~= dark_family(n));
    }
}

proof fn lemma_thorough_parts()
    ensures
        all_planned(wanted_variants(Effort::Thorough)),
        distinct_recipes(wanted_variants(Effort::Thorough)),
        wanted_variants(Effort::Thorough).len() == 262,
        ({
            let plan = own_plan(Effort::Balanced);
            let added = all_fresh(plan, wanted_variants(Effort::Thorough));
            let first = all_fresh(plan, first_parts());
            &&& added.len() == 194
            &&& first.len() == 145
            &&& colorless(first) == 50
            &&& dark_family(25).len() == 19
            &&& added.take(164) == first + dark_family(25)
        }),
{
    let effort = Effort::Thorough;
    let plan = own_plan(Effort::Balanced);
    let curve = ToneCurve::Darken;
    let gamma = Terminal::Gamma { curve };
    let thresholded = Terminal::GammaAdaptive { curve, window: 35, bias: 7 };
    lemma_thorough_combination(0);
    lemma_thorough_covered(Coverage::Focused);
    lemma_thorough_luma(Coverage::Focused);
    lemma_thorough_covered(Coverage::Reduced);
    lemma_thorough_luma(Coverage::Reduced);
    lemma_thorough_covered(Coverage::Smaller);
    lemma_thorough_luma(Coverage::Smaller);
    lemma_first_start();
    lemma_new_family(Coverage::Focused, gamma, 22, -7);
    lemma_new_family(Coverage::Reduced, thresholded, 32, -9);
    lemma_new_family(Coverage::Smaller, Terminal::Nearest, 18, -11);
    let g3 = whole_family(effort, Coverage::Focused, gamma, 22);
    let g4 = whole_family(effort, Coverage::Reduced, thresholded, 32);
    let g5 = whole_family(effort, Coverage::Smaller, Terminal::Nearest, 18);
    let w0 = first_parts();
    let t0 = set![
        0int, 2, 3, 4, 6, -1, -2, -125, -12, -10, -4, -5, -111, -117, -135, -151, -6, -8
    ];
    lemma_step(w0, t0, 145, 50, g3, -7, 19, 5);
    let (w1, t1) = (w0 + g3, t0.insert(-7));
    lemma_step(w1, t1, 164, 55, g4, -9, 10, 5);
    let (w2, t2) = (w1 + g4, t1.insert(-9));
    lemma_step(w2, t2, 174, 60, g5, -11, 20, 4);
    let before = leading_variants(effort) + unusual_variants(effort) + unsharp_family(effort)
        + sharpened_family(effort) + other_adaptive(
        effort,
        adaptive_settings(effort).len() as int,
    );
    let bright = tone_families(effort, ToneCurve::Brighten);
    lemma_assoc(w0, g3, g4);
    lemma_assoc(before, bright, g3 + g4);
    lemma_assoc(before, bright + (g3 + g4), g5);
    assert(w2 + g5 == wanted_variants(effort));
    let first = all_fresh(plan, w0);
    assert(g3 == dark_family(25));
    assert(all_fresh(plan, w1) == first + g3);
    assert(all_fresh(plan, w2) == all_fresh(plan, w1) + g4);
    let added = all_fresh(plan, wanted_variants(effort));
    assert(added == all_fresh(plan, w2) + g5);
    assert(added.take(164) =~= first + g3);
}

/// How many variants every effort tries.
pub proof fn plans_have_their_length()
    ensures
        variant_plan(Effort::Fast).len() == 20,
        variant_plan(Effort::Balanced).len() == 102,
        variant_plan(Effort::Thorough).len() == 262,
{
    lemma_fast_len();
    lemma_balanced_len();
    lemma_thorough_parts();
    lemma_balanced_recipes();
    let plan = own_plan(Effort::Balanced);
    let more = own_plan(Effort::Thorough);
    assert(more == wanted_variants(Effort::Thorough));
    lemma_extended_fresh(plan, more, 262, 262);
}

/// How many variants of every effort show no color channel.
pub proof fn plans_have_their_colorless_part()
    ensures
        colorless_count(variant_plan(Effort::Fast), 20) == 17,
        colorless_count(variant_plan(Effort::Balanced), 102) == 45,
        colorless_count(variant_plan(Effort::Thorough), 262) == 99,
{
    lemma_small_colorless();
    lemma_balanced_len();
    lemma_thorough_parts();
    lemma_balanced_recipes();
    let plan = own_plan(Effort::Balanced);
    let more = own_plan(Effort::Thorough);
    assert(more == wanted_variants(Effort::Thorough));
    lemma_extended_fresh(plan, more, 262, 262);
    let whole = variant_plan(Effort::Thorough);
    let added = all_fresh(plan, more);
    let first = all_fresh(plan, first_parts());
    let dark = dark_family(18);
    lemma_thorough_covered(Coverage::Focused);
    lemma_thorough_luma(Coverage::Focused);
    let terminal = Terminal::Gamma { curve: ToneCurve::Darken };
    lemma_family_len(Effort::Thorough, Coverage::Focused, terminal, 22, 18);
    lemma_family_colorless(Effort::Thorough, Coverage::Focused, terminal, 22, 18);
    lemma_dark_prefix(18, 25);
    assert forall|i: int| 0 <= i < 160 implies added[i] == #[trigger] (first + dark)[i] by {
        assert(added[i] == added.take(164)[i]);
        if i >= 145 {
            assert(dark[i - 145] == dark_family(25).take(15)[i - 145]);
        }
    }
    assert(whole =~= plan + (first + dark));
    lemma_colorless(first, dark);
    lemma_colorless(plan, first + dark);
}

/// Whether no two variants of a plan have one name.
pub open spec fn distinct_names(plan: Seq<VariantSpec>) -> bool {
    forall|i: int, j: int|
        0 <= i < j < plan.len() ==> recipe_name((#[trigger] plan[i]).recipe) != recipe_name(
            (#[trigger] plan[j]).recipe,
        )
}

/// Whether a recipe ends the `k`-th combination with a transform.
spec fn is_ending(effort: Effort, terminal: Terminal, recipe: Recipe, k: int) -> bool {
    recipe == (Recipe::Standard {
        channel: all_combinations(effort)[k].0,
        scale: all_combinations(effort)[k].1,
        terminal,
    })
}

/// Whether a recipe ends one of the first `n` combinations with a transform.
spec fn is_ended(effort: Effort, terminal: Terminal, recipe: Recipe, n: int) -> bool {
    exists|k: int| 0 <= k < n && #[trigger] is_ending(effort, terminal, recipe, k)
}

/// Whether no combination occurs twice, and all are of planned scales.
spec fn distinct_combinations(effort: Effort) -> bool {
    let list = all_combinations(effort);
    &&& forall|i: int, j: int| 0 <= i < j < list.len() ==> #[trigger] list[i] != #[trigger] list[j]
    &&& forall|i: int| 0 <= i < list.len() ==> 1 <= (#[trigger] list[i]).1 <= 9
}

proof fn lemma_family_apart(
    effort: Effort,
    coverage: Coverage,
    terminal: Terminal,
    quality: int,
    n: int,
)
    requires
        distinct_combinations(effort),
        0 <= n <= all_combinations(effort).len(),
        planned_terminal(terminal),
        terminal != Terminal::Invert,
    ensures
        ({
            let list = family(effort, coverage, terminal, quality, n);
            &&& all_planned(list)
            &&& distinct_recipes(list)
            &&& forall|i: int|
                0 <= i < list.len() ==> is_ended(effort, terminal, (#[trigger] list[i]).recipe, n)
        }),
    decreases n,
{
    if n > 0 {
        lemma_family_apart(effort, coverage, terminal, quality, n - 1);
        let before = family(effort, coverage, terminal, quality, n - 1);
        let after = family(effort, coverage, terminal, quality, n);
        let all = all_combinations(effort);
        assert forall|i: int| 0 <= i < after.len() implies is_ended(
            effort,
            terminal,
            (#[trigger] after[i]).recipe,
            n,
        ) && planned(after[i].recipe) by {
            if i < before.len() {
                assert(after[i] == before[i]);
                assert(is_ended(effort, terminal, before[i].recipe, n - 1));
                let k = choose|k: int|
                    0 <= k < n - 1 && #[trigger] is_ending(effort, terminal, before[i].recipe, k);
                assert(is_ending(effort, terminal, after[i].recipe, k));
            } else {
                assert(is_ending(effort, terminal, after[i].recipe, n - 1));
                assert(1 <= all[n - 1].1 <= 9);
            }
        }
        assert forall|i: int, j: int| 0 <= i < j < after.len() implies (#[trigger] after[i]).recipe
            != (#[trigger] after[j]).recipe by {
            assert(after[i] == before[i]);
            if j < before.len() {
                assert(after[j] == before[j]);
            } else {
                assert(is_ended(effort, terminal, before[i].recipe, n - 1));
                let k = choose|k: int|
                    0 <= k < n - 1 && #[trigger] is_ending(effort, terminal, before[i].recipe, k);
                assert(all[k] != all[n - 1]);
            }
        }
    }
}

/// Planned variants no two of which share a recipe, from parts with these tags.
spec fn is_apart(plan: Seq<VariantSpec>, tags: Set<int>) -> bool {
    &&& all_planned(plan)
    &&& distinct_recipes(plan)
    &&& forall|i: int| 0 <= i < plan.len() ==> tags.contains(part_of((#[trigger] plan[i]).recipe))
}

proof fn lemma_apart(start: Seq<VariantSpec>, tags: Set<int>, part: Seq<VariantSpec>, tag: int)
    requires
        is_apart(start, tags),
        is_apart(part, set![tag]),
        !tags.contains(tag),
    ensures
        is_apart(start + part, tags.insert(tag)),
{
    let whole = start + part;
    let n = start.len() as int;
    assert forall|i: int| 0 <= i < whole.len() implies planned((#[trigger] whole[i]).recipe)
        && tags.insert(tag).contains(part_of(whole[i].recipe)) && (i >= n ==> part_of(
        whole[i].recipe,
    ) == tag) && (i < n ==> tags.contains(part_of(whole[i].recipe))) by {
        if i < n {
            assert(whole[i] == start[i]);
        } else {
            assert(whole[i] == part[i - n]);
            assert(set![tag].contains(part_of(part[i - n].recipe)));
        }
    }
    assert forall|i: int, j: int| 0 <= i < j < whole.len() implies (#[trigger] whole[i]).recipe != (
    #[trigger] whole[j]).recipe by {
        if j < n {
            assert(whole[i] == start[i] && whole[j] == start[j]);
        } else if i >= n {
            assert(whole[i] == part[i - n] && whole[j] == part[j - n]);
        } else {
            assert(part_of(whole[i].recipe) != part_of(whole[j].recipe));
        }
    }
}

/// A family is a part of its own.
proof fn lemma_apart_family(
    start: Seq<VariantSpec>,
    tags: Set<int>,
    effort: Effort,
    coverage: Coverage,
    terminal: Terminal,
    quality: int,
)
    requires
        is_apart(start, tags),
        distinct_combinations(effort),
        planned_terminal(terminal),
        terminal != Terminal::Invert,
        terminal != Terminal::Nearest,
        !tags.contains(
            part_of(Recipe::Standard { channel: Channel::Luma, scale: 1, terminal }),
        ),
    ensures
        is_apart(
            start + whole_family(effort, coverage, terminal, quality),
            tags.insert(
                part_of(Recipe::Standard { channel: Channel::Luma, scale: 1, terminal }),
            ),
        ),
{
    let n = all_combinations(effort).len() as int;
    let tag = part_of(Recipe::Standard { channel: Channel::Luma, scale: 1, terminal });
    let part = whole_family(effort, coverage, terminal, quality);
    lemma_family_apart(effort, coverage, terminal, quality, n);
    assert forall|i: int| 0 <= i < part.len() implies set![tag].contains(
        part_of((#[trigger] part[i]).recipe),
    ) by {
        assert(is_ended(effort, terminal, part[i].recipe, n));
        let k = choose|k: int|
            0 <= k < n && #[trigger] is_ending(effort, terminal, part[i].recipe, k);
    }
    lemma_apart(start, tags, part, tag);
}

proof fn lemma_apart_calibrated(start: Seq<VariantSpec>, tags: Set<int>, scale: u32)
    requires
        is_apart(start, tags),
        2 <= scale <= 4,
        !tags.contains(scale as int),
    ensures
        is_apart(start + calibrated_family(scale), tags.insert(scale as int)),
{
    let part = calibrated_family(scale);
    assert(distinct_recipes(part));
    assert(all_planned(part));
    lemma_apart(start, tags, part, scale as int);
}

proof fn lemma_fast_apart()
    ensures
        all_planned(own_plan(Effort::Fast)),
        distinct_recipes(own_plan(Effort::Fast)),
{
    let effort = Effort::Fast;
    lemma_fast_len();
    lemma_fast_combinations();
    reveal_with_fuel(calibrated_families, 3);
    reveal_with_fuel(other_adaptive, 3);
    assert(scales(effort).len() == 2 && adaptive_settings(effort).len() == 2);
    let plain = plain_variants();
    let t0 = set![0int];
    assert(t0.contains(0));
    assert(is_apart(plain, t0));
    lemma_apart_calibrated(plain, t0, 2);
    let two = calibrated_family(2);
    assert(calibrated_families(effort, 2) =~= two);
    let (w1, t1) = (plain + two, t0.insert(2));
    let first = Terminal::Adaptive { window: 21, bias: 5 };
    let last = Terminal::Adaptive { window: 35, bias: 8 };
    let sharp = Terminal::Unsharp { amount: sharpening(effort) };
    lemma_apart_family(w1, t1, effort, Coverage::All, Terminal::Identity, 20);
    let c1 = whole_family(effort, Coverage::All, Terminal::Identity, 20);
    let (w2, t2) = (w1 + c1, t1.insert(-1));
    lemma_apart_family(w2, t2, effort, Coverage::All, Terminal::Otsu, 24);
    let c2 = whole_family(effort, Coverage::All, Terminal::Otsu, 24);
    let (w3, t3) = (w2 + c2, t2.insert(-2));
    lemma_apart_family(w3, t3, effort, Coverage::All, first, 30);
    let c3 = whole_family(effort, Coverage::All, first, 30);
    let (w4, t4) = (w3 + c3, t3.insert(-121));
    lemma_apart_family(w4, t4, effort, Coverage::Focused, sharp, 26);
    let (w5, t5) = (w4 + unsharp_family(effort), t4.insert(-4));
    lemma_apart_family(w5, t5, effort, Coverage::Reduced, last, 30);
    let other = whole_family(effort, Coverage::Reduced, last, 30);
    assert(other_adaptive(effort, 2) =~= other);
    assert(leading_variants(effort) =~= w4);
    assert(w5 + other =~= wanted_variants(effort));
}

proof fn lemma_balanced_distinct()
    ensures
        distinct_combinations(Effort::Balanced),
{
    let list = all_combinations(Effort::Balanced);
    lemma_balanced_combination(0);
    let channels = seq![Channel::Luma, Channel::Green, Channel::Red, Channel::Blue];
    let scales = seq![1u32, 2, 3, 4];
    assert forall|i: int| 0 <= i < list.len() implies 1 <= (#[trigger] list[i]).1 <= 9 by {
        lemma_balanced_combination(i);
        assert(1 <= scales[i / 4] <= 4);
    }
    assert forall|i: int, j: int| 0 <= i < j < list.len() implies #[trigger] list[i]
        != #[trigger] list[j] by {
        lemma_balanced_combination(i);
        lemma_balanced_combination(j);
        assert(i % 4 != j % 4 || i / 4 != j / 4);
        assert(i % 4 != j % 4 ==> channels[i % 4] != channels[j % 4]);
        assert(i / 4 != j / 4 ==> scales[i / 4] != scales[j / 4]);
    }
}

proof fn lemma_balanced_apart()
    ensures
        all_planned(own_plan(Effort::Balanced)),
        distinct_recipes(own_plan(Effort::Balanced)),
{
    let effort = Effort::Balanced;
    lemma_balanced_len();
    lemma_balanced_distinct();
    reveal_with_fuel(calibrated_families, 5);
    reveal_with_fuel(other_adaptive, 4);
    assert(scales(effort).len() == 4 && adaptive_settings(effort).len() == 3);
    let plain = plain_variants();
    let t0 = set![0int];
    assert(t0.contains(0));
    assert(is_apart(plain, t0));
    lemma_apart_calibrated(plain, t0, 2);
    let (k1, s1) = (plain + calibrated_family(2), t0.insert(2));
    lemma_apart_calibrated(k1, s1, 3);
    let (k2, s2) = (k1 + calibrated_family(3), s1.insert(3));
    lemma_apart_calibrated(k2, s2, 4);
    let (w1, t1) = (k2 + calibrated_family(4), s2.insert(4));
    assert(plain + calibrated_families(effort, 4) =~= w1);
    let first = Terminal::Adaptive { window: 25, bias: 5 };
    let fine = Terminal::Adaptive { window: 15, bias: 3 };
    let coarse = Terminal::Adaptive { window: 41, bias: 8 };
    let amount = sharpening(effort);
    let sharp = Terminal::Unsharp { amount };
    let split = Terminal::UnsharpAdaptive { amount, window: 25, bias: 5 };
    lemma_apart_family(w1, t1, effort, Coverage::All, Terminal::Identity, 20);
    let c1 = whole_family(effort, Coverage::All, Terminal::Identity, 20);
    let (w2, t2) = (w1 + c1, t1.insert(-1));
    lemma_apart_family(w2, t2, effort, Coverage::All, Terminal::Otsu, 24);
    let c2 = whole_family(effort, Coverage::All, Terminal::Otsu, 24);
    let (w3, t3) = (w2 + c2, t2.insert(-2));
    lemma_apart_family(w3, t3, effort, Coverage::All, first, 30);
    let c3 = whole_family(effort, Coverage::All, first, 30);
    let (w4, t4) = (w3 + c3, t3.insert(-125));
    lemma_apart_family(w4, t4, effort, Coverage::Focused, sharp, 26);
    let (w5, t5) = (w4 + unsharp_family(effort), t4.insert(-4));
    lemma_apart_family(w5, t5, effort, Coverage::Focused, split, 34);
    let (w6, t6) = (w5 + sharpened_family(effort), t5.insert(-5));
    lemma_apart_family(w6, t6, effort, Coverage::Reduced, fine, 30);
    let o1 = whole_family(effort, Coverage::Reduced, fine, 30);
    let (w7, t7) = (w6 + o1, t6.insert(-115));
    lemma_apart_family(w7, t7, effort, Coverage::Reduced, coarse, 30);
    let o2 = whole_family(effort, Coverage::Reduced, coarse, 30);
    assert(other_adaptive(effort, 3) =~= o1 + o2);
    assert(leading_variants(effort) =~= w4);
    assert(w7 + o2 =~= wanted_variants(effort));
}

proof fn lemma_distinct_names(plan: Seq<VariantSpec>)
    requires
        all_planned(plan),
        distinct_recipes(plan),
    ensures
        distinct_names(plan),
{
    assert forall|i: int, j: int| 0 <= i < j < plan.len() implies recipe_name(
        (#[trigger] plan[i]).recipe,
    ) != recipe_name((#[trigger] plan[j]).recipe) by {
        if recipe_name(plan[i].recipe) == recipe_name(plan[j].recipe) {
            lemma_names_injective(plan[i].recipe, plan[j].recipe);
        }
    }
}

proof fn lemma_extended_names(
    plan: Seq<VariantSpec>,
    more: Seq<VariantSpec>,
    n: int,
    limit: int,
)
    requires
        distinct_names(plan),
    ensures
        distinct_names(extended(plan, more, n, limit)),
    decreases n,
{
    if n > 0 {
        lemma_extended_names(plan, more, n - 1, limit);
    }
}

/// No two variants of a plan have one name, so a name says which variant it was.
pub proof fn names_tell_variants_apart(effort: Effort)
    ensures
        distinct_names(variant_plan(effort)),
{
    lemma_fast_apart();
    lemma_balanced_apart();
    lemma_distinct_names(own_plan(Effort::Fast));
    lemma_distinct_names(own_plan(Effort::Balanced));
    let more = own_plan(Effort::Thorough);
    lemma_extended_names(
        own_plan(Effort::Balanced),
        more,
        more.len() as int,
        variant_limit(Effort::Thorough),
    );
}

} // verus!
