use qr_restore::plan::{variant_channel, variant_scale};
use qr_restore::{
    analyze_preflight, build_variant_plan, effort_profile, hint_score, preferred_scale_for,
    prioritize_variant_plan, select_variant_batch, variant_effort, Channel, EcLevel, Effort,
    Recipe, RecoveryError, RecoveryOptions, RecoveryOptionsInput, Terminal, VariantSpec, WasmImage,
};
use std::collections::BTreeSet;

/// How well a threshold separates a histogram, from zero to one.
fn separation(histogram: &[usize], count: usize) -> f64 {
    let total = count as f64;
    let mean = histogram
        .iter()
        .enumerate()
        .map(|(value, frequency)| value as f64 * *frequency as f64)
        .sum::<f64>()
        / total;
    let variance = histogram
        .iter()
        .enumerate()
        .map(|(value, frequency)| (value as f64 - mean).powi(2) * *frequency as f64)
        .sum::<f64>();
    if variance <= f64::EPSILON {
        return 0.0;
    }
    let (mut weight, mut sum, mut best) = (0.0, 0.0, 0.0f64);
    for (value, frequency) in histogram.iter().enumerate() {
        weight += *frequency as f64;
        sum += value as f64 * *frequency as f64;
        let rest = total - weight;
        if weight > 0.0 && rest > 0.0 {
            let difference = sum / weight - (mean * total - sum) / rest;
            best = best.max(weight * rest * difference * difference);
        }
    }
    (best / (total * variance)).clamp(0.0, 1.0)
}

fn prioritized(source: &WasmImage, effort: Effort) -> (Vec<VariantSpec>, bool, u32) {
    let preflight = analyze_preflight(source);
    let scores: Vec<i64> = preflight
        .histograms
        .iter()
        .map(|histogram| (separation(histogram, preflight.samples) * 1e15) as i64)
        .collect();
    prioritize_variant_plan(source, effort, &scores, None)
}

fn input() -> RecoveryOptionsInput {
    RecoveryOptionsInput {
        effort: "balanced".into(),
        max_micros: None,
        version: None,
        ec_level: None,
        payload_prefix: None,
        payload_regex: None,
        expected_text: None,
        fallback_encoding: None,
        batch_index: None,
        batch_count: None,
    }
}

#[test]
fn qualities_are_those_of_double_precision() {
    for effort in [Effort::Fast, Effort::Balanced, Effort::Thorough] {
        for spec in build_variant_plan(effort) {
            let quality = spec.quality as f64 / (1u64 << 52) as f64;
            let expected = match spec.recipe {
                Recipe::Original => 1.0,
                Recipe::Channel {
                    channel: Channel::Luma,
                } => 1.2,
                Recipe::Channel { .. } => 1.1,
                Recipe::Calibrated { scale, terminal } => {
                    let base = match terminal {
                        Terminal::Identity => 3.0,
                        Terminal::Otsu => 3.2,
                        Terminal::GaussianAdaptive { window: 31, .. } => 3.7,
                        Terminal::GaussianAdaptive { bias: 0, .. } => 4.0,
                        _ => 3.8,
                    };
                    base + f64::from(scale) * 0.1
                }
                Recipe::Standard {
                    terminal: Terminal::Invert,
                    ..
                } => 1.5,
                Recipe::Standard {
                    scale, terminal, ..
                } => {
                    let base = match terminal {
                        Terminal::Identity => 2.0,
                        Terminal::Otsu => 2.4,
                        Terminal::Adaptive { .. } => 3.0,
                        Terminal::Unsharp { .. } => 2.6,
                        Terminal::UnsharpAdaptive { .. } => 3.4,
                        Terminal::Gamma { .. } => 2.2,
                        Terminal::GammaAdaptive { .. } => 3.2,
                        _ => 1.8,
                    };
                    base + f64::from(scale) * 0.1
                }
            };
            assert_eq!(quality, expected, "{}", spec.name());
        }
    }
}

#[test]
fn names_tell_the_variants_of_a_plan_apart() {
    for effort in [Effort::Fast, Effort::Balanced, Effort::Thorough] {
        let plan = build_variant_plan(effort);
        let names: BTreeSet<String> = plan.iter().map(|spec| spec.name()).collect();
        assert_eq!(names.len(), plan.len());
        let source = WasmImage::new(&[200, 60, 20, 255].repeat(441), 21, 21).unwrap();
        let (search, achromatic, _) = prioritized(&source, effort);
        assert!(!achromatic);
        let names: BTreeSet<String> = search.iter().map(|spec| spec.name()).collect();
        assert_eq!(names.len(), search.len());
        assert_eq!(search.len(), plan.len());
    }
}

#[test]
fn effort_plans_are_bounded_and_keep_the_calibrated_winner() {
    assert_eq!(build_variant_plan(Effort::Fast).len(), 20);
    assert_eq!(build_variant_plan(Effort::Balanced).len(), 102);
    assert_eq!(build_variant_plan(Effort::Thorough).len(), 262);
    for effort in [Effort::Fast, Effort::Balanced, Effort::Thorough] {
        assert!(build_variant_plan(effort)
            .iter()
            .any(|variant| variant.name() == "s2-lanczos-gray"));
    }
    let thorough = build_variant_plan(Effort::Thorough);
    for balanced in build_variant_plan(Effort::Balanced) {
        assert!(thorough.iter().any(|variant| {
            variant.name() == balanced.name() && variant.recipe == balanced.recipe
        }));
    }
}

#[test]
fn preflight_prunes_redundant_channels_for_achromatic_images() {
    let mut pixels = Vec::with_capacity(192 * 192 * 4);
    for row in 0..192 {
        for column in 0..192 {
            let value = if (row / 8 + column / 8) % 2 == 0 {
                0
            } else {
                255
            };
            pixels.extend_from_slice(&[value, value, value, 255]);
        }
    }
    let observation = WasmImage::new(&pixels, 192, 192).unwrap();
    for (effort, expected_variants) in [
        (Effort::Fast, 17),
        (Effort::Balanced, 45),
        (Effort::Thorough, 99),
    ] {
        let (plan, achromatic, _) = prioritized(&observation, effort);
        assert!(achromatic);
        assert_eq!(plan.len(), expected_variants);
        assert!(plan.iter().all(|variant| {
            variant_channel(variant).map_or(true, |channel| channel == Channel::Luma)
        }));
    }
}

#[test]
fn thorough_preflight_runs_the_balanced_phase_first() {
    let pixels = [24u8, 24, 24, 255].repeat(192 * 192);
    let observation = WasmImage::new(&pixels, 192, 192).unwrap();
    let (balanced, _, _) = prioritized(&observation, Effort::Balanced);
    let (thorough, _, _) = prioritized(&observation, Effort::Thorough);
    assert!(thorough.len() > balanced.len());
    assert!(balanced.iter().zip(&thorough).all(|(expected, actual)| {
        expected.name() == actual.name() && expected.recipe == actual.recipe
    }));
}

#[test]
fn preflight_keeps_color_channels_when_they_carry_distinct_information() {
    let mut pixels = Vec::with_capacity(192 * 192 * 4);
    for row in 0..192 {
        for column in 0..192 {
            let red = if (row / 8 + column / 8) % 2 == 0 {
                0
            } else {
                255
            };
            pixels.extend_from_slice(&[red, 128, 128, 255]);
        }
    }
    let observation = WasmImage::new(&pixels, 192, 192).unwrap();
    let (plan, achromatic, _) = prioritized(&observation, Effort::Balanced);
    assert!(!achromatic);
    assert_eq!(plan.len(), 102);
    for channel in [Channel::Red, Channel::Green, Channel::Blue] {
        assert!(plan
            .iter()
            .any(|variant| variant_channel(variant) == Some(channel)));
    }
}

#[test]
fn parallel_batches_are_disjoint_and_cover_the_prioritized_plan() {
    let pixels = [24u8, 24, 24, 255].repeat(192 * 192);
    let observation = WasmImage::new(&pixels, 192, 192).unwrap();
    let (plan, _, _) = prioritized(&observation, Effort::Balanced);
    let expected = plan
        .iter()
        .map(|variant| variant.name())
        .collect::<BTreeSet<_>>();
    let mut observed = BTreeSet::new();
    let mut total = 0;
    for batch_index in 0..4 {
        let batch = select_variant_batch(&plan, batch_index, 4);
        total += batch.len();
        for variant in batch {
            assert!(observed.insert(variant.name()));
        }
    }
    assert_eq!(total, plan.len());
    assert_eq!(observed, expected);
}

#[test]
fn invalid_hints_are_rejected_before_recovery() {
    let input = RecoveryOptionsInput {
        version: Some(41),
        ..input()
    };
    assert!(RecoveryOptions::compile(input).is_err());
}

#[test]
fn every_invalid_option_is_reported() {
    let message = |input: RecoveryOptionsInput| {
        RecoveryOptions::compile(input).unwrap_err().message()
    };
    assert_eq!(
        message(RecoveryOptionsInput {
            effort: "Balanced".into(),
            ..input()
        }),
        "effort must be fast, balanced, or thorough"
    );
    assert_eq!(
        message(RecoveryOptionsInput {
            max_micros: Some(0),
            ..input()
        }),
        "maxSeconds must be positive and finite"
    );
    assert_eq!(
        message(RecoveryOptionsInput {
            version: Some(0),
            ..input()
        }),
        "version must be between 1 and 40"
    );
    assert_eq!(
        message(RecoveryOptionsInput {
            ec_level: Some("LM".into()),
            ..input()
        }),
        "ecLevel must be L, M, Q, or H"
    );
    let pattern = message(RecoveryOptionsInput {
        payload_regex: Some("(".into()),
        ..input()
    });
    assert!(pattern.starts_with("invalid payloadRegex: regex parse error"));
    assert_eq!(
        message(RecoveryOptionsInput {
            batch_count: Some(9),
            ..input()
        }),
        "batchCount must be between 1 and 8"
    );
    assert_eq!(
        message(RecoveryOptionsInput {
            batch_index: Some(4),
            batch_count: Some(4),
            ..input()
        }),
        "batchIndex must be smaller than batchCount"
    );
    assert_eq!(
        RecoveryError::NoObservation.message(),
        "at least one observation is required"
    );
}

#[test]
fn options_fall_back_to_their_defaults() {
    let options = RecoveryOptions::compile(input()).unwrap();
    assert_eq!(options.effort, Effort::Balanced);
    assert_eq!(options.max_micros, 60_000_000);
    assert_eq!((options.batch_index, options.batch_count), (0, 1));
    let options = RecoveryOptions::compile(RecoveryOptionsInput {
        effort: "fast".into(),
        max_micros: Some(1),
        version: Some(40),
        ec_level: Some("Q".into()),
        batch_index: Some(7),
        batch_count: Some(8),
        ..input()
    })
    .unwrap();
    assert_eq!(options.max_micros, 1);
    assert_eq!(options.version, Some(40));
    assert_eq!(options.ec_level, Some(EcLevel::Q));
    assert_eq!((options.batch_index, options.batch_count), (7, 8));
}

#[test]
fn hints_add_up_to_points() {
    let score = |input: RecoveryOptionsInput, text: &str| {
        let options = RecoveryOptions::compile(input).unwrap();
        hint_score(
            &text.as_bytes().to_vec(),
            &text.to_string(),
            3,
            EcLevel::M,
            &options,
        )
    };
    assert_eq!(score(input(), "anything"), 0);
    assert_eq!(score(input(), ""), -20);
    let all = || RecoveryOptionsInput {
        version: Some(3),
        ec_level: Some("M".into()),
        payload_prefix: Some("https://".into()),
        payload_regex: Some("^https://.*[0-9]$".into()),
        expected_text: Some("https://example.org/7".into()),
        ..input()
    };
    assert_eq!(score(all(), "https://example.org/7"), 26);
    assert_eq!(score(all(), "https://example.org/8"), 8);
    assert_eq!(score(all(), "tel:1"), 3 + 3 - 5 - 8 - 5);
    let wrong = RecoveryOptionsInput {
        version: Some(4),
        ec_level: Some("L".into()),
        ..input()
    };
    assert_eq!(score(wrong, "x"), -12);
}

#[test]
fn efforts_have_their_limits() {
    let fast = effort_profile(Effort::Fast);
    assert_eq!((fast.variant_limit, fast.chase_bits), (20, 0));
    let thorough = effort_profile(Effort::Thorough);
    assert_eq!(thorough.candidate_attempts, 500_000);
    assert_eq!(thorough.confirmation_reads, 3);
    assert_eq!(thorough.default_micros, 600_000_000);
    assert_eq!(Effort::parse("thorough"), Some(Effort::Thorough));
    assert_eq!(Effort::parse("slow"), None);
}

#[test]
fn scales_are_chosen_by_the_module_pitch() {
    // Without a pitch, small images are enlarged more.
    assert_eq!(preferred_scale_for(Effort::Balanced, None, 100, 400), 3);
    assert_eq!(preferred_scale_for(Effort::Balanced, None, 300, 400), 2);
    assert_eq!(preferred_scale_for(Effort::Balanced, None, 400, 400), 1);
    // With one, modules are brought closest to six pixels.
    let pixels = |value: u64| Some(value << 52);
    assert_eq!(preferred_scale_for(Effort::Balanced, pixels(6), 100, 100), 1);
    assert_eq!(preferred_scale_for(Effort::Balanced, pixels(3), 900, 900), 2);
    assert_eq!(preferred_scale_for(Effort::Balanced, pixels(2), 900, 900), 3);
    // Four and eight pixels are equally far off; the smaller scale comes first.
    assert_eq!(preferred_scale_for(Effort::Balanced, pixels(4), 900, 900), 1);
    for index in 15..160 {
        let pitch = f64::from(index) / 15.0;
        let units = (pitch * (1u64 << 52) as f64) as u64;
        let expected = effort_profile(Effort::Thorough)
            .scales
            .iter()
            .copied()
            .min_by(|left, right| {
                let off = |scale: u32| (pitch * f64::from(scale) - 6.0).abs();
                off(*left).total_cmp(&off(*right))
            })
            .unwrap();
        let scale = preferred_scale_for(Effort::Thorough, Some(units), 900, 900);
        assert_eq!(scale, expected, "pitch={pitch}");
    }
}

#[test]
fn plans_start_with_the_image_itself() {
    let pixels = [24u8, 24, 24, 255].repeat(400 * 400);
    let observation = WasmImage::new(&pixels, 400, 400).unwrap();
    let (plan, _, preferred) = prioritized(&observation, Effort::Balanced);
    assert_eq!(preferred, 1);
    assert_eq!(plan[0].recipe, Recipe::Original);
    assert_eq!(plan[0].name(), "original");
    assert_eq!(variant_scale(&plan[2]), 1);
}

#[test]
fn thorough_searches_decode_balanced_variants_as_such() {
    for variant in build_variant_plan(Effort::Balanced) {
        let name = variant.name();
        assert_eq!(variant_effort(Effort::Thorough, &name), Effort::Balanced);
        assert_eq!(variant_effort(Effort::Fast, &name), Effort::Fast);
    }
    assert_eq!(
        variant_effort(Effort::Thorough, "no such variant"),
        Effort::Thorough
    );
}

#[test]
fn large_images_are_sampled_sparsely() {
    let pixels = |count: usize| vec![200u8; count * 4];
    let small = WasmImage::new(&pixels(65_536), 256, 256).unwrap();
    assert_eq!(analyze_preflight(&small).samples, 65_536);
    let wider = WasmImage::new(&pixels(65_792), 257, 256).unwrap();
    assert_eq!(analyze_preflight(&wider).samples, 32_896);
    let large = WasmImage::new(&pixels(1_000_000), 1000, 1000).unwrap();
    // Every sixteenth pixel.
    assert_eq!(analyze_preflight(&large).samples, 62_500);
}

#[test]
fn thorough_plans_invert_and_enlarge_unblended() {
    let ends = |effort: Effort, terminal: Terminal| {
        build_variant_plan(effort)
            .iter()
            .filter(|variant| match variant.recipe {
                Recipe::Standard { terminal: last, .. } => last == terminal,
                _ => false,
            })
            .count()
    };
    assert_eq!(ends(Effort::Thorough, Terminal::Invert), 1);
    assert_eq!(ends(Effort::Thorough, Terminal::Nearest), 5);
    assert_eq!(ends(Effort::Balanced, Terminal::Invert), 0);
    assert_eq!(ends(Effort::Balanced, Terminal::Nearest), 0);
    let names: Vec<String> = build_variant_plan(Effort::Thorough)
        .iter()
        .map(|variant| variant.name())
        .collect();
    assert!(names.contains(&"inverted-luma".to_string()));
    assert!(names.contains(&"luma-6x-nearest".to_string()));
}

#[test]
fn every_scale_is_covered_before_anything_else() {
    let pixels = [24u8, 24, 24, 255].repeat(192 * 192);
    let observation = WasmImage::new(&pixels, 192, 192).unwrap();
    let scores = vec![5, 4, 3, 2, 1];
    for (effort, window) in [(Effort::Fast, 21), (Effort::Balanced, 25)] {
        let (plan, _, _) =
            prioritize_variant_plan(&observation, effort, &scores, Some(3 << 52));
        let covering = |variant: &VariantSpec| match variant.recipe {
            Recipe::Standard { terminal, .. } => match terminal {
                Terminal::Identity | Terminal::Otsu => true,
                Terminal::Adaptive { window: used, .. } => used == window,
                _ => false,
            },
            _ => true,
        };
        let last = plan.iter().rposition(|variant| covering(variant)).unwrap();
        assert!(plan[..last].iter().all(|variant| covering(variant)));
        assert!(plan[last + 1..].iter().all(|variant| !covering(variant)));
        assert!(last + 1 < plan.len());
    }
}

#[test]
fn batches_may_outnumber_variants() {
    let plan = build_variant_plan(Effort::Fast);
    assert_eq!(select_variant_batch(&plan, 19, usize::MAX).len(), 1);
    assert!(select_variant_batch(&plan, 20, usize::MAX).is_empty());
    assert!(select_variant_batch(&plan, usize::MAX - 1, usize::MAX).is_empty());
}
