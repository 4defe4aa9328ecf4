use qr_restore::image::check_target;
use qr_restore::{
    fuse_mean_images, fused_variants, gray_pixels, render_variant, Channel, Effort, ImageError,
    RenderCache,
    Recipe, Terminal, ToneTables, WasmImage,
};
use qr_restore::render::{standard_base, standard_scaled};
use qr_restore::plan::{Sharpening, ToneCurve};

fn image(width: u32, height: u32, values: &[u8]) -> WasmImage {
    WasmImage::from_gray(&values.to_vec(), width, height)
}

fn grays(values: &[u8]) -> Vec<u8> {
    gray_pixels(&values.to_vec())
}

fn tables() -> ToneTables {
    ToneTables {
        brighten: (0..256).map(|value| value.min(254) as u8 + 1).collect(),
        darken: (0..256).map(|value| (value / 2) as u8).collect(),
    }
}

#[test]
fn photon_threshold_and_invert_preserve_qr_conventions() {
    let source = image(3, 1, &[20, 100, 220]);
    let binary = source.photon_threshold(100);
    assert_eq!(binary.pixels(), grays(&[0, 0, 255]));
    let inverted = binary.photon_invert();
    assert_eq!(inverted.pixels(), grays(&[255, 255, 0]));
}

#[test]
fn otsu_and_adaptive_threshold_separate_dark_modules() {
    let values = (0..21usize * 21)
        .map(|index| {
            let x = index % 21;
            let y = index / 21;
            let background = 80 + (x * 7) as u8;
            if (8..=12).contains(&x) && (8..=12).contains(&y) {
                background - 35
            } else {
                background
            }
        })
        .collect::<Vec<_>>();
    let source = image(21, 21, &values);
    let binary = source.adaptive_threshold(9, 5 * 1024).unwrap();
    assert_eq!(binary.gray_values()[10 * 21 + 10], 0);
    assert_eq!(binary.gray_values()[2 * 21 + 18], 255);
    assert!(source.otsu_level() > 0);
}

#[test]
fn custom_lanczos_and_photon_resize_return_requested_dimensions() {
    let source = image(21, 21, &vec![127; 21 * 21]);
    let photon = source.photon_resize(42, 42, "lanczos3").unwrap();
    assert_eq!((photon.width(), photon.height()), (42, 42));
}

#[test]
fn fusion_averages_frames() {
    let mut frames = grays(&[0, 100]);
    frames.extend(grays(&[100, 200]));
    let fused = fuse_mean_images(&frames, 2, 1, 2).unwrap();
    assert_eq!(fused.pixels(), grays(&[50, 150]));
}

#[test]
fn fusion_rounds_ties_to_even() {
    let mut frames = grays(&[0, 1, 3]);
    frames.extend(grays(&[1, 2, 4]));
    let fused = fuse_mean_images(&frames, 3, 1, 2).unwrap();
    assert_eq!(fused.gray_values(), vec![0, 2, 4]);
    assert!(matches!(
        fuse_mean_images(&frames, 3, 1, 1),
        Err(ImageError::FusionFrames)
    ));
    assert!(matches!(
        fuse_mean_images(&frames, 0, 1, 2),
        Err(ImageError::Dimensions)
    ));
    assert!(matches!(
        fuse_mean_images(&frames, 2, 1, 2),
        Err(ImageError::FusionSizes)
    ));
}

#[test]
fn images_of_impossible_dimensions_are_refused() {
    assert!(WasmImage::new(&[0; 16], 2, 2).is_ok());
    assert!(matches!(
        WasmImage::new(&[0; 16], 0, 2),
        Err(ImageError::Dimensions)
    ));
    assert!(matches!(
        WasmImage::new(&[0; 16], 4097, 1),
        Err(ImageError::Dimensions)
    ));
    let error = WasmImage::new(&[0; 15], 2, 2).unwrap_err();
    assert_eq!(
        error.message(),
        "expected 16 RGBA bytes for 2x2, received 15"
    );
}

#[test]
fn channels_are_taken_from_their_bytes() {
    let source = WasmImage::new(&[10, 200, 90, 255, 255, 255, 255, 0], 2, 1).unwrap();
    let value = |channel: &str| source.grayscale(channel).unwrap().gray_values();
    assert_eq!(value("red"), vec![10, 255]);
    assert_eq!(value("green"), vec![200, 255]);
    assert_eq!(value("blue"), vec![90, 255]);
    assert_eq!(value("min"), vec![10, 255]);
    // 2.99 + 117.4 + 10.26 = 130.65
    assert_eq!(value("luma"), vec![131, 255]);
    assert!(matches!(
        source.grayscale("alpha"),
        Err(ImageError::Channel)
    ));
    assert_eq!(
        ImageError::Channel.message(),
        "channel must be luma, red, green, blue, or min"
    );
}

#[test]
fn luma_follows_double_precision() {
    for (red, green, blue) in [(0u8, 0u8, 0u8), (1, 2, 3), (17, 93, 211), (254, 255, 253)] {
        let source = WasmImage::new(&[red, green, blue, 255], 1, 1).unwrap();
        let exact = f64::from(red) * 0.299 + f64::from(green) * 0.587 + f64::from(blue) * 0.114;
        let value = source.grayscale("luma").unwrap().gray_values()[0];
        assert!((exact - f64::from(value)).abs() <= 0.5);
    }
}

#[test]
fn contrast_is_stretched_to_the_full_range() {
    let values: Vec<u8> = (0..100).map(|index| 100 + (index / 2) as u8).collect();
    let stretched = image(10, 10, &values).auto_contrast().gray_values();
    assert_eq!(stretched[0], 0);
    assert_eq!(stretched[99], 255);
    assert!(stretched.windows(2).all(|pair| pair[0] <= pair[1]));
    // A flat image stays as it is.
    let flat = image(10, 10, &[90; 100]).auto_contrast();
    assert_eq!(flat.gray_values(), vec![90; 100]);
}

#[test]
fn sharpening_leaves_flat_areas_alone() {
    let flat = image(5, 5, &[77; 25]).unsharp(6079859496950170);
    assert_eq!(flat.gray_values(), vec![77; 25]);
    let mut values = vec![100u8; 25];
    values[12] = 120;
    let sharpened = image(5, 5, &values).unsharp(6079859496950170).gray_values();
    // The centre weighs a quarter: 120 + 1.35 * (120 - 105) = 140.25
    assert_eq!(sharpened[12], 140);
    // Its neighbour: 100 + 1.35 * (100 - 102.5) = 96.625
    assert_eq!(sharpened[11], 97);
}

#[test]
fn otsu_splits_two_groups_between_them() {
    let mut values = vec![30u8; 50];
    values.extend(vec![200u8; 50]);
    assert_eq!(image(10, 10, &values).otsu_level(), 30);
    let binary = image(10, 10, &values).photon_threshold(30).gray_values();
    assert_eq!(binary[0], 0);
    assert_eq!(binary[99], 255);
}

#[test]
fn thresholds_at_both_ends_keep_their_meaning() {
    let source = image(3, 1, &[0, 254, 255]);
    assert_eq!(source.photon_threshold(0).gray_values(), vec![0, 255, 255]);
    assert_eq!(source.photon_threshold(254).gray_values(), vec![0, 0, 255]);
    assert_eq!(source.photon_threshold(255).gray_values(), vec![0, 0, 0]);
}

#[test]
fn adaptive_windows_have_limits() {
    let source = image(3, 1, &[0, 100, 200]);
    for window in [0usize, 2, 256] {
        assert!(matches!(
            source.adaptive_threshold(window, 0),
            Err(ImageError::AdaptiveWindow)
        ));
    }
    // Each pixel against the mean of its window: 50, 100 and 150.
    let binary = source.adaptive_threshold(3, 0).unwrap();
    assert_eq!(binary.gray_values(), vec![0, 0, 255]);
}

/// Otsu's level in plain double precision.
fn separating_level(values: &[u8]) -> u8 {
    let mut histogram = [0usize; 256];
    for value in values {
        histogram[usize::from(*value)] += 1;
    }
    let total: usize = values.iter().map(|value| usize::from(*value)).sum();
    let (mut weight, mut dark) = (0usize, 0usize);
    let (mut best, mut result) = (-1.0f64, 127u8);
    for (level, count) in histogram.iter().enumerate() {
        weight += count;
        dark += level * count;
        let rest = values.len() - weight;
        if weight == 0 || rest == 0 {
            continue;
        }
        let gap = dark as f64 / weight as f64 - (total - dark) as f64 / rest as f64;
        let variance = weight as f64 * rest as f64 * gap.powi(2);
        if variance > best {
            best = variance;
            result = level as u8;
        }
    }
    result
}

#[test]
fn separating_levels_are_those_of_double_precision() {
    let mut state = 12345u32;
    let mut next = |below: u32| {
        state = state.wrapping_mul(1664525).wrapping_add(1013904223);
        ((state >> 8) % below) as u8
    };
    for round in 0..400u32 {
        let spread = 1 + round % 7 * 40;
        let side = 3 + round % 19;
        let values: Vec<u8> = (0..side * side)
            .map(|_| next(3) * 80 + next(spread.min(90)))
            .collect();
        let level = image(side, side, &values).otsu_level();
        assert_eq!(level, separating_level(&values), "round={round}");
    }
    // Mirrored values separate equally well on either side but for rounding.
    for (low, high) in [(3u8, 200u8), (10, 17), (0, 255), (101, 250)] {
        let middle = low + (high - low) / 2;
        let mut values = vec![low; 7];
        values.extend([middle; 11]);
        values.extend([high; 7]);
        let level = image(5, 5, &values).otsu_level();
        assert_eq!(level, separating_level(&values));
    }
    assert_eq!(image(2, 2, &[9; 4]).otsu_level(), 127);
}

#[test]
fn inverting_twice_changes_nothing() {
    let source = image(4, 1, &[0, 1, 128, 255]);
    assert_eq!(source.photon_invert().gray_values(), vec![255, 254, 127, 0]);
    assert_eq!(
        source.photon_invert().photon_invert().pixels(),
        source.pixels()
    );
}

#[test]
fn nearest_enlargement_turns_pixels_into_blocks() {
    let values: Vec<u8> = (0..21 * 21).map(|index| (index % 251) as u8).collect();
    let source = image(21, 21, &values);
    let large = source.photon_resize(63, 42, "nearest").unwrap().gray_values();
    for y in 0..42 {
        for x in 0..63 {
            assert_eq!(large[y * 63 + x], values[(y / 2) * 21 + x / 3]);
        }
    }
    for filter in ["nearest", "triangle", "catmull-rom", "gaussian", "lanczos3"] {
        let same = source.photon_resize(21, 21, filter).unwrap();
        assert_eq!(same.pixels(), source.pixels());
    }
    let blended = source.photon_resize(42, 42, "triangle").unwrap();
    let enlarged = source.photon_resize(42, 42, "nearest").unwrap();
    assert_ne!(blended.gray_values(), enlarged.gray_values());
    assert!(matches!(
        source.photon_resize(42, 42, "bilinear"),
        Err(ImageError::Filter)
    ));
    assert!(matches!(
        source.photon_resize(20, 42, "nearest"),
        Err(ImageError::TargetTooSmall)
    ));
    assert_eq!(check_target(5000, 42), Some(ImageError::Dimensions));
}

#[test]
fn variants_are_rendered_by_their_recipes() {
    let source = WasmImage::new(&[10, 60, 20, 255].repeat(441), 21, 21).unwrap();
    let render = |recipe: Recipe| {
        render_variant(&source, recipe, &mut RenderCache::new(), &tables(), None)
    };
    let original = render(Recipe::Original).unwrap();
    assert_eq!(original.pixels(), source.pixels());
    let green = render(Recipe::Channel {
        channel: Channel::Green,
    })
    .unwrap();
    assert_eq!(green.gray_values(), vec![60; 441]);
    let flat = image(21, 21, &[100; 441]);
    let standard = |terminal: Terminal| {
        let recipe = Recipe::Standard {
            channel: Channel::Luma,
            scale: 1,
            terminal,
        };
        render_variant(&flat, recipe, &mut RenderCache::new(), &tables(), None)
    };
    assert_eq!(
        standard(Terminal::Identity).unwrap().gray_values(),
        vec![100; 441]
    );
    assert_eq!(
        standard(Terminal::Invert).unwrap().gray_values(),
        vec![155; 441]
    );
    let brighten = Terminal::Gamma {
        curve: ToneCurve::Brighten,
    };
    assert_eq!(standard(brighten).unwrap().gray_values(), vec![101; 441]);
    let darken = Terminal::GammaAdaptive {
        curve: ToneCurve::Darken,
        window: 9,
        bias: 5,
    };
    // Darkened to 50, which is brighter than its surroundings less the bias.
    assert_eq!(standard(darken).unwrap().gray_values(), vec![255; 441]);
    let sharpen = Terminal::Unsharp {
        amount: Sharpening::Strong,
    };
    assert_eq!(standard(sharpen).unwrap().gray_values(), vec![100; 441]);
    assert!(standard(Terminal::GaussianAdaptive { window: 9, bias: 5 }).is_none());
    assert!(standard(Terminal::Adaptive { window: 2, bias: 5 }).is_none());
    assert_eq!(standard(Terminal::Nearest).unwrap().pixels(), flat.pixels());
    let calibrated = Recipe::Calibrated {
        scale: 2,
        terminal: Terminal::Identity,
    };
    assert!(render(calibrated).is_none());
}

#[test]
fn calibrated_variants_are_rendered_from_what_was_kept() {
    let source = WasmImage::new(&[10, 60, 20, 255].repeat(441), 21, 21).unwrap();
    let recipe = |terminal: Terminal| Recipe::Calibrated { scale: 2, terminal };
    let mut cache = RenderCache::new();
    assert_eq!(cache.missing_scale(recipe(Terminal::Identity)), Some(2));
    assert_eq!(cache.missing_scale(Recipe::Original), None);
    let values: Vec<u8> = (0..42 * 42).map(|index| (index % 200) as u8).collect();
    cache.calibrate(2, image(42, 42, &values));
    assert_eq!(cache.missing_scale(recipe(Terminal::Identity)), None);
    let gray = render_variant(
        &source,
        recipe(Terminal::Identity),
        &mut cache,
        &tables(),
        None,
    )
    .unwrap();
    assert_eq!(gray.gray_values(), values);
    assert!(cache.gaussian_input(&source, recipe(Terminal::Otsu)).is_none());
    let adapted = recipe(Terminal::GaussianAdaptive {
        window: 11,
        bias: 3,
    });
    let input = cache.gaussian_input(&source, adapted).unwrap();
    assert_eq!((input.window, input.bias), (11, 3));
    assert_eq!(input.image.gray_values(), values);
    let blurred = image(42, 42, &[7; 42 * 42]);
    let result = render_variant(&source, adapted, &mut cache, &tables(), Some(blurred)).unwrap();
    assert_eq!(result.gray_values(), vec![7; 42 * 42]);
}

#[test]
fn variants_share_what_their_channel_and_scale_start_from() {
    let values: Vec<u8> = (0..441).map(|index| 60 + (index / 5) as u8).collect();
    let source = image(21, 21, &values);
    let mut cache = RenderCache::new();
    let (base, same) = cache.standard_inputs(&source, Channel::Blue, 1).unwrap();
    assert_eq!(base.pixels(), standard_base(&source, Channel::Blue).pixels());
    assert_eq!(same.pixels(), base.pixels());
    let (_, doubled) = cache.standard_inputs(&source, Channel::Blue, 2).unwrap();
    assert_eq!(
        doubled.pixels(),
        base.photon_resize(42, 42, "lanczos3").unwrap().pixels()
    );
    let (again, kept) = cache.standard_inputs(&source, Channel::Blue, 2).unwrap();
    assert_eq!(again.pixels(), base.pixels());
    assert_eq!(kept.pixels(), doubled.pixels());
    assert!(cache.standard_inputs(&source, Channel::Blue, 300).is_none());
    let rendered = |terminal: Terminal, cache: &mut RenderCache| {
        let recipe = Recipe::Standard {
            channel: Channel::Blue,
            scale: 2,
            terminal,
        };
        render_variant(&source, recipe, cache, &tables(), None).unwrap()
    };
    assert_eq!(
        rendered(Terminal::Identity, &mut cache).pixels(),
        doubled.pixels()
    );
    assert_eq!(
        rendered(Terminal::Nearest, &mut cache).pixels(),
        base.photon_resize(42, 42, "nearest").unwrap().pixels()
    );
    assert_eq!(
        rendered(Terminal::Otsu, &mut cache).pixels(),
        doubled.photon_threshold(doubled.otsu_level()).pixels()
    );
}

#[test]
fn standard_variants_start_from_a_stretched_channel() {
    let values: Vec<u8> = (0..441).map(|index| 60 + (index / 5) as u8).collect();
    let source = image(21, 21, &values);
    let base = standard_base(&source, Channel::Red);
    assert_eq!(base.gray_values()[0], 0);
    assert_eq!(
        standard_scaled(&base, 1).unwrap().pixels(),
        base.pixels()
    );
    let doubled = standard_scaled(&base, 2).unwrap();
    assert_eq!((doubled.width(), doubled.height()), (42, 42));
    assert!(standard_scaled(&base, 300).is_none());
    assert!(standard_scaled(&base, u32::MAX).is_none());
}

#[test]
fn fused_variants_need_frames_of_one_size() {
    // Too narrow a range to be stretched, so the frames keep their values.
    let first = image(2, 2, &[100, 101, 102, 103]);
    let second = image(2, 2, &[101, 101, 104, 104]);
    let variants = fused_variants(&vec![first, second], Effort::Balanced);
    assert_eq!(variants.len(), 2);
    assert_eq!(variants[0].name, "fusion-mean");
    assert_eq!(variants[0].quality, 4 << 52);
    assert_eq!(variants[0].image.gray_values(), vec![101, 101, 103, 104]);
    assert_eq!(variants[1].name, "fusion-mean-adaptive");
    assert_eq!(variants[1].quality, 9 << 51);
    assert_eq!(variants[1].image.gray_values(), vec![255; 4]);
    let other = image(1, 2, &[0, 0]);
    assert!(fused_variants(&vec![image(2, 2, &[0; 4]), other], Effort::Fast).is_empty());
    assert!(fused_variants(&vec![image(2, 2, &[0; 4])], Effort::Fast).is_empty());
    assert!(fused_variants(&vec![], Effort::Fast).is_empty());
}

#[test]
fn colored_pixels_are_thresholded_by_brightness() {
    // The second pixel has a brightness of exactly seventeen.
    let pixels = [17u8, 17, 17, 255, 40, 0, 118, 255, 18, 18, 18, 255];
    let source = WasmImage::new(&pixels, 3, 1).unwrap();
    let binary = source.photon_threshold(17).pixels();
    assert_eq!(binary, vec![0, 0, 0, 255, 0, 0, 0, 255, 255, 255, 255, 255]);
    let lower = source.photon_threshold(16).pixels();
    assert_eq!(lower[4..8], [255, 255, 255, 255]);
    assert_eq!(source.photon_threshold(255).pixels()[4..7], [0, 0, 0]);
}

#[test]
fn any_bias_can_be_asked_for() {
    let source = image(4, 4, &(0..16).map(|value| value * 16).collect::<Vec<u8>>());
    let dark = source.adaptive_threshold(3, i64::MIN).unwrap();
    assert!(dark.gray_values().iter().all(|value| *value == 0));
    let light = source.adaptive_threshold(3, i64::MAX).unwrap();
    assert!(light.gray_values().iter().all(|value| *value == 255));
}
