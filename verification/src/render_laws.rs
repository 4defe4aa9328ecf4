//! What the last steps of rendering make of a picture.

use vstd::prelude::*;

use crate::image::{
    gray_picture, gray_rgba, intensities, lemma_best_split_range, lemma_place, otsu_split,
    threshold_keeps_black_convention, Picture,
};
use crate::otsu_laws::otsu_levels_separate_best;
use crate::plan::{Sharpening, Terminal, ToneCurve};
use crate::preflight_laws::apart;
use crate::render::{can_enlarge, curve_table, rendered, sharpening_amount, ToneTables};

verus! {

proof fn lemma_gray_intensities(values: Seq<u8>, width: int, height: int)
    requires
        values.len() == width * height,
    ensures
        intensities(gray_picture(values, width, height)) == values,
{
    let picture = gray_picture(values, width, height);
    assert forall|k: int| 0 <= k < values.len() implies #[trigger] intensities(picture)[k]
        == values[k] by {
        assert(picture.pixels[4 * k] == values[(4 * k) / 4]);
    }
    assert(intensities(picture) =~= values);
}

/// Otsu's threshold turns a gray picture black up to its level and white above.
pub proof fn otsu_renders_two_tones(
    values: Seq<u8>,
    width: int,
    height: int,
    base: Picture,
    scale: u32,
    tables: ToneTables,
    gaussian: Option<Picture>,
    k: int,
)
    requires
        values.len() == width * height,
        1 <= values.len() <= 16_777_216,
        0 <= k < values.len(),
    ensures
        ({
            let image = gray_picture(values, width, height);
            let result = rendered(image, base, scale, Terminal::Otsu, tables, gaussian);
            &&& result is Some
            &&& result->Some_0.width == width
            &&& result->Some_0.height == height
            &&& result->Some_0.pixels[4 * k] == (if values[k] <= otsu_split(values) {
                0u8
            } else {
                255
            })
        }),
{
    lemma_gray_intensities(values, width, height);
    lemma_best_split_range(values, 256);
    threshold_keeps_black_convention(values, otsu_split(values) as u8, k);
}

/// Inverting a picture turns each intensity into its opposite, and inverting it
/// again gives the picture back.
pub proof fn inverting_twice_changes_nothing(
    image: Picture,
    base: Picture,
    scale: u32,
    tables: ToneTables,
    gaussian: Option<Picture>,
    k: int,
)
    requires
        0 <= 4 * k < image.pixels.len(),
    ensures
        ({
            let once = rendered(image, base, scale, Terminal::Invert, tables, gaussian);
            &&& once is Some
            &&& once->Some_0.pixels[4 * k] == 255 - image.pixels[4 * k]
            &&& rendered(once->Some_0, base, scale, Terminal::Invert, tables, gaussian) == Some(
                image,
            )
        }),
{
    let once = rendered(image, base, scale, Terminal::Invert, tables, gaussian)->Some_0;
    let twice = rendered(once, base, scale, Terminal::Invert, tables, gaussian)->Some_0;
    assert(twice.pixels =~= image.pixels);
}

/// Enlarging a picture without blending repeats each of its pixels in a square.
pub proof fn enlarging_repeats_pixels(
    image: Picture,
    base: Picture,
    scale: u32,
    tables: ToneTables,
    gaussian: Option<Picture>,
    x: int,
    y: int,
    c: int,
)
    requires
        1 <= base.width,
        1 <= base.height,
        1 <= scale,
        0 <= x < base.width * scale,
        0 <= y < base.height * scale,
        0 <= c < 4,
        can_enlarge(base, scale),
    ensures
        ({
            let result = rendered(image, base, scale, Terminal::Nearest, tables, gaussian);
            &&& result is Some
            &&& result->Some_0.width == base.width * scale
            &&& result->Some_0.height == base.height * scale
            &&& result->Some_0.pixels[4 * (y * (base.width * scale) + x) + c] == base.pixels[4 * ((y
                / scale as int) * base.width + x / scale as int) + c]
        }),
{
    let (w, h) = (base.width * scale, base.height * scale);
    lemma_place(w, h, x, y);
    let at = y * w + x;
    assert((4 * at + c) / 4 == at && (4 * at + c) % 4 == c);
    assert(w / base.width == scale) by {
        vstd::arithmetic::div_mod::lemma_div_multiples_vanish(scale as int, base.width);
        assert(w == base.width * scale);
    }
    assert(h / base.height == scale) by {
        vstd::arithmetic::div_mod::lemma_div_multiples_vanish(scale as int, base.height);
    }
}

/// Whether an image can be enlarged by a factor decides whether it is.
pub proof fn too_large_pictures_are_not_enlarged(
    image: Picture,
    base: Picture,
    scale: u32,
    tables: ToneTables,
    gaussian: Option<Picture>,
)
    ensures
        rendered(image, base, scale, Terminal::Nearest, tables, gaussian) is Some <==> can_enlarge(
            base,
            scale,
        ),
{
}

/// A transform of two steps does one after the other: it thresholds what the first
/// step alone gives.
pub proof fn two_steps_follow_each_other(
    image: Picture,
    base: Picture,
    scale: u32,
    tables: ToneTables,
    gaussian: Option<Picture>,
    amount: Sharpening,
    curve: ToneCurve,
    window: u32,
    bias: u32,
)
    ensures
        ({
            let sharp = rendered(
                image,
                base,
                scale,
                Terminal::Unsharp { amount },
                tables,
                gaussian,
            );
            &&& sharp is Some
            &&& rendered(
                image,
                base,
                scale,
                Terminal::UnsharpAdaptive { amount, window, bias },
                tables,
                gaussian,
            ) == rendered(
                sharp->Some_0,
                base,
                scale,
                Terminal::Adaptive { window, bias },
                tables,
                gaussian,
            )
        }),
        ({
            let toned = rendered(image, base, scale, Terminal::Gamma { curve }, tables, gaussian);
            &&& toned is Some
            &&& rendered(
                image,
                base,
                scale,
                Terminal::GammaAdaptive { curve, window, bias },
                tables,
                gaussian,
            ) == rendered(
                toned->Some_0,
                base,
                scale,
                Terminal::Adaptive { window, bias },
                tables,
                gaussian,
            )
        }),
{
}

/// A tone curve maps each intensity through its own table.
pub proof fn tones_follow_their_curve(
    image: Picture,
    base: Picture,
    scale: u32,
    tables: ToneTables,
    gaussian: Option<Picture>,
    k: int,
)
    requires
        0 <= k < image.width * image.height,
    ensures
        rendered(
            image,
            base,
            scale,
            Terminal::Gamma { curve: ToneCurve::Brighten },
            tables,
            gaussian,
        )->Some_0.pixels[4 * k] == tables.brighten@[intensities(image)[k] as int],
        rendered(
            image,
            base,
            scale,
            Terminal::Gamma { curve: ToneCurve::Darken },
            tables,
            gaussian,
        )->Some_0.pixels[4 * k] == tables.darken@[intensities(image)[k] as int],
{
    let values = intensities(image);
    lemma_curve(values, curve_table(tables, ToneCurve::Brighten), k);
    lemma_curve(values, curve_table(tables, ToneCurve::Darken), k);
}

proof fn lemma_curve(values: Seq<u8>, table: Seq<u8>, k: int)
    requires
        0 <= k < values.len(),
    ensures
        gray_rgba(Seq::new(values.len(), |i: int| table[values[i] as int]))[4 * k]
            == table[values[k] as int],
{
    assert((4 * k) / 4 == k && (4 * k) % 4 == 0);
}

/// Edges are sharpened by 1.35, or strongly by 1.8, to the nearest amount in double
/// precision.
pub proof fn sharpening_has_its_amounts()
    ensures
        2 * apart(100 * sharpening_amount(Sharpening::Standard), 135int * 4_503_599_627_370_496)
            <= 100,
        2 * apart(10 * sharpening_amount(Sharpening::Strong), 18int * 4_503_599_627_370_496) <= 10,
{
}

} // verus!
