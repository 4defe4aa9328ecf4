//! Rendering the variants of an image, and fusing several frames into one.

use vstd::prelude::*;

use crate::effort::{Channel, Effort};
use crate::image::{
    adaptive_values, channel_values, contrasted, enlarged, filter_named, gray_picture, intensities,
    is_picture, is_resized, level_thresholded, otsu_split, photon_inverted, sharpened_values,
    target_refusal, window_radius, Picture, ResizeFilter, WasmImage,
};
use crate::plan::{Recipe, Sharpening, Terminal, ToneCurve};
use crate::recovery_result::POINT;

verus! {

/// The amount by which edges are sharpened, in units of 2^-52.
pub open spec fn sharpening_amount(amount: Sharpening) -> int {
    match amount {
        Sharpening::Standard => 6079859496950170,
        Sharpening::Strong => 8106479329266893,
    }
}

/// The tone tables of the two curves: what every intensity is mapped to.
#[derive(Debug)]
pub struct ToneTables {
    pub brighten: Vec<u8>,
    pub darken: Vec<u8>,
}

/// Whether the tables map every intensity.
pub open spec fn are_tables(tables: ToneTables) -> bool {
    tables.brighten@.len() == 256 && tables.darken@.len() == 256
}

/// The table of a curve.
pub open spec fn curve_table(tables: ToneTables, curve: ToneCurve) -> Seq<u8> {
    match curve {
        ToneCurve::Brighten => tables.brighten@,
        ToneCurve::Darken => tables.darken@,
    }
}

/// A picture with its intensities mapped through a table.
pub open spec fn mapped(picture: Picture, table: Seq<u8>) -> Picture {
    let values = intensities(picture);
    gray_picture(
        Seq::new(values.len(), |k: int| table[values[k] as int]),
        picture.width,
        picture.height,
    )
}

/// A picture with its edges sharpened.
pub open spec fn sharpened_picture(picture: Picture, amount: Sharpening) -> Picture {
    gray_picture(
        sharpened_values(
            intensities(picture),
            picture.width,
            picture.height,
            sharpening_amount(amount),
        ),
        picture.width,
        picture.height,
    )
}

/// A picture split in black and white by the surroundings of each pixel.
pub open spec fn adapted(picture: Picture, window: u32, bias: u32) -> Option<Picture> {
    if 3 <= window <= 255 {
        Some(
            gray_picture(
                adaptive_values(
                    intensities(picture),
                    picture.width,
                    picture.height,
                    window_radius(window as int),
                    1024 * bias,
                ),
                picture.width,
                picture.height,
            ),
        )
    } else {
        None
    }
}

/// Whether a picture can be enlarged by a whole factor.
pub open spec fn can_enlarge(picture: Picture, scale: u32) -> bool {
    let (width, height) = (picture.width * scale, picture.height * scale);
    width <= u32::MAX && height <= u32::MAX && target_refusal(width as u32, height as u32) is None
}

/// The last step of rendering a variant. `image` is the enlarged picture, `base`
/// the one that was enlarged, and `gaussian` what a threshold by a Gaussian
/// window makes of `image`, where it makes anything of it.
pub open spec fn rendered(
    image: Picture,
    base: Picture,
    scale: u32,
    terminal: Terminal,
    tables: ToneTables,
    gaussian: Option<Picture>,
) -> Option<Picture> {
    match terminal {
        Terminal::Identity => Some(image),
        Terminal::Otsu => Some(
            Picture {
                pixels: level_thresholded(image.pixels, otsu_split(intensities(image))),
                ..image
            },
        ),
        Terminal::Adaptive { window, bias } => adapted(image, window, bias),
        Terminal::GaussianAdaptive { window, bias } => gaussian,
        Terminal::Unsharp { amount } => Some(sharpened_picture(image, amount)),
        Terminal::UnsharpAdaptive { amount, window, bias } => adapted(
            sharpened_picture(image, amount),
            window,
            bias,
        ),
        Terminal::Gamma { curve } => Some(mapped(image, curve_table(tables, curve))),
        Terminal::GammaAdaptive { curve, window, bias } => adapted(
            mapped(image, curve_table(tables, curve)),
            window,
            bias,
        ),
        Terminal::Nearest => if can_enlarge(base, scale) {
            Some(
                Picture {
                    pixels: enlarged(
                        base.pixels,
                        base.width,
                        base.height,
                        base.width * scale,
                        base.height * scale,
                    ),
                    width: base.width * scale,
                    height: base.height * scale,
                },
            )
        } else {
            None
        },
        Terminal::Invert => Some(Picture { pixels: photon_inverted(image.pixels), ..image }),
    }
}

/// What an optional image shows.
pub open spec fn picture_of(image: Option<WasmImage>) -> Option<Picture> {
    match image {
        Some(image) => Some(image@),
        None => None,
    }
}

fn adapt(image: &WasmImage, window: u32, bias: u32) -> (result: Option<WasmImage>)
    ensures
        picture_of(result) == adapted(image@, window, bias),
{
    match image.adaptive_threshold(window as usize, 1024 * bias as i64) {
        Ok(binary) => Some(binary),
        Err(_) => None,
    }
}

fn sharpen(image: &WasmImage, amount: Sharpening) -> (result: WasmImage)
    ensures
        result@ == sharpened_picture(image@, amount),
{
    match amount {
        Sharpening::Standard => image.unsharp(6079859496950170),
        Sharpening::Strong => image.unsharp(8106479329266893),
    }
}

fn map_tones(image: &WasmImage, curve: ToneCurve, tables: &ToneTables) -> (result: WasmImage)
    requires
        are_tables(*tables),
    ensures
        result@ == mapped(image@, curve_table(*tables, curve)),
{
    match curve {
        ToneCurve::Brighten => image.gamma(&tables.brighten),
        ToneCurve::Darken => image.gamma(&tables.darken),
    }
}

/// Enlarges an image by a whole factor.
fn enlarge(image: &WasmImage, scale: u32, filter: &str) -> (result: Option<WasmImage>)
    requires
        filter_named(filter@) is Some,
    ensures
        1 <= image@.width,
        1 <= image@.height,
        result is Some <==> can_enlarge(image@, scale),
        result matches Some(larger) ==> {
            &&& larger@.width == image@.width * scale
            &&& larger@.height == image@.height * scale
            &&& is_picture(larger@)
            &&& is_resized(larger@, image@, filter_named(filter@)->Some_0)
        },
{
    let (width, height): (u64, u64) = (image.width() as u64, image.height() as u64);
    assert(0 <= width * scale <= 4096 * 0xffff_ffff && 0 <= height * scale <= 4096 * 0xffff_ffff)
        by (nonlinear_arith)
        requires
            0 <= width <= 4096,
            0 <= height <= 4096,
            0 <= scale <= 0xffff_ffff,
    ;
    let (target_width, target_height): (u64, u64) = (width * scale as u64, height * scale as u64);
    if target_width > 0xffff_ffff || target_height > 0xffff_ffff {
        return None;
    }
    match image.photon_resize(target_width as u32, target_height as u32, filter) {
        Ok(larger) => Some(larger),
        Err(_) => None,
    }
}

/// Takes the last step of rendering a variant.
pub fn apply_terminal(
    image: WasmImage,
    base: &WasmImage,
    scale: u32,
    terminal: Terminal,
    tables: &ToneTables,
    gaussian: Option<WasmImage>,
) -> (result: Option<WasmImage>)
    requires
        are_tables(*tables),
    ensures
        picture_of(result) == rendered(
            image@,
            base@,
            scale,
            terminal,
            *tables,
            picture_of(gaussian),
        ),
{
    match terminal {
        Terminal::Identity => Some(image),
        Terminal::Otsu => Some(image.photon_threshold(image.otsu_level())),
        Terminal::Adaptive { window, bias } => adapt(&image, window, bias),
        Terminal::GaussianAdaptive { window, bias } => gaussian,
        Terminal::Unsharp { amount } => Some(sharpen(&image, amount)),
        Terminal::UnsharpAdaptive { amount, window, bias } => adapt(
            &sharpen(&image, amount),
            window,
            bias,
        ),
        Terminal::Gamma { curve } => Some(map_tones(&image, curve, tables)),
        Terminal::GammaAdaptive { curve, window, bias } => adapt(
            &map_tones(&image, curve, tables),
            window,
            bias,
        ),
        Terminal::Nearest => {
            proof {
                lemma_filter_names();
            }
            let result: Option<WasmImage> = enlarge(base, scale, "nearest");
            proof {
                if can_enlarge(base@, scale) {
                    lemma_multiple(base@.width, scale as int);
                    lemma_multiple(base@.height, scale as int);
                }
            }
            result
        },
        Terminal::Invert => Some(image.photon_invert()),
    }
}

proof fn lemma_filter_names()
    ensures
        filter_named("nearest"@) == Some(ResizeFilter::Nearest),
        filter_named("lanczos3"@) == Some(ResizeFilter::Lanczos3),
{
    reveal_strlit("nearest");
    reveal_strlit("triangle");
    reveal_strlit("catmull-rom");
    reveal_strlit("gaussian");
    reveal_strlit("lanczos3");
    assert("lanczos3"@[0] != "triangle"@[0]);
    assert("lanczos3"@[0] != "gaussian"@[0]);
    assert("lanczos3"@.len() != "nearest"@.len());
    assert("lanczos3"@.len() != "catmull-rom"@.len());
}

proof fn lemma_multiple(side: int, scale: int)
    requires
        0 < side,
    ensures
        (side * scale) % side == 0,
{
    assert((side * scale) % side == 0) by (nonlinear_arith)
        requires
            0 < side,
    ;
}

/// A channel with its contrast stretched: what standard variants start from.
pub fn standard_base(source: &WasmImage, channel: Channel) -> (base: WasmImage)
    ensures
        base@ == contrasted(
            gray_picture(channel_values(source@, channel), source@.width, source@.height),
        ),
        is_picture(source@),
{
    source.gray_channel(channel).auto_contrast()
}

/// Enlarges what a standard variant starts from.
pub fn standard_scaled(base: &WasmImage, scale: u32) -> (scaled: Option<WasmImage>)
    ensures
        scaled is Some <==> scale == 1 || can_enlarge(base@, scale),
        scaled matches Some(image) ==> {
            &&& scale == 1 ==> image@ == base@
            &&& image@.width == base@.width * scale
            &&& image@.height == base@.height * scale
            &&& scale != 1 ==> is_resized(image@, base@, ResizeFilter::Lanczos3)
        },
{
    proof {
        lemma_filter_names();
    }
    if scale == 1 {
        Some(base.copy())
    } else {
        enlarge(base, scale, "lanczos3")
    }
}

/// What a recipe makes of an image. `base` is what a standard variant starts
/// from, and `scaled` what was enlarged for the variant, if that was possible.
pub open spec fn variant_picture(
    source: Picture,
    recipe: Recipe,
    base: Picture,
    scaled: Option<Picture>,
    tables: ToneTables,
    gaussian: Option<Picture>,
) -> Option<Picture> {
    match recipe {
        Recipe::Original => Some(source),
        Recipe::Channel { channel } => Some(
            gray_picture(channel_values(source, channel), source.width, source.height),
        ),
        Recipe::Calibrated { scale, terminal } => match scaled {
            Some(image) => rendered(image, source, scale, terminal, tables, gaussian),
            None => None,
        },
        Recipe::Standard { channel, scale, terminal } => match scaled {
            Some(image) => rendered(image, base, scale, terminal, tables, gaussian),
            None => None,
        },
    }
}

/// A frame as it enters a fusion: its luma with the contrast stretched.
pub open spec fn fusion_frame(picture: Picture) -> Picture {
    contrasted(
        gray_picture(channel_values(picture, Channel::Luma), picture.width, picture.height),
    )
}

/// The sum of one pixel over the first `n` frames.
pub open spec fn stacked(frames: Seq<Picture>, k: int, n: int) -> int
    decreases n,
{
    if n <= 0 {
        0
    } else {
        stacked(frames, k, n - 1) + intensities(fusion_frame(frames[n - 1]))[k]
    }
}

/// `sum / count` to the nearest byte, ties up.
pub open spec fn mean_up(sum: int, count: int) -> u8 {
    ((2 * sum + count) / (2 * count)) as u8
}

/// The mean of frames of one size.
pub open spec fn fusion_mean(frames: Seq<Picture>) -> Picture {
    let n = frames.len() as int;
    gray_picture(
        Seq::new(
            (frames[0].width * frames[0].height) as nat,
            |k: int| mean_up(stacked(frames, k, n), n),
        ),
        frames[0].width,
        frames[0].height,
    )
}

/// Whether frames can be fused: two at least, all of one size.
pub open spec fn can_fuse(frames: Seq<Picture>) -> bool {
    frames.len() >= 2 && forall|i: int|
        0 <= i < frames.len() ==> (#[trigger] frames[i]).width == frames[0].width
            && frames[i].height == frames[0].height
}

/// A variant made of several frames. Its quality is a double-precision number of
/// points.
#[derive(Debug)]
pub struct FusedVariant {
    pub name: String,
    pub quality: u64,
    pub image: WasmImage,
}

/// What images show.
pub open spec fn pictures(images: Seq<WasmImage>) -> Seq<Picture> {
    Seq::new(images.len(), |i: int| images[i]@)
}

/// The window of the adaptive threshold after a fusion.
pub open spec fn fusion_window(effort: Effort) -> u32 {
    if effort == Effort::Thorough {
        35
    } else {
        25
    }
}

fn frames_fit(frames: &Vec<WasmImage>) -> (fit: bool)
    ensures
        fit == can_fuse(pictures(frames@)),
{
    if frames.len() < 2 {
        return false;
    }
    let (width, height): (u32, u32) = (frames[0].width(), frames[0].height());
    let ghost all = pictures(frames@);
    let mut i: usize = 0;
    while i < frames.len()
        invariant
            i <= frames@.len(),
            all == pictures(frames@),
            frames@.len() >= 2,
            width == all[0].width,
            height == all[0].height,
            forall|j: int|
                0 <= j < i ==> (#[trigger] all[j]).width == all[0].width && all[j].height
                    == all[0].height,
        decreases frames@.len() - i,
    {
        if frames[i].width() != width || frames[i].height() != height {
            assert(all[i as int].width != all[0].width || all[i as int].height != all[0].height);
            return false;
        }
        i += 1;
    }
    true
}

proof fn lemma_mean_up(sum: int, count: int)
    requires
        1 <= count,
        0 <= sum <= 255 * count,
    ensures
        0 <= (2 * sum + count) / (2 * count) <= 255,
{
    assert(0 <= (2 * sum + count) / (2 * count) <= 255) by (nonlinear_arith)
        requires
            1 <= count,
            0 <= sum <= 255 * count,
    ;
}

proof fn lemma_stacked(frames: Seq<Picture>, k: int, n: int)
    requires
        0 <= n,
    ensures
        0 <= stacked(frames, k, n) <= 255 * n,
    decreases n,
{
    if n > 0 {
        lemma_stacked(frames, k, n - 1);
    }
}

/// Adds a frame to the sums of the frames before it.
fn stack_frame(sums: &mut Vec<u128>, frame: &WasmImage, Ghost(frames): Ghost<Seq<Picture>>, Ghost(
    n,
): Ghost<int>)
    requires
        0 <= n < frames.len() <= usize::MAX,
        frame@ == frames[n],
        old(sums)@.len() == frames[n].width * frames[n].height,
        forall|k: int|
            0 <= k < old(sums)@.len() ==> #[trigger] old(sums)@[k] == stacked(frames, k, n),
    ensures
        final(sums)@.len() == old(sums)@.len(),
        forall|k: int|
            0 <= k < final(sums)@.len() ==> #[trigger] final(sums)@[k] == stacked(
                frames,
                k,
                n + 1,
            ),
{
    let values: Vec<u8> = standard_base(frame, Channel::Luma).gray_values();
    let ghost before = sums@;
    let mut k: usize = 0;
    proof {
        lemma_contrasted_size(frame@);
    }
    while k < sums.len()
        invariant
            0 <= n < frames.len() <= usize::MAX,
            k <= sums@.len(),
            sums@.len() == before.len(),
            values@ == intensities(fusion_frame(frames[n])),
            values@.len() == sums@.len(),
            forall|j: int| 0 <= j < before.len() ==> #[trigger] before[j] == stacked(frames, j, n),
            forall|j: int| 0 <= j < k ==> #[trigger] sums@[j] == stacked(frames, j, n + 1),
            forall|j: int| k <= j < sums@.len() ==> sums@[j] == before[j],
        decreases sums@.len() - k,
    {
        proof {
            lemma_stacked(frames, k as int, n);
            assert(before[k as int] == stacked(frames, k as int, n));
        }
        let sum: u128 = sums[k] + values[k] as u128;
        sums.set(k, sum);
        k += 1;
    }
}

proof fn lemma_contrasted_size(picture: Picture)
    requires
        is_picture(picture),
    ensures
        intensities(fusion_frame(picture)).len() == picture.width * picture.height,
{
}

/// Fuses frames of one size into variants: their mean, and that split in black
/// and white. Frames that cannot be fused give none.
pub fn fused_variants(frames: &Vec<WasmImage>, effort: Effort) -> (variants: Vec<FusedVariant>)
    ensures
        if can_fuse(pictures(frames@)) {
            let mean = fusion_mean(pictures(frames@));
            &&& variants@.len() == 2
            &&& variants@[0].name@ == "fusion-mean"@
            &&& variants@[0].quality == 4 * POINT
            &&& variants@[0].image@ == mean
            &&& variants@[1].name@ == "fusion-mean-adaptive"@
            &&& 2 * variants@[1].quality == 9 * POINT
            &&& Some(variants@[1].image@) == adapted(mean, fusion_window(effort), 5)
        } else {
            variants@.len() == 0
        },
{
    let mut variants: Vec<FusedVariant> = Vec::new();
    if !frames_fit(frames) {
        return variants;
    }
    let ghost all = pictures(frames@);
    let count: usize = frames.len();
    let (width, height): (u32, u32) = (frames[0].width(), frames[0].height());
    assert(1 <= width * height <= 16777216) by (nonlinear_arith)
        requires
            1 <= width <= 4096,
            1 <= height <= 4096,
    ;
    let pixels: usize = width as usize * height as usize;
    let mut sums: Vec<u128> = vec![0u128; pixels];
    let mut i: usize = 0;
    while i < count
        invariant
            count == frames@.len(),
            all == pictures(frames@),
            can_fuse(all),
            2 <= count,
            width == all[0].width,
            height == all[0].height,
            sums@.len() == width * height,
            i <= count,
            forall|k: int|
                0 <= k < sums@.len() ==> #[trigger] sums@[k] == stacked(all, k, i as int),
        decreases count - i,
    {
        assert(all[i as int].width == all[0].width && all[i as int].height == all[0].height);
        stack_frame(&mut sums, &frames[i], Ghost(all), Ghost(i as int));
        i += 1;
    }
    let ghost target = Seq::new(
        (width * height) as nat,
        |k: int| mean_up(stacked(all, k, count as int), count as int),
    );
    let mut values: Vec<u8> = Vec::new();
    while values.len() < pixels
        invariant
            2 <= count,
            pixels == width * height,
            sums@.len() == pixels,
            values@.len() <= pixels,
            forall|k: int|
                0 <= k < sums@.len() ==> #[trigger] sums@[k] == stacked(all, k, count as int),
            target == Seq::new(
                (width * height) as nat,
                |k: int| mean_up(stacked(all, k, count as int), count as int),
            ),
            values@ == target.take(values@.len() as int),
        decreases pixels - values@.len(),
    {
        let k: usize = values.len();
        proof {
            lemma_stacked(all, k as int, count as int);
            assert(sums@[k as int] == stacked(all, k as int, count as int));
            lemma_mean_up(sums@[k as int] as int, count as int);
        }
        let mean: u128 = (2 * sums[k] + count as u128) / (2 * count as u128);
        let ghost before = values@;
        values.push(mean as u8);
        assert(values@ =~= target.take(k + 1));
    }
    assert(values@ =~= target);
    let mean: WasmImage = WasmImage::from_gray(&values, width, height);
    let window: u32 = if effort == Effort::Thorough {
        35
    } else {
        25
    };
    let adaptive: Option<WasmImage> = adapt(&mean, window, 5);
    variants.push(
        FusedVariant {
            name: String::from_str("fusion-mean"),
            quality: 18_014_398_509_481_984,
            image: mean,
        },
    );
    if let Some(image) = adaptive {
        variants.push(
            FusedVariant {
                name: String::from_str("fusion-mean-adaptive"),
                quality: 20_266_198_323_167_232,
                image,
            },
        );
    }
    variants
}

} // verus!
