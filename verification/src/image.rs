//! Image-processing primitives of the recovery.
//!
//! Photon supplies generic RGBA transforms. The operations whose sampling and
//! threshold semantics are part of the recovery model are computed here, with
//! the rounding of double-precision arithmetic.

use vstd::prelude::*;

use crate::effort::Channel;
use crate::order::copy_bytes;
use crate::otsu::{between_variance, lemma_more_variance, variance_of};
use crate::rounding::{
    lemma_nearest, lemma_spacing, nearest, round_quotient, round_to, rounded, rounded_quotient,
    rounded_signed, spacing, two_to, DOUBLE,
};
use crate::text::{decimal, decimal_text};

verus! {

/// The longest side of an image.
pub const MAX_SIDE: u32 = 4096;

/// The most pixels an image may have.
pub const MAX_INPUT_PIXELS: usize = 24_000_000;

/// One intensity step, in the fixed-point units of the kernels: 2^56.
pub const UNIT: u128 = 72057594037927936;

/// The double nearest to 0.299, in kernel units.
pub const RED_WEIGHT: u128 = 21545220617340452;

/// The double nearest to 0.587, in kernel units.
pub const GREEN_WEIGHT: u128 = 42297807700263696;

/// The double nearest to 0.114, in kernel units.
pub const BLUE_WEIGHT: u128 = 8214565720323785;

/// Why an image request was refused.
#[derive(Clone, Copy, Debug, PartialEq, Eq, Structural)]
pub enum ImageError {
    /// A side is empty or too long.
    Dimensions,
    /// There are too many pixels.
    PixelLimit,
    /// There are not four bytes per pixel.
    ByteCount { expected: usize, width: u32, height: u32, actual: usize },
    /// There is no such channel.
    Channel,
    /// A resized image would be smaller than a symbol.
    TargetTooSmall,
    /// There is no such resampling filter.
    Filter,
    /// The adaptive window is too small or too large.
    AdaptiveWindow,
    /// A fusion needs two frames.
    FusionFrames,
    /// The frames of a fusion do not all have the same size.
    FusionSizes,
}

/// The words in which a refusal is reported.
pub open spec fn image_error_text(error: ImageError) -> Seq<char> {
    match error {
        ImageError::Dimensions => "image dimensions must be between 1 and 4096 pixels"@,
        ImageError::PixelLimit => "image exceeds the 24000000 pixel limit"@,
        ImageError::ByteCount { expected, width, height, actual } => "expected "@ + decimal(
            expected as nat,
        ) + " RGBA bytes for "@ + decimal(width as nat) + "x"@ + decimal(height as nat)
            + ", received "@ + decimal(actual as nat),
        ImageError::Channel => "channel must be luma, red, green, blue, or min"@,
        ImageError::TargetTooSmall => "resized image must be at least 21x21"@,
        ImageError::Filter =>
            "Photon filter must be nearest, triangle, catmull-rom, gaussian, or lanczos3"@,
        ImageError::AdaptiveWindow => "adaptive window must be between 3 and 255"@,
        ImageError::FusionFrames => "fusion requires at least two frames"@,
        ImageError::FusionSizes => "all fusion frames must have identical dimensions"@,
    }
}

impl ImageError {
    /// Reports the refusal in words.
    pub fn message(&self) -> (text: String)
        ensures
            text@ == image_error_text(*self),
    {
        match self {
            ImageError::Dimensions => String::from_str(
                "image dimensions must be between 1 and 4096 pixels",
            ),
            ImageError::PixelLimit => String::from_str("image exceeds the 24000000 pixel limit"),
            ImageError::ByteCount { expected, width, height, actual } => String::from_str(
                "expected ",
            ).concat(decimal_text(*expected as u64).as_str()).concat(" RGBA bytes for ").concat(
                decimal_text(*width as u64).as_str(),
            ).concat("x").concat(decimal_text(*height as u64).as_str()).concat(
                ", received ",
            ).concat(decimal_text(*actual as u64).as_str()),
            ImageError::Channel => String::from_str(
                "channel must be luma, red, green, blue, or min",
            ),
            ImageError::TargetTooSmall => String::from_str("resized image must be at least 21x21"),
            ImageError::Filter => String::from_str(
                "Photon filter must be nearest, triangle, catmull-rom, gaussian, or lanczos3",
            ),
            ImageError::AdaptiveWindow => String::from_str(
                "adaptive window must be between 3 and 255",
            ),
            ImageError::FusionFrames => String::from_str("fusion requires at least two frames"),
            ImageError::FusionSizes => String::from_str(
                "all fusion frames must have identical dimensions",
            ),
        }
    }
}

/// Why an image of these dimensions and bytes is refused, if it is.
pub open spec fn dimension_refusal(width: u32, height: u32, bytes: nat) -> Option<ImageError> {
    if width < 1 || height < 1 || width > MAX_SIDE || height > MAX_SIDE {
        Some(ImageError::Dimensions)
    } else if width * height > MAX_INPUT_PIXELS {
        Some(ImageError::PixelLimit)
    } else if bytes != 4 * (width * height) {
        Some(
            ImageError::ByteCount {
                expected: (4 * (width * height)) as usize,
                width,
                height,
                actual: bytes as usize,
            },
        )
    } else {
        None
    }
}

proof fn lemma_area(width: int, height: int)
    requires
        1 <= width <= 4096,
        1 <= height <= 4096,
    ensures
        1 <= width * height <= 16777216,
{
    assert(1 <= width * height <= 16777216) by (nonlinear_arith)
        requires
            1 <= width <= 4096,
            1 <= height <= 4096,
    ;
}

fn validate_dimensions(width: u32, height: u32, bytes: usize) -> (refusal: Option<ImageError>)
    ensures
        refusal == dimension_refusal(width, height, bytes as nat),
{
    if width < 1 || height < 1 || width > MAX_SIDE || height > MAX_SIDE {
        return Some(ImageError::Dimensions);
    }
    proof {
        lemma_area(width as int, height as int);
    }
    let pixels: usize = width as usize * height as usize;
    if pixels > MAX_INPUT_PIXELS {
        return Some(ImageError::PixelLimit);
    }
    if bytes != pixels * 4 {
        return Some(ImageError::ByteCount { expected: pixels * 4, width, height, actual: bytes });
    }
    None
}

/// An RGBA image.
pub ghost struct Picture {
    pub pixels: Seq<u8>,
    pub width: int,
    pub height: int,
}

/// The pictures that an image can hold.
pub open spec fn is_picture(picture: Picture) -> bool {
    &&& 1 <= picture.width <= 4096
    &&& 1 <= picture.height <= 4096
    &&& picture.pixels.len() == 4 * (picture.width * picture.height)
}

/// How many pixels a picture has.
pub open spec fn pixel_count(picture: Picture) -> int {
    picture.width * picture.height
}

/// The intensity of each pixel: that of its first channel.
pub open spec fn intensities(picture: Picture) -> Seq<u8> {
    Seq::new(pixel_count(picture) as nat, |k: int| picture.pixels[4 * k])
}

/// Opaque gray pixels with the given intensities.
pub open spec fn gray_rgba(values: Seq<u8>) -> Seq<u8> {
    Seq::new(
        4 * values.len(),
        |i: int|
            if i % 4 == 3 {
                255
            } else {
                values[i / 4]
            },
    )
}

/// The gray picture with the given intensities.
pub open spec fn gray_picture(values: Seq<u8>, width: int, height: int) -> Picture {
    Picture { pixels: gray_rgba(values), width, height }
}

/// The byte nearest to a number of kernel units, ties to even.
pub open spec fn clamped(value: int) -> u8 {
    if value <= 0 {
        0
    } else if value >= 255 * UNIT {
        255
    } else {
        let floor = value / UNIT as int;
        let rest = value % UNIT as int;
        (if 2 * rest > UNIT || (2 * rest == UNIT && floor % 2 == 1) {
            floor + 1
        } else {
            floor
        }) as u8
    }
}

/// Weighted brightness in double precision: 0.299 red, 0.587 green and 0.114
/// blue, in kernel units.
pub open spec fn luma_units(red: u8, green: u8, blue: u8) -> int {
    let d = DOUBLE as int;
    rounded(
        rounded(rounded(red * RED_WEIGHT, d) + rounded(green * GREEN_WEIGHT, d), d) + rounded(
            blue * BLUE_WEIGHT,
            d,
        ),
        d,
    )
}

/// The value of a pixel in a channel.
pub open spec fn channel_value(channel: Channel, red: u8, green: u8, blue: u8) -> u8 {
    match channel {
        Channel::Red => red,
        Channel::Green => green,
        Channel::Blue => blue,
        Channel::Min => if red <= green && red <= blue {
            red
        } else if green <= blue {
            green
        } else {
            blue
        },
        Channel::Luma => clamped(luma_units(red, green, blue)),
    }
}

/// The values of all pixels in a channel.
pub open spec fn channel_values(picture: Picture, channel: Channel) -> Seq<u8> {
    Seq::new(
        pixel_count(picture) as nat,
        |k: int|
            channel_value(
                channel,
                picture.pixels[4 * k],
                picture.pixels[4 * k + 1],
                picture.pixels[4 * k + 2],
            ),
    )
}

/// The channel that `text` names, if it names one.
pub open spec fn channel_named(text: Seq<char>) -> Option<Channel> {
    if text == "luma"@ {
        Some(Channel::Luma)
    } else if text == "red"@ {
        Some(Channel::Red)
    } else if text == "green"@ {
        Some(Channel::Green)
    } else if text == "blue"@ {
        Some(Channel::Blue)
    } else if text == "min"@ {
        Some(Channel::Min)
    } else {
        None
    }
}

/// How many of the first `n` values lie in `lo..=hi`.
pub open spec fn tally(values: Seq<u8>, lo: int, hi: int, n: int) -> int
    decreases n,
{
    if n <= 0 {
        0
    } else {
        tally(values, lo, hi, n - 1) + (if lo <= values[n - 1] <= hi {
            1int
        } else {
            0
        })
    }
}

/// The sum of those of the first `n` values that are at most `hi`.
pub open spec fn mass(values: Seq<u8>, hi: int, n: int) -> int
    decreases n,
{
    if n <= 0 {
        0
    } else {
        mass(values, hi, n - 1) + (if values[n - 1] <= hi {
            values[n - 1] as int
        } else {
            0
        })
    }
}

proof fn lemma_tally(values: Seq<u8>, lo: int, mid: int, hi: int, n: int)
    requires
        0 <= n <= values.len(),
        lo <= mid <= hi + 1,
    ensures
        tally(values, lo, mid - 1, n) + tally(values, mid, hi, n) == tally(values, lo, hi, n),
        0 <= tally(values, lo, hi, n) <= n,
    decreases n,
{
    if n > 0 {
        lemma_tally(values, lo, mid, hi, n - 1);
    }
}

proof fn lemma_tally_whole(values: Seq<u8>, n: int)
    requires
        0 <= n <= values.len(),
    ensures
        tally(values, 0, 255, n) == n,
    decreases n,
{
    if n > 0 {
        lemma_tally_whole(values, n - 1);
    }
}

proof fn lemma_tally_none(values: Seq<u8>, lo: int, hi: int, n: int)
    requires
        hi < lo || hi < 0,
        0 <= n <= values.len(),
    ensures
        tally(values, lo, hi, n) == 0,
    decreases n,
{
    if n > 0 {
        lemma_tally_none(values, lo, hi, n - 1);
    }
}

proof fn lemma_mass(values: Seq<u8>, hi: int, n: int)
    requires
        0 <= n <= values.len(),
        0 <= hi,
    ensures
        mass(values, hi, n) == mass(values, hi - 1, n) + hi * tally(values, hi, hi, n),
        0 <= mass(values, hi - 1, n) <= mass(values, hi, n) <= 255 * n,
        mass(values, hi, n) <= hi * tally(values, 0, hi, n),
    decreases n,
{
    if n > 0 {
        lemma_mass(values, hi, n - 1);
        let t = tally(values, hi, hi, n - 1);
        assert(hi * (t + 1) == hi * t + hi) by (nonlinear_arith);
        let u = tally(values, 0, hi, n - 1);
        assert(hi * (u + 1) == hi * u + hi) by (nonlinear_arith);
    } else {
        assert(hi * 0 == 0);
    }
}

proof fn lemma_mass_none(values: Seq<u8>, n: int)
    requires
        0 <= n <= values.len(),
    ensures
        mass(values, -1, n) == 0,
    decreases n,
{
    if n > 0 {
        lemma_mass_none(values, n - 1);
    }
}

proof fn lemma_mass_bound(values: Seq<u8>, l: int, n: int)
    requires
        0 <= n <= values.len(),
    ensures
        0 <= mass(values, l, n) <= mass(values, 255, n) <= 255 * n,
    decreases n,
{
    if n > 0 {
        lemma_mass_bound(values, l, n - 1);
    }
}

/// Counts how often each value occurs.
fn histogram_of(values: &Vec<u8>) -> (counts: Vec<usize>)
    requires
        values@.len() <= 16777216,
    ensures
        counts@.len() == 256,
        forall|v: int|
            0 <= v < 256 ==> #[trigger] counts@[v] == tally(values@, v, v, values@.len() as int),
{
    let mut counts: Vec<usize> = vec![0usize; 256];
    let mut n: usize = 0;
    while n < values.len()
        invariant
            values@.len() <= 16777216,
            n <= values@.len(),
            counts@.len() == 256,
            forall|v: int| 0 <= v < 256 ==> #[trigger] counts@[v] == tally(values@, v, v, n as int),
            forall|v: int| 0 <= v < 256 ==> #[trigger] counts@[v] <= n,
        decreases values@.len() - n,
    {
        let value: usize = values[n] as usize;
        let count: usize = counts[value];
        counts.set(value, count + 1);
        n += 1;
    }
    counts
}

/// The darkest level from `l` on up to which at least `tail` values lie.
pub open spec fn low_level(values: Seq<u8>, tail: int, l: int) -> int
    decreases 255 - l,
{
    if l >= 255 || tally(values, 0, l, values.len() as int) >= tail {
        l
    } else {
        low_level(values, tail, l + 1)
    }
}

/// The brightest level from `l` downwards from which at least `tail` values lie
/// up.
pub open spec fn high_level(values: Seq<u8>, tail: int, l: int) -> int
    decreases l,
{
    if l <= 0 || tally(values, l, 255, values.len() as int) >= tail {
        l
    } else {
        high_level(values, tail, l - 1)
    }
}

/// One hundredth of the pixels, at least one.
pub open spec fn tail_count(n: int) -> int {
    if n / 100 > 1 {
        n / 100
    } else {
        1
    }
}

/// An intensity after `low..high` was stretched over the whole range.
pub open spec fn stretched(value: u8, low: int, high: int) -> u8 {
    if value <= low {
        0
    } else {
        let factor = rounded_quotient(255 * UNIT, high - low, DOUBLE as int);
        clamped(rounded((value - low) * factor, DOUBLE as int))
    }
}

/// The picture after its contrast was stretched, the darkest and brightest
/// hundredth left out. A picture that hardly has any contrast stays as it is.
pub open spec fn contrasted(picture: Picture) -> Picture {
    let values = intensities(picture);
    let tail = tail_count(values.len() as int);
    let low = low_level(values, tail, 0);
    let high = high_level(values, tail, 255);
    if high <= low + 4 {
        picture
    } else {
        gray_picture(
            Seq::new(values.len(), |k: int| stretched(values[k], low, high)),
            picture.width,
            picture.height,
        )
    }
}

/// Whether splitting the values at `level` leaves both sides something.
pub open spec fn splits(values: Seq<u8>, level: int) -> bool {
    0 < tally(values, 0, level, values.len() as int) < values.len()
}

/// The variance between the two sides of a split.
pub open spec fn split_variance(values: Seq<u8>, level: int) -> int {
    let n = values.len() as int;
    let (dark, weight) = (mass(values, level, n), tally(values, 0, level, n));
    between_variance(dark, weight, mass(values, 255, n) - dark, n - weight)
}

/// Whether the variance between the sides is larger for a split at `a` than for
/// one at `b`.
pub open spec fn separates_more(values: Seq<u8>, a: int, b: int) -> bool {
    split_variance(values, a) > split_variance(values, b)
}

/// The first of the levels below `n` that separates the values most.
pub open spec fn best_split(values: Seq<u8>, n: int) -> Option<int>
    decreases n,
{
    if n <= 0 {
        None
    } else {
        let before = best_split(values, n - 1);
        if !splits(values, n - 1) {
            before
        } else {
            match before {
                None => Some(n - 1),
                Some(level) => if separates_more(values, n - 1, level) {
                    Some(n - 1)
                } else {
                    before
                },
            }
        }
    }
}

/// Otsu's level: the first that separates the values most, or 127 if all values
/// are equal.
pub open spec fn otsu_split(values: Seq<u8>) -> int {
    match best_split(values, 256) {
        Some(level) => level,
        None => 127,
    }
}

/// A coordinate moved into `0..size`.
pub open spec fn inside(t: int, size: int) -> int {
    if t < 0 {
        0
    } else if t >= size {
        size - 1
    } else {
        t
    }
}

/// The intensity at a position, that of the nearest pixel outside the picture.
pub open spec fn sample(values: Seq<u8>, width: int, height: int, x: int, y: int) -> int {
    values[inside(y, height) * width + inside(x, width)] as int
}

/// Sixteen times the blurred intensity: neighbours count 1, 2 and 4.
pub open spec fn blurred(values: Seq<u8>, width: int, height: int, x: int, y: int) -> int {
    sample(values, width, height, x - 1, y - 1) + 2 * sample(values, width, height, x, y - 1)
        + sample(values, width, height, x + 1, y - 1) + 2 * sample(
        values,
        width,
        height,
        x - 1,
        y,
    ) + 4 * sample(values, width, height, x, y) + 2 * sample(values, width, height, x + 1, y)
        + sample(values, width, height, x - 1, y + 1) + 2 * sample(values, width, height, x, y + 1)
        + sample(values, width, height, x + 1, y + 1)
}

/// An intensity moved away from its surroundings, whose sixteenfold is
/// `surroundings`. The amount counts units of 2^-52.
pub open spec fn sharpened(original: int, surroundings: int, amount: int) -> u8 {
    clamped(
        rounded_signed(original * UNIT + rounded_signed(amount * (16 * original - surroundings))),
    )
}

/// The intensities of a sharpened picture.
pub open spec fn sharpened_values(values: Seq<u8>, width: int, height: int, amount: int) -> Seq<
    u8,
> {
    Seq::new(
        values.len(),
        |k: int|
            sharpened(
                values[k] as int,
                blurred(values, width, height, k % width, k / width),
                amount,
            ),
    )
}

/// The sum over columns `x0..x1` of row `y`.
pub open spec fn row_sum(values: Seq<u8>, width: int, y: int, x0: int, x1: int) -> int
    decreases x1 - x0,
{
    if x1 <= x0 {
        0
    } else {
        row_sum(values, width, y, x0, x1 - 1) + values[y * width + x1 - 1]
    }
}

/// The sum over columns `x0..x1` of rows `y0..y1`.
pub open spec fn area_sum(
    values: Seq<u8>,
    width: int,
    x0: int,
    x1: int,
    y0: int,
    y1: int,
) -> int
    decreases y1 - y0,
{
    if y1 <= y0 {
        0
    } else {
        area_sum(values, width, x0, x1, y0, y1 - 1) + row_sum(values, width, y1 - 1, x0, x1)
    }
}

/// The start of a window around `t`.
pub open spec fn window_start(t: int, radius: int) -> int {
    if t < radius {
        0
    } else {
        t - radius
    }
}

/// The end of a window around `t`.
pub open spec fn window_end(t: int, radius: int, size: int) -> int {
    if t + radius + 1 < size {
        t + radius + 1
    } else {
        size
    }
}

/// Black if the intensity is at most the mean of the window around it less the
/// bias, else white. The bias counts units of 1/1024.
pub open spec fn adaptive_value(
    values: Seq<u8>,
    width: int,
    height: int,
    radius: int,
    bias: int,
    x: int,
    y: int,
) -> u8 {
    let (left, right) = (window_start(x, radius), window_end(x, radius, width));
    let (top, bottom) = (window_start(y, radius), window_end(y, radius, height));
    let area = (right - left) * (bottom - top);
    if (1024 * values[y * width + x] + bias) * area <= 1024 * area_sum(
        values,
        width,
        left,
        right,
        top,
        bottom,
    ) {
        0
    } else {
        255
    }
}

/// The radius of an adaptive window.
pub open spec fn window_radius(window: int) -> int {
    window / 2
}

/// The intensities after adaptive thresholding.
pub open spec fn adaptive_values(
    values: Seq<u8>,
    width: int,
    height: int,
    radius: int,
    bias: int,
) -> Seq<u8> {
    Seq::new(
        values.len(),
        |k: int| adaptive_value(values, width, height, radius, bias, k % width, k / width),
    )
}

/// Photon's brightness in single precision, in units of 2^-32: 0.2126 red,
/// 0.7152 green and 0.072 blue.
pub open spec fn photon_luminance(red: u8, green: u8, blue: u8) -> int {
    let single = 16777216int;
    rounded(
        rounded(
            rounded(red * 913110016, single) + rounded(green * 3071760640, single),
            single,
        ) + rounded(blue * 309237632, single),
        single,
    )
}

/// Photon's threshold: color channels become white where the brightness reaches
/// `cut`, else black; alpha stays.
pub open spec fn photon_thresholded(pixels: Seq<u8>, cut: int) -> Seq<u8> {
    Seq::new(
        pixels.len(),
        |i: int|
            if i % 4 == 3 {
                pixels[i]
            } else if photon_luminance(
                pixels[i - i % 4],
                pixels[i - i % 4 + 1],
                pixels[i - i % 4 + 2],
            ) >= cut * 4294967296 {
                255
            } else {
                0
            },
    )
}

/// Photon's inversion: color channels are inverted, alpha stays.
pub open spec fn photon_inverted(pixels: Seq<u8>) -> Seq<u8> {
    Seq::new(
        pixels.len(),
        |i: int|
            if i % 4 == 3 {
                pixels[i]
            } else {
                (255 - pixels[i]) as u8
            },
    )
}

/// Gray values up to `level` turned black. Photon turns gray values up to its cut
/// black, except for the cut 0; level 0 is thresholded on the inverted picture.
pub open spec fn gray_thresholded(pixels: Seq<u8>, level: int) -> Seq<u8> {
    if level >= 1 {
        photon_thresholded(pixels, level)
    } else {
        photon_inverted(photon_thresholded(photon_inverted(pixels), 254))
    }
}

/// Whether the pixel that a byte belongs to is gray.
pub open spec fn is_gray_pixel(pixels: Seq<u8>, i: int) -> bool {
    pixels[i - i % 4] == pixels[i - i % 4 + 1] && pixels[i - i % 4 + 1] == pixels[i - i % 4 + 2]
}

/// Black where a value is at most `level`: gray pixels by their value, others
/// where Photon's brightness does not reach the next level.
pub open spec fn level_thresholded(pixels: Seq<u8>, level: int) -> Seq<u8> {
    Seq::new(
        pixels.len(),
        |i: int|
            if is_gray_pixel(pixels, i) {
                gray_thresholded(pixels, level)[i]
            } else {
                photon_thresholded(pixels, level + 1)[i]
            },
    )
}

/// Calls `photon_rs::monochrome::threshold`. Claimed: every color channel of a
/// pixel becomes 255 where the single-precision brightness reaches the cut, and
/// 0 elsewhere, and alpha is kept.
#[verifier::external_body]
fn photon_threshold_pixels(pixels: &Vec<u8>, width: u32, height: u32, cut: u32) -> (result: Vec<u8>)
    requires
        pixels@.len() == 4 * (width * height),
        cut <= 256,
    ensures
        result@ == photon_thresholded(pixels@, cut as int),
{
    let mut image = photon_rs::PhotonImage::new(pixels.clone(), width, height);
    photon_rs::monochrome::threshold(&mut image, cut);
    image.get_raw_pixels()
}

/// Calls `photon_rs::channels::invert`. Claimed: every color channel becomes 255
/// less its value, and alpha is kept.
#[verifier::external_body]
fn photon_invert_pixels(pixels: &Vec<u8>, width: u32, height: u32) -> (result: Vec<u8>)
    requires
        pixels@.len() == 4 * (width * height),
    ensures
        result@ == photon_inverted(pixels@),
{
    let mut image = photon_rs::PhotonImage::new(pixels.clone(), width, height);
    photon_rs::channels::invert(&mut image);
    image.get_raw_pixels()
}

/// The resampling filters of Photon.
#[derive(Clone, Copy, Debug, PartialEq, Eq, Structural)]
pub enum ResizeFilter {
    Nearest,
    Triangle,
    CatmullRom,
    Gaussian,
    Lanczos3,
}

/// The filter that `text` names, if it names one.
pub open spec fn filter_named(text: Seq<char>) -> Option<ResizeFilter> {
    if text == "nearest"@ {
        Some(ResizeFilter::Nearest)
    } else if text == "triangle"@ {
        Some(ResizeFilter::Triangle)
    } else if text == "catmull-rom"@ {
        Some(ResizeFilter::CatmullRom)
    } else if text == "gaussian"@ {
        Some(ResizeFilter::Gaussian)
    } else if text == "lanczos3"@ {
        Some(ResizeFilter::Lanczos3)
    } else {
        None
    }
}

fn resize_filter_named(text: &str) -> (filter: Option<ResizeFilter>)
    ensures
        filter == filter_named(text@),
{
    let text: String = String::from_str(text);
    if text == String::from_str("nearest") {
        Some(ResizeFilter::Nearest)
    } else if text == String::from_str("triangle") {
        Some(ResizeFilter::Triangle)
    } else if text == String::from_str("catmull-rom") {
        Some(ResizeFilter::CatmullRom)
    } else if text == String::from_str("gaussian") {
        Some(ResizeFilter::Gaussian)
    } else if text == String::from_str("lanczos3") {
        Some(ResizeFilter::Lanczos3)
    } else {
        None
    }
}

/// Whether a size is a whole multiple of another, each way by itself.
pub open spec fn enlarges(width: int, height: int, target_width: int, target_height: int) -> bool {
    target_width % width == 0 && target_height % height == 0
}

/// Pixels enlarged by whole factors, every pixel becoming a block.
pub open spec fn enlarged(
    pixels: Seq<u8>,
    width: int,
    height: int,
    target_width: int,
    target_height: int,
) -> Seq<u8> {
    Seq::new(
        (4 * (target_width * target_height)) as nat,
        |k: int|
            {
                let x = (k / 4) % target_width / (target_width / width);
                let y = (k / 4) / target_width / (target_height / height);
                pixels[4 * (y * width + x) + k % 4]
            },
    )
}

/// The pixels that `photon_rs::transform::resize` gives with its nearest filter
/// or its triangle filter.
pub uninterp spec fn photon_resized(
    pixels: Seq<u8>,
    width: int,
    height: int,
    target_width: int,
    target_height: int,
    triangle: bool,
) -> Seq<u8>;

/// Whether a picture is what Photon was asked to make of another one: the source's
/// pixels and size, the result's size and the filter were handed to it, and these
/// are the pixels that it gave.
pub closed spec fn is_photon_resize(
    result: Picture,
    source: Picture,
    filter: ResizeFilter,
) -> bool {
    exists|given: Vec<u8>, got: Vec<u8>|
        given@ == source.pixels && got@ == result.pixels && #[trigger] call_ensures(
            photon_resize_pixels,
            (
                &given,
                (source.width as u32, source.height as u32),
                (result.width as u32, result.height as u32),
                filter,
            ),
            got,
        )
}

/// What is known of a resized picture.
pub open spec fn is_resized(result: Picture, source: Picture, filter: ResizeFilter) -> bool {
    &&& is_photon_resize(result, source, filter)
    &&& result.width == source.width && result.height == source.height ==> result.pixels
        == source.pixels
    &&& filter == ResizeFilter::Nearest && enlarges(
        source.width,
        source.height,
        result.width,
        result.height,
    ) ==> result.pixels == enlarged(
        source.pixels,
        source.width,
        source.height,
        result.width,
        result.height,
    )
    &&& filter == ResizeFilter::Nearest || filter == ResizeFilter::Triangle ==> result.pixels
        == photon_resized(
        source.pixels,
        source.width,
        source.height,
        result.width,
        result.height,
        filter == ResizeFilter::Triangle,
    )
}

/// Calls `photon_rs::transform::resize`. Claimed: the result has four bytes per
/// pixel of the new size; the same size leaves the pixels as they are; the
/// nearest filter turns pixels into blocks where it enlarges by whole factors;
/// and what the nearest and the triangle filter give depends on the arguments
/// alone. Not claimed are the values that the other filters give: their weights
/// come from powers, exponentials and sines, whose last bits differ between
/// machines.
#[verifier::external_body]
fn photon_resize_pixels(
    pixels: &Vec<u8>,
    size: (u32, u32),
    target: (u32, u32),
    filter: ResizeFilter,
) -> (result: Vec<u8>)
    requires
        1 <= size.0 <= 4096,
        1 <= size.1 <= 4096,
        pixels@.len() == 4 * (size.0 * size.1),
        1 <= target.0 <= 4096,
        1 <= target.1 <= 4096,
    ensures
        result@.len() == 4 * (target.0 * target.1),
        size == target ==> result@ == pixels@,
        filter == ResizeFilter::Nearest && enlarges(
            size.0 as int,
            size.1 as int,
            target.0 as int,
            target.1 as int,
        ) ==> result@ == enlarged(
            pixels@,
            size.0 as int,
            size.1 as int,
            target.0 as int,
            target.1 as int,
        ),
        filter == ResizeFilter::Nearest || filter == ResizeFilter::Triangle ==> result@
            == photon_resized(
            pixels@,
            size.0 as int,
            size.1 as int,
            target.0 as int,
            target.1 as int,
            filter == ResizeFilter::Triangle,
        ),
{
    let image = photon_rs::PhotonImage::new(pixels.clone(), size.0, size.1);
    let filter = match filter {
        ResizeFilter::Nearest => photon_rs::transform::SamplingFilter::Nearest,
        ResizeFilter::Triangle => photon_rs::transform::SamplingFilter::Triangle,
        ResizeFilter::CatmullRom => photon_rs::transform::SamplingFilter::CatmullRom,
        ResizeFilter::Gaussian => photon_rs::transform::SamplingFilter::Gaussian,
        ResizeFilter::Lanczos3 => photon_rs::transform::SamplingFilter::Lanczos3,
    };
    photon_rs::transform::resize(&image, target.0, target.1, filter).get_raw_pixels()
}

/// An RGBA image with four bytes per pixel.
#[derive(Debug)]
pub struct WasmImage {
    pixels: Vec<u8>,
    width: u32,
    height: u32,
}

impl View for WasmImage {
    type V = Picture;

    closed spec fn view(&self) -> Picture {
        Picture { pixels: self.pixels@, width: self.width as int, height: self.height as int }
    }
}

fn clamp_units(value: u128) -> (byte: u8)
    ensures
        byte == clamped(value as int),
{
    if value == 0 {
        0
    } else if value >= 255 * UNIT {
        255
    } else {
        let floor: u128 = value / UNIT;
        let rest: u128 = value % UNIT;
        assert(floor < 255) by (nonlinear_arith)
            requires
                value < 255 * 72057594037927936,
                floor == value / 72057594037927936,
        ;
        if 2 * rest > UNIT || (2 * rest == UNIT && floor % 2 == 1) {
            (floor + 1) as u8
        } else {
            floor as u8
        }
    }
}

pub(crate) fn luma_units_of(red: u8, green: u8, blue: u8) -> (units: u128)
    ensures
        units == luma_units(red, green, blue),
        units <= 0xffff_ffff_ffff_ffff_ffff,
{
    assert(red * RED_WEIGHT <= 255 * RED_WEIGHT && 0 <= red * RED_WEIGHT) by (nonlinear_arith)
        requires
            0 <= red <= 255,
            RED_WEIGHT == 21545220617340452,
    ;
    assert(green * GREEN_WEIGHT <= 255 * GREEN_WEIGHT && 0 <= green * GREEN_WEIGHT)
        by (nonlinear_arith)
        requires
            0 <= green <= 255,
            GREEN_WEIGHT == 42297807700263696,
    ;
    assert(blue * BLUE_WEIGHT <= 255 * BLUE_WEIGHT && 0 <= blue * BLUE_WEIGHT) by (nonlinear_arith)
        requires
            0 <= blue <= 255,
            BLUE_WEIGHT == 8214565720323785,
    ;
    let reds: u128 = round_to(red as u128 * RED_WEIGHT, DOUBLE);
    let greens: u128 = round_to(green as u128 * GREEN_WEIGHT, DOUBLE);
    let blues: u128 = round_to(blue as u128 * BLUE_WEIGHT, DOUBLE);
    round_to(round_to(reds + greens, DOUBLE) + blues, DOUBLE)
}

fn channel_value_of(channel: Channel, red: u8, green: u8, blue: u8) -> (value: u8)
    ensures
        value == channel_value(channel, red, green, blue),
{
    match channel {
        Channel::Red => red,
        Channel::Green => green,
        Channel::Blue => blue,
        Channel::Min => if red <= green && red <= blue {
            red
        } else if green <= blue {
            green
        } else {
            blue
        },
        Channel::Luma => clamp_units(luma_units_of(red, green, blue)),
    }
}

fn channel_of_name(text: &str) -> (channel: Option<Channel>)
    ensures
        channel == channel_named(text@),
{
    let text: String = String::from_str(text);
    if text == String::from_str("luma") {
        Some(Channel::Luma)
    } else if text == String::from_str("red") {
        Some(Channel::Red)
    } else if text == String::from_str("green") {
        Some(Channel::Green)
    } else if text == String::from_str("blue") {
        Some(Channel::Blue)
    } else if text == String::from_str("min") {
        Some(Channel::Min)
    } else {
        None
    }
}

/// Opaque gray pixels with the given intensities.
pub fn gray_pixels(values: &Vec<u8>) -> (pixels: Vec<u8>)
    requires
        4 * values@.len() <= usize::MAX,
    ensures
        pixels@ == gray_rgba(values@),
{
    let mut pixels: Vec<u8> = Vec::new();
    let mut k: usize = 0;
    while k < values.len()
        invariant
            4 * values@.len() <= usize::MAX,
            k <= values@.len(),
            pixels@ == gray_rgba(values@).take(4 * k),
        decreases values@.len() - k,
    {
        let value: u8 = values[k];
        pixels.push(value);
        pixels.push(value);
        pixels.push(value);
        pixels.push(255);
        k += 1;
        assert(pixels@ =~= gray_rgba(values@).take(4 * k));
    }
    assert(gray_rgba(values@).take(4 * k) =~= gray_rgba(values@));
    pixels
}

pub(crate) proof fn lemma_place(width: int, height: int, x: int, y: int)
    requires
        0 <= x < width,
        0 <= y < height,
    ensures
        0 <= y * width <= y * width + x < width * height,
        (y * width + x) % width == x,
        (y * width + x) / width == y,
{
    assert(0 <= y * width && y * width + x < width * height) by (nonlinear_arith)
        requires
            0 <= x < width,
            0 <= y < height,
    ;
    vstd::arithmetic::div_mod::lemma_fundamental_div_mod_converse(y * width + x, width, y, x);
}

proof fn lemma_row_split(values: Seq<u8>, width: int, y: int, x0: int, x1: int, x2: int)
    requires
        x0 <= x1 <= x2,
    ensures
        row_sum(values, width, y, x0, x2) == row_sum(values, width, y, x0, x1) + row_sum(
            values,
            width,
            y,
            x1,
            x2,
        ),
    decreases x2 - x1,
{
    if x1 < x2 {
        lemma_row_split(values, width, y, x0, x1, x2 - 1);
    }
}

proof fn lemma_area_columns(
    values: Seq<u8>,
    width: int,
    x0: int,
    x1: int,
    x2: int,
    y0: int,
    y1: int,
)
    requires
        x0 <= x1 <= x2,
    ensures
        area_sum(values, width, x0, x2, y0, y1) == area_sum(values, width, x0, x1, y0, y1)
            + area_sum(values, width, x1, x2, y0, y1),
    decreases y1 - y0,
{
    if y0 < y1 {
        lemma_area_columns(values, width, x0, x1, x2, y0, y1 - 1);
        lemma_row_split(values, width, y1 - 1, x0, x1, x2);
    }
}

proof fn lemma_area_rows(
    values: Seq<u8>,
    width: int,
    x0: int,
    x1: int,
    y0: int,
    y1: int,
    y2: int,
)
    requires
        y0 <= y1 <= y2,
    ensures
        area_sum(values, width, x0, x1, y0, y2) == area_sum(values, width, x0, x1, y0, y1)
            + area_sum(values, width, x0, x1, y1, y2),
    decreases y2 - y1,
{
    if y1 < y2 {
        lemma_area_rows(values, width, x0, x1, y0, y1, y2 - 1);
    }
}

proof fn lemma_row_bound(values: Seq<u8>, width: int, y: int, x0: int, x1: int)
    requires
        x0 <= x1,
    ensures
        0 <= row_sum(values, width, y, x0, x1) <= 255 * (x1 - x0),
    decreases x1 - x0,
{
    if x0 < x1 {
        lemma_row_bound(values, width, y, x0, x1 - 1);
    }
}

proof fn lemma_area_bound(values: Seq<u8>, width: int, x0: int, x1: int, y0: int, y1: int)
    requires
        x0 <= x1 <= x0 + 4096,
        y0 <= y1,
    ensures
        0 <= area_sum(values, width, x0, x1, y0, y1) <= 1044480 * (y1 - y0),
    decreases y1 - y0,
{
    if y0 < y1 {
        lemma_area_bound(values, width, x0, x1, y0, y1 - 1);
        lemma_row_bound(values, width, y1 - 1, x0, x1);
    }
}

/// Sums over all areas that start in the upper left corner, row by row.
fn corner_sums(values: &Vec<u8>, width: usize, height: usize) -> (sums: Vec<u64>)
    requires
        1 <= width <= 4096,
        1 <= height <= 4096,
        values@.len() == width * height,
    ensures
        sums@.len() == (width + 1) * (height + 1),
        forall|x: int, y: int|
            0 <= x <= width && 0 <= y <= height ==> #[trigger] sums@[y * (width + 1) + x]
                == area_sum(values@, width as int, 0, x, 0, y),
{
    let mut sums: Vec<u64> = Vec::new();
    let columns: usize = width + 1;
    let mut x: usize = 0;
    while x < columns
        invariant
            columns == width + 1,
            1 <= width <= 4096,
            x <= columns,
            sums@.len() == x,
            forall|i: int| 0 <= i < x ==> #[trigger] sums@[i] == 0,
        decreases columns - x,
    {
        sums.push(0);
        x += 1;
    }
    let mut y: usize = 0;
    proof {
        assert(1 * columns == columns);
        assert forall|i: int| 0 <= i < sums@.len() implies #[trigger] sums@[i] == area_sum(
            values@,
            width as int,
            0,
            i % (columns as int),
            0,
            i / (columns as int),
        ) by {
            lemma_place(columns as int, 1, i, 0);
            assert(0 * columns + i == i);
        }
    }
    while y < height
        invariant
            columns == width + 1,
            1 <= width <= 4096,
            1 <= height <= 4096,
            values@.len() == width * height,
            y <= height,
            sums@.len() == (y + 1) * columns,
            forall|i: int|
                0 <= i < sums@.len() ==> #[trigger] sums@[i] == area_sum(
                    values@,
                    width as int,
                    0,
                    i % (columns as int),
                    0,
                    i / (columns as int),
                ),
        decreases height - y,
    {
        proof {
            assert((y + 2) * columns == (y + 1) * columns + columns) by (nonlinear_arith);
            lemma_place(columns as int, height + 2, 0, y + 1);
            assert(y + 1 + 1 == y + 2);
        }
        sums.push(0);
        proof {
            let i = (y + 1) * columns;
            lemma_area_empty(values@, width as int, 0, y + 1);
        }
        let mut row: u64 = 0;
        let mut x: usize = 0;
        while x < width
            invariant
                columns == width + 1,
                1 <= width <= 4096,
                1 <= height <= 4096,
                values@.len() == width * height,
                y < height,
                x <= width,
                sums@.len() == (y + 1) * columns + x + 1,
                row == row_sum(values@, width as int, y as int, 0, x as int),
                forall|i: int|
                    0 <= i < sums@.len() ==> #[trigger] sums@[i] == area_sum(
                        values@,
                        width as int,
                        0,
                        i % (columns as int),
                        0,
                        i / (columns as int),
                    ),
            decreases width - x,
        {
            proof {
                lemma_place(width as int, height as int, x as int, y as int);
                lemma_area(width as int, height as int);
                lemma_place(columns as int, height + 2, x + 1, y as int);
                lemma_place(columns as int, height + 2, x + 1, y + 1);
                assert((y + 1) * columns == y * columns + columns) by (nonlinear_arith);
                lemma_row_bound(values@, width as int, y as int, 0, x as int);
                lemma_row_bound(values@, width as int, y as int, 0, x + 1);
                lemma_area_bound(values@, width as int, 0, x + 1, 0, y as int);
                assert(columns * (height + 2) <= 4097 * 4098) by (nonlinear_arith)
                    requires
                        0 <= columns <= 4097,
                        0 <= height + 2 <= 4098,
                ;
            }
            row += values[y * width + x] as u64;
            let above: u64 = sums[y * columns + x + 1];
            sums.push(above + row);
            x += 1;
        }
        y += 1;
    }
    proof {
        assert forall|x: int, y: int|
            0 <= x <= width && 0 <= y <= height implies #[trigger] sums@[y * (width + 1) + x]
            == area_sum(values@, width as int, 0, x, 0, y) by {
            lemma_place(columns as int, height + 1, x, y);
            assert(columns * (height + 1) == (height + 1) * columns) by (nonlinear_arith);
        }
        assert((height + 1) * columns == (width + 1) * (height + 1)) by (nonlinear_arith)
            requires
                columns == width + 1,
        ;
    }
    sums
}

proof fn lemma_area_empty(values: Seq<u8>, width: int, y0: int, y1: int)
    ensures
        area_sum(values, width, 0, 0, y0, y1) == 0,
    decreases y1 - y0,
{
    if y0 < y1 {
        lemma_area_empty(values, width, y0, y1 - 1);
    }
}

impl WasmImage {
    #[verifier::type_invariant]
    spec fn wf(self) -> bool {
        &&& 1 <= self.width <= 4096
        &&& 1 <= self.height <= 4096
        &&& self.pixels@.len() == 4 * (self.width * self.height)
    }

    /// An image of the given pixels.
    pub fn new(pixels: &[u8], width: u32, height: u32) -> (image: Result<WasmImage, ImageError>)
        ensures
            match dimension_refusal(width, height, pixels@.len()) {
                Some(error) => image is Err && image->Err_0 == error,
                None => image is Ok && image->Ok_0@ == (Picture {
                    pixels: pixels@,
                    width: width as int,
                    height: height as int,
                }) && is_picture(image->Ok_0@),
            },
    {
        match validate_dimensions(width, height, pixels.len()) {
            Some(error) => Err(error),
            None => Ok(WasmImage { pixels: copy_bytes(pixels), width, height }),
        }
    }

    /// The opaque gray image with the given intensities.
    pub fn from_gray(values: &Vec<u8>, width: u32, height: u32) -> (image: WasmImage)
        requires
            1 <= width <= 4096,
            1 <= height <= 4096,
            values@.len() == width * height,
        ensures
            image@ == gray_picture(values@, width as int, height as int),
            is_picture(image@),
    {
        proof {
            lemma_area(width as int, height as int);
        }
        WasmImage { pixels: gray_pixels(values), width, height }
    }

    /// Pixels per row.
    pub fn width(&self) -> (width: u32)
        ensures
            width == self@.width,
            1 <= width <= 4096,
    {
        proof {
            use_type_invariant(self);
        }
        self.width
    }

    /// Rows.
    pub fn height(&self) -> (height: u32)
        ensures
            height == self@.height,
            1 <= height <= 4096,
    {
        proof {
            use_type_invariant(self);
        }
        self.height
    }

    /// A copy of the pixels.
    pub fn pixels(&self) -> (pixels: Vec<u8>)
        ensures
            pixels@ == self@.pixels,
            is_picture(self@),
    {
        proof {
            use_type_invariant(self);
        }
        copy_bytes(self.pixels.as_slice())
    }

    /// A copy of the image.
    pub fn copy(&self) -> (copied: WasmImage)
        ensures
            copied@ == self@,
            is_picture(copied@),
    {
        proof {
            use_type_invariant(self);
        }
        WasmImage {
            pixels: copy_bytes(self.pixels.as_slice()),
            width: self.width,
            height: self.height,
        }
    }

    /// The intensity of each pixel.
    pub fn gray_values(&self) -> (values: Vec<u8>)
        ensures
            values@ == intensities(self@),
            is_picture(self@),
            values@.len() == self@.width * self@.height,
            1 <= values@.len() <= 16777216,
    {
        proof {
            use_type_invariant(self);
            lemma_area(self.width as int, self.height as int);
        }
        let count: usize = self.width as usize * self.height as usize;
        let mut values: Vec<u8> = Vec::new();
        let mut k: usize = 0;
        while k < count
            invariant
                self.wf(),
                count == self.width * self.height,
                count <= 16777216,
                k <= count,
                values@ == intensities(self@).take(k as int),
            decreases count - k,
        {
            values.push(self.pixels[4 * k]);
            k += 1;
            assert(values@ =~= intensities(self@).take(k as int));
        }
        assert(intensities(self@).take(k as int) =~= intensities(self@));
        values
    }

    pub(crate) fn gray_channel(&self, channel: Channel) -> (gray: WasmImage)
        ensures
            gray@ == gray_picture(channel_values(self@, channel), self@.width, self@.height),
            is_picture(gray@),
            is_picture(self@),
    {
        proof {
            use_type_invariant(self);
            lemma_area(self.width as int, self.height as int);
        }
        let count: usize = self.width as usize * self.height as usize;
        let mut values: Vec<u8> = Vec::new();
        let mut k: usize = 0;
        while k < count
            invariant
                self.wf(),
                count == self.width * self.height,
                count <= 16777216,
                k <= count,
                values@ == channel_values(self@, channel).take(k as int),
            decreases count - k,
        {
            values.push(
                channel_value_of(
                    channel,
                    self.pixels[4 * k],
                    self.pixels[4 * k + 1],
                    self.pixels[4 * k + 2],
                ),
            );
            k += 1;
            assert(values@ =~= channel_values(self@, channel).take(k as int));
        }
        assert(values@ =~= channel_values(self@, channel));
        WasmImage::from_gray(&values, self.width, self.height)
    }

    /// The gray image of one channel.
    pub fn grayscale(&self, channel: &str) -> (gray: Result<WasmImage, ImageError>)
        ensures
            match channel_named(channel@) {
                Some(channel) => gray is Ok && gray->Ok_0@ == gray_picture(
                    channel_values(self@, channel),
                    self@.width,
                    self@.height,
                ) && is_picture(gray->Ok_0@),
                None => gray is Err && gray->Err_0 == ImageError::Channel,
            },
    {
        match channel_of_name(channel) {
            Some(channel) => Ok(self.gray_channel(channel)),
            None => Err(ImageError::Channel),
        }
    }

    /// Resizes to the given size with Photon's image-rs-backed samplers.
    pub fn photon_resize(&self, width: u32, height: u32, filter: &str) -> (resized: Result<
        WasmImage,
        ImageError,
    >)
        ensures
            match target_refusal(width, height) {
                Some(error) => resized is Err && resized->Err_0 == error,
                None => if filter_named(filter@) is None {
                    resized is Err && resized->Err_0 == ImageError::Filter
                } else {
                    resized is Ok && resized->Ok_0@.width == width && resized->Ok_0@.height
                        == height && is_picture(resized->Ok_0@) && is_resized(
                        resized->Ok_0@,
                        self@,
                        filter_named(filter@)->Some_0,
                    )
                },
            },
    {
        proof {
            use_type_invariant(self);
        }
        if let Some(error) = check_target(width, height) {
            return Err(error);
        }
        match resize_filter_named(filter) {
            Some(filter) => {
                let pixels: Vec<u8> = photon_resize_pixels(
                    &self.pixels,
                    (self.width, self.height),
                    (width, height),
                    filter,
                );
                assert(call_ensures(
                    photon_resize_pixels,
                    (&self.pixels, (self.width, self.height), (width, height), filter),
                    pixels,
                ));
                Ok(WasmImage { pixels, width, height })
            },
            None => Err(ImageError::Filter),
        }
    }

    /// Stretches the contrast, the darkest and brightest hundredth left out.
    pub fn auto_contrast(&self) -> (result: WasmImage)
        ensures
            result@ == contrasted(self@),
            is_picture(result@),
    {
        proof {
            use_type_invariant(self);
        }
        let values: Vec<u8> = self.gray_values();
        let counts: Vec<usize> = histogram_of(&values);
        let n: usize = values.len();
        let tail: usize = if n / 100 > 1 {
            n / 100
        } else {
            1
        };
        let ghost all = values@;
        let mut low: usize = 0;
        let mut passed: usize = 0;
        proof {
            lemma_tally_none(all, 0, -1, n as int);
            lemma_tally(all, 0, 0, 0, n as int);
        }
        while low < 255 && passed + counts[low] < tail
            invariant
                all == values@,
                n == all.len() <= 16777216,
                counts@.len() == 256,
                forall|v: int| 0 <= v < 256 ==> #[trigger] counts@[v] == tally(all, v, v, n as int),
                low <= 255,
                passed == tally(all, 0, low - 1, n as int),
                passed <= n,
                passed + counts@[low as int] == tally(all, 0, low as int, n as int),
                counts@[low as int] <= n,
                low_level(all, tail as int, 0) == low_level(all, tail as int, low as int),
            decreases 255 - low,
        {
            proof {
                lemma_tally(all, 0, low as int, low as int, n as int);
                lemma_tally(all, 0, low + 1, low + 1, n as int);
                lemma_tally(all, low + 1, low + 1, low + 1, n as int);
            }
            passed += counts[low];
            low += 1;
        }
        let mut high: usize = 255;
        let mut above: usize = 0;
        proof {
            lemma_tally_none(all, 256, 255, n as int);
            lemma_tally(all, 255, 256, 255, n as int);
            lemma_tally(all, 255, 255, 255, n as int);
        }
        while high > 0 && above + counts[high] < tail
            invariant
                all == values@,
                n == all.len() <= 16777216,
                counts@.len() == 256,
                forall|v: int| 0 <= v < 256 ==> #[trigger] counts@[v] == tally(all, v, v, n as int),
                high <= 255,
                above == tally(all, high + 1, 255, n as int),
                above <= n,
                above + counts@[high as int] == tally(all, high as int, 255, n as int),
                counts@[high as int] <= n,
                high_level(all, tail as int, 255) == high_level(all, tail as int, high as int),
            decreases high,
        {
            proof {
                lemma_tally(all, high as int, high + 1, 255, n as int);
                lemma_tally(all, high - 1, high as int, 255, n as int);
                lemma_tally(all, high - 1, high - 1, high - 1, n as int);
            }
            above += counts[high];
            high -= 1;
        }
        if high <= low + 4 {
            return self.copy();
        }
        proof {
            lemma_levels(all, tail as int, 0, 255);
        }
        let spread: u128 = (high - low) as u128;
        let factor: u128 = round_quotient(255 * UNIT, spread, DOUBLE);
        let mut stretch: Vec<u8> = Vec::new();
        let ghost target = Seq::new(all.len(), |k: int| stretched(all[k], low as int, high as int));
        let mut k: usize = 0;
        while k < n
            invariant
                all == values@,
                n == all.len(),
                low <= 255,
                spread == high - low,
                factor == rounded_quotient(255 * UNIT, spread as int, DOUBLE as int),
                factor <= 510 * UNIT + 1,
                target == Seq::new(
                    all.len(),
                    |k: int| stretched(all[k], low as int, high as int),
                ),
                k <= n,
                stretch@ == target.take(k as int),
            decreases n - k,
        {
            let value: usize = values[k] as usize;
            let byte: u8 = if value <= low {
                0
            } else {
                let difference: u128 = (value - low) as u128;
                assert(difference * factor <= 255 * (510 * 72057594037927936 + 1) && 0 <= difference
                    * factor) by (nonlinear_arith)
                    requires
                        0 <= difference <= 255,
                        0 <= factor <= 510 * 72057594037927936 + 1,
                ;
                clamp_units(round_to(difference * factor, DOUBLE))
            };
            stretch.push(byte);
            k += 1;
            assert(stretch@ =~= target.take(k as int));
        }
        assert(stretch@ =~= target);
        WasmImage::from_gray(&stretch, self.width, self.height)
    }

    /// Maps every intensity through a tone table.
    pub fn gamma(&self, table: &Vec<u8>) -> (mapped: WasmImage)
        requires
            table@.len() == 256,
        ensures
            mapped@ == gray_picture(
                Seq::new(
                    intensities(self@).len(),
                    |k: int| table@[intensities(self@)[k] as int],
                ),
                self@.width,
                self@.height,
            ),
            is_picture(mapped@),
    {
        proof {
            use_type_invariant(self);
        }
        let values: Vec<u8> = self.gray_values();
        let mut mapped: Vec<u8> = Vec::new();
        let ghost target = Seq::new(values@.len(), |k: int| table@[values@[k] as int]);
        let mut k: usize = 0;
        while k < values.len()
            invariant
                table@.len() == 256,
                target == Seq::new(values@.len(), |k: int| table@[values@[k] as int]),
                k <= values@.len(),
                mapped@ == target.take(k as int),
            decreases values@.len() - k,
        {
            mapped.push(table[values[k] as usize]);
            k += 1;
            assert(mapped@ =~= target.take(k as int));
        }
        assert(mapped@ =~= target);
        assert(target =~= Seq::new(
            intensities(self@).len(),
            |k: int| table@[intensities(self@)[k] as int],
        ));
        WasmImage::from_gray(&mapped, self.width, self.height)
    }

    /// Sharpens edges. The amount counts units of 2^-52.
    pub fn unsharp(&self, amount: u64) -> (result: WasmImage)
        ensures
            result@ == gray_picture(
                sharpened_values(intensities(self@), self@.width, self@.height, amount as int),
                self@.width,
                self@.height,
            ),
            is_picture(result@),
    {
        proof {
            use_type_invariant(self);
        }
        let values: Vec<u8> = self.gray_values();
        let width: usize = self.width as usize;
        let height: usize = self.height as usize;
        let ghost target = sharpened_values(values@, width as int, height as int, amount as int);
        let mut sharp: Vec<u8> = Vec::new();
        let mut y: usize = 0;
        while y < height
            invariant
                1 <= width <= 4096,
                1 <= height <= 4096,
                values@.len() == width * height,
                target == sharpened_values(
                    values@,
                    width as int,
                    height as int,
                    amount as int,
                ),
                y <= height,
                sharp@.len() == y * width,
                sharp@ == target.take(y * width),
            decreases height - y,
        {
            let mut x: usize = 0;
            while x < width
                invariant
                    1 <= width <= 4096,
                    1 <= height <= 4096,
                    values@.len() == width * height,
                    target == sharpened_values(
                        values@,
                        width as int,
                        height as int,
                        amount as int,
                    ),
                    y < height,
                    x <= width,
                    sharp@.len() == y * width + x,
                    sharp@ == target.take(y * width + x),
                decreases width - x,
            {
                proof {
                    lemma_place(width as int, height as int, x as int, y as int);
                    lemma_area(width as int, height as int);
                }
                let original: u8 = values[y * width + x];
                let surroundings: u32 = blurred_of(&values, width, height, x, y);
                sharp.push(sharpened_of(original, surroundings, amount));
                x += 1;
                assert(sharp@ =~= target.take(y * width + x));
            }
            assert((y + 1) * width == y * width + width) by (nonlinear_arith);
            y += 1;
        }
        assert(width * height == height * width) by (nonlinear_arith);
        assert(sharp@ =~= target);
        WasmImage::from_gray(&sharp, self.width, self.height)
    }

    /// Otsu's threshold level.
    pub fn otsu_level(&self) -> (level: u8)
        ensures
            level == otsu_split(intensities(self@)),
    {
        let values: Vec<u8> = self.gray_values();
        otsu_level_of(&values)
    }

    /// Turns everything up to `level` black and the rest white, with Photon.
    pub fn photon_threshold(&self, level: u8) -> (result: WasmImage)
        ensures
            result@ == (Picture {
                pixels: level_thresholded(self@.pixels, level as int),
                width: self@.width,
                height: self@.height,
            }),
            is_picture(result@),
    {
        proof {
            use_type_invariant(self);
        }
        let (width, height): (u32, u32) = (self.width, self.height);
        let grays: Vec<u8> = if level >= 1 {
            photon_threshold_pixels(&self.pixels, width, height, level as u32)
        } else {
            let inverted: Vec<u8> = photon_invert_pixels(&self.pixels, width, height);
            let binary: Vec<u8> = photon_threshold_pixels(&inverted, width, height, 254);
            photon_invert_pixels(&binary, width, height)
        };
        let colors: Vec<u8> = photon_threshold_pixels(
            &self.pixels,
            width,
            height,
            level as u32 + 1,
        );
        let ghost target = level_thresholded(self.pixels@, level as int);
        let mut pixels: Vec<u8> = Vec::new();
        let mut i: usize = 0;
        while i < self.pixels.len()
            invariant
                self.pixels@.len() % 4 == 0,
                grays@ == gray_thresholded(self.pixels@, level as int),
                colors@ == photon_thresholded(self.pixels@, level + 1),
                grays@.len() == self.pixels@.len(),
                colors@.len() == self.pixels@.len(),
                target == level_thresholded(self.pixels@, level as int),
                i <= self.pixels@.len(),
                pixels@ == target.take(i as int),
            decreases self.pixels@.len() - i,
        {
            let start: usize = i - i % 4;
            let gray: bool = self.pixels[start] == self.pixels[start + 1] && self.pixels[start + 1]
                == self.pixels[start + 2];
            pixels.push(
                if gray {
                    grays[i]
                } else {
                    colors[i]
                },
            );
            i += 1;
            assert(pixels@ =~= target.take(i as int));
        }
        assert(pixels@ =~= target);
        WasmImage { pixels, width, height }
    }

    /// Turns every pixel black that is not brighter than its surroundings by
    /// more than the bias allows. The bias counts units of 1/1024.
    pub fn adaptive_threshold(&self, window_size: usize, bias: i64) -> (result: Result<
        WasmImage,
        ImageError,
    >)
        ensures
            result is Ok <==> 3 <= window_size <= 255,
            result matches Ok(binary) ==> binary@ == gray_picture(
                adaptive_values(
                    intensities(self@),
                    self@.width,
                    self@.height,
                    window_radius(window_size as int),
                    bias as int,
                ),
                self@.width,
                self@.height,
            ) && is_picture(binary@),
            result matches Err(error) ==> error == ImageError::AdaptiveWindow,
    {
        proof {
            use_type_invariant(self);
        }
        if window_size < 3 || window_size > 255 {
            return Err(ImageError::AdaptiveWindow);
        }
        let values: Vec<u8> = self.gray_values();
        let width: usize = self.width as usize;
        let height: usize = self.height as usize;
        let radius: usize = window_size / 2;
        let sums: Vec<u64> = corner_sums(&values, width, height);
        let ghost target = adaptive_values(
            values@,
            width as int,
            height as int,
            radius as int,
            bias as int,
        );
        let mut binary: Vec<u8> = Vec::new();
        let mut y: usize = 0;
        while y < height
            invariant
                1 <= width <= 4096,
                1 <= height <= 4096,
                1 <= radius <= 127,
                values@.len() == width * height,
                sums@.len() == (width + 1) * (height + 1),
                forall|x: int, y: int|
                    0 <= x <= width && 0 <= y <= height ==> #[trigger] sums@[y * (width + 1) + x]
                        == area_sum(values@, width as int, 0, x, 0, y),
                target == adaptive_values(
                    values@,
                    width as int,
                    height as int,
                    radius as int,
                    bias as int,
                ),
                y <= height,
                binary@.len() == y * width,
                binary@ == target.take(y * width),
            decreases height - y,
        {
            let mut x: usize = 0;
            while x < width
                invariant
                    1 <= width <= 4096,
                    1 <= height <= 4096,
                    1 <= radius <= 127,
                        values@.len() == width * height,
                    sums@.len() == (width + 1) * (height + 1),
                    forall|x: int, y: int|
                        0 <= x <= width && 0 <= y <= height ==> #[trigger] sums@[y * (width + 1)
                            + x] == area_sum(values@, width as int, 0, x, 0, y),
                    target == adaptive_values(
                        values@,
                        width as int,
                        height as int,
                        radius as int,
                        bias as int,
                    ),
                    y < height,
                    x <= width,
                    binary@.len() == y * width + x,
                    binary@ == target.take(y * width + x),
                decreases width - x,
            {
                proof {
                    lemma_place(width as int, height as int, x as int, y as int);
                }
                let byte: u8 = adaptive_value_of(
                    &values,
                    &sums,
                    (width, height),
                    radius,
                    bias,
                    (x, y),
                );
                binary.push(byte);
                x += 1;
                assert(binary@ =~= target.take(y * width + x));
            }
            assert((y + 1) * width == y * width + width) by (nonlinear_arith);
            y += 1;
        }
        assert(width * height == height * width) by (nonlinear_arith);
        assert(binary@ =~= target);
        Ok(WasmImage::from_gray(&binary, self.width, self.height))
    }

    /// RGB inversion is delegated to Photon and preserves alpha.
    pub fn photon_invert(&self) -> (result: WasmImage)
        ensures
            result@ == (Picture {
                pixels: photon_inverted(self@.pixels),
                width: self@.width,
                height: self@.height,
            }),
            is_picture(result@),
    {
        proof {
            use_type_invariant(self);
        }
        let (width, height): (u32, u32) = (self.width, self.height);
        WasmImage { pixels: photon_invert_pixels(&self.pixels, width, height), width, height }
    }
}

proof fn lemma_levels(values: Seq<u8>, tail: int, l: int, h: int)
    requires
        0 <= l <= 255,
        0 <= h <= 255,
    ensures
        l <= low_level(values, tail, l) <= 255,
        0 <= high_level(values, tail, h) <= h,
    decreases 255 - l + h,
{
    if l < 255 {
        lemma_levels(values, tail, l + 1, h);
    }
    if h > 0 {
        lemma_levels(values, tail, l, h - 1);
    }
}

/// Why an image cannot be resized to the given size, if it cannot.
pub open spec fn target_refusal(width: u32, height: u32) -> Option<ImageError> {
    if width < 21 || height < 21 {
        Some(ImageError::TargetTooSmall)
    } else {
        dimension_refusal(width, height, (4 * (width * height)) as nat)
    }
}

/// Why an image cannot be resized to the given size, if it cannot.
pub fn check_target(width: u32, height: u32) -> (refusal: Option<ImageError>)
    ensures
        refusal == target_refusal(width, height),
{
    if width < 21 || height < 21 {
        return Some(ImageError::TargetTooSmall);
    }
    if width > MAX_SIDE || height > MAX_SIDE {
        return Some(ImageError::Dimensions);
    }
    proof {
        lemma_area(width as int, height as int);
    }
    validate_dimensions(width, height, width as usize * height as usize * 4)
}

fn inside_of(t: usize, step: usize, size: usize) -> (moved: usize)
    requires
        t < size <= 4096,
        step <= 2,
    ensures
        moved == inside(t + step - 1, size as int),
        moved < size,
{
    if t + step < 1 {
        0
    } else if t + step - 1 >= size {
        size - 1
    } else {
        t + step - 1
    }
}

fn sample_of(values: &Vec<u8>, width: usize, height: usize, x: usize, y: usize) -> (value: u32)
    requires
        1 <= width <= 4096,
        1 <= height <= 4096,
        values@.len() == width * height,
        x < width,
        y < height,
    ensures
        value == values@[y * width + x],
        value <= 255,
{
    proof {
        lemma_place(width as int, height as int, x as int, y as int);
        lemma_area(width as int, height as int);
    }
    values[y * width + x] as u32
}

fn blurred_of(values: &Vec<u8>, width: usize, height: usize, x: usize, y: usize) -> (sum: u32)
    requires
        1 <= width <= 4096,
        1 <= height <= 4096,
        values@.len() == width * height,
        x < width,
        y < height,
    ensures
        sum == blurred(values@, width as int, height as int, x as int, y as int),
        sum <= 4080,
{
    let left: usize = inside_of(x, 0, width);
    let right: usize = inside_of(x, 2, width);
    let top: usize = inside_of(y, 0, height);
    let bottom: usize = inside_of(y, 2, height);
    sample_of(values, width, height, left, top) + 2 * sample_of(values, width, height, x, top)
        + sample_of(values, width, height, right, top) + 2 * sample_of(
        values,
        width,
        height,
        left,
        y,
    ) + 4 * sample_of(values, width, height, x, y) + 2 * sample_of(values, width, height, right, y)
        + sample_of(values, width, height, left, bottom) + 2 * sample_of(
        values,
        width,
        height,
        x,
        bottom,
    ) + sample_of(values, width, height, right, bottom)
}

fn sharpened_of(original: u8, surroundings: u32, amount: u64) -> (byte: u8)
    requires
        surroundings <= 4080,
    ensures
        byte == sharpened(original as int, surroundings as int, amount as int),
{
    let own: u32 = 16 * original as u32;
    let base: u128 = original as u128 * UNIT;
    let brighter: bool = own >= surroundings;
    let difference: u128 = if brighter {
        (own - surroundings) as u128
    } else {
        (surroundings - own) as u128
    };
    assert(0 <= amount * difference <= 0xffff_ffff_ffff_ffff * 4080) by (nonlinear_arith)
        requires
            0 <= amount <= 0xffff_ffff_ffff_ffff,
            0 <= difference <= 4080,
    ;
    let push: u128 = round_to(amount as u128 * difference, DOUBLE);
    proof {
        let d = 16 * original - surroundings;
        let a = amount as int;
        assert(brighter ==> a * d == a * difference);
        assert(!brighter ==> a * d == -(a * difference)) by (nonlinear_arith)
            requires
                !brighter ==> d == -difference,
        ;
        assert(rounded(0, DOUBLE as int) == 0) by {
            assert(spacing(0, DOUBLE as int) == 1);
        }
    }
    if brighter {
        clamp_units(round_to(base + push, DOUBLE))
    } else if push >= base {
        proof {
            let total = base - push;
            if total < 0 {
                lemma_spacing(-total, DOUBLE as int);
                lemma_nearest(-total, 1, spacing(-total, DOUBLE as int));
            }
        }
        0
    } else {
        clamp_units(round_to(base - push, DOUBLE))
    }
}

/// The sum over a window, from the sums over everything above and to the left.
fn window_sum(
    Ghost(values): Ghost<Seq<u8>>,
    sums: &Vec<u64>,
    size: (usize, usize),
    columns: (usize, usize),
    rows: (usize, usize),
) -> (sum: u64)
    requires
        1 <= size.0 <= 4096,
        1 <= size.1 <= 4096,
        values.len() == size.0 * size.1,
        sums@.len() == (size.0 + 1) * (size.1 + 1),
        forall|x: int, y: int|
            0 <= x <= size.0 && 0 <= y <= size.1 ==> #[trigger] sums@[y * (size.0 + 1) + x]
                == area_sum(values, size.0 as int, 0, x, 0, y),
        columns.0 <= columns.1 <= size.0,
        rows.0 <= rows.1 <= size.1,
    ensures
        sum == area_sum(
            values,
            size.0 as int,
            columns.0 as int,
            columns.1 as int,
            rows.0 as int,
            rows.1 as int,
        ),
{
    let (left, right): (usize, usize) = columns;
    let (top, bottom): (usize, usize) = rows;
    let step: usize = size.0 + 1;
    proof {
        let (w, h) = (size.0 as int, size.1 as int);
        let (l, r, t, b) = (left as int, right as int, top as int, bottom as int);
        lemma_place(step as int, h + 1, r, b);
        lemma_place(step as int, h + 1, r, t);
        lemma_place(step as int, h + 1, l, b);
        lemma_place(step as int, h + 1, l, t);
        assert(step * (h + 1) <= 4097 * 4097) by (nonlinear_arith)
            requires
                0 <= step <= 4097,
                0 <= h + 1 <= 4097,
        ;
        lemma_area(w, h);
        lemma_area_rows(values, w, 0, r, 0, t, b);
        lemma_area_rows(values, w, 0, l, 0, t, b);
        lemma_area_columns(values, w, 0, l, r, t, b);
        lemma_area_bound(values, w, 0, r, 0, b);
        lemma_area_bound(values, w, 0, r, 0, t);
        lemma_area_bound(values, w, 0, l, 0, b);
        lemma_area_bound(values, w, 0, l, 0, t);
        lemma_area_bound(values, w, l, r, t, b);
        lemma_area_bound(values, w, 0, r, t, b);
        lemma_area_bound(values, w, 0, l, t, b);
    }
    let lower: u64 = sums[bottom * step + right] - sums[top * step + right];
    let outside: u64 = sums[bottom * step + left] - sums[top * step + left];
    lower - outside
}

fn adaptive_value_of(
    values: &Vec<u8>,
    sums: &Vec<u64>,
    size: (usize, usize),
    radius: usize,
    bias: i64,
    place: (usize, usize),
) -> (byte: u8)
    requires
        1 <= size.0 <= 4096,
        1 <= size.1 <= 4096,
        1 <= radius <= 127,
        values@.len() == size.0 * size.1,
        sums@.len() == (size.0 + 1) * (size.1 + 1),
        forall|x: int, y: int|
            0 <= x <= size.0 && 0 <= y <= size.1 ==> #[trigger] sums@[y * (size.0 + 1) + x]
                == area_sum(values@, size.0 as int, 0, x, 0, y),
        place.0 < size.0,
        place.1 < size.1,
    ensures
        byte == adaptive_value(
            values@,
            size.0 as int,
            size.1 as int,
            radius as int,
            bias as int,
            place.0 as int,
            place.1 as int,
        ),
{
    let (width, height): (usize, usize) = size;
    let (x, y): (usize, usize) = place;
    let left: usize = if x < radius {
        0
    } else {
        x - radius
    };
    let right: usize = if x + radius + 1 < width {
        x + radius + 1
    } else {
        width
    };
    let top: usize = if y < radius {
        0
    } else {
        y - radius
    };
    let bottom: usize = if y + radius + 1 < height {
        y + radius + 1
    } else {
        height
    };
    let sum: u64 = window_sum(Ghost(values@), sums, size, (left, right), (top, bottom));
    proof {
        lemma_place(width as int, height as int, x as int, y as int);
        lemma_area(width as int, height as int);
        assert(0 <= (right - left) * (bottom - top) <= 255 * 255) by (nonlinear_arith)
            requires
                0 <= right - left <= 255,
                0 <= bottom - top <= 255,
        ;
    }
    let area: i128 = ((right - left) * (bottom - top)) as i128;
    let level: i128 = 1024 * values[y * width + x] as i128 + bias as i128;
    assert(-0x1_0000_0000_0000_0000 * 65025 <= level * area <= 0x1_0000_0000_0000_0000 * 65025)
        by (nonlinear_arith)
        requires
            -0x1_0000_0000_0000_0000 <= level <= 0x1_0000_0000_0000_0000,
            0 <= area <= 65025,
    ;
    if level * area <= 1024 * sum as i128 {
        0
    } else {
        255
    }
}

proof fn lemma_bright_side(values: Seq<u8>, level: int, n: int)
    requires
        0 <= n <= values.len(),
        0 <= level <= 255,
    ensures
        (level + 1) * (n - tally(values, 0, level, n)) <= mass(values, 255, n) - mass(
            values,
            level,
            n,
        ),
        mass(values, 255, n) - mass(values, level, n) <= 255 * (n - tally(values, 0, level, n)),
    decreases n,
{
    if n > 0 {
        lemma_bright_side(values, level, n - 1);
        let rest = n - 1 - tally(values, 0, level, n - 1);
        assert((level + 1) * (rest + 1) == (level + 1) * rest + (level + 1)) by (nonlinear_arith);
    } else {
        assert((level + 1) * 0 == 0);
    }
}

/// Otsu's level of a list of intensities.
fn otsu_level_of(values: &Vec<u8>) -> (level: u8)
    requires
        1 <= values@.len() <= 16777216,
    ensures
        level == otsu_split(values@),
{
    let counts: Vec<usize> = histogram_of(values);
    let n: usize = values.len();
    let ghost all = values@;
    let mut total: u128 = 0;
    let mut v: usize = 0;
    proof {
        lemma_mass_none(all, n as int);
    }
    while v < 256
        invariant
            all == values@,
            n == all.len() <= 16777216,
            counts@.len() == 256,
            forall|v: int| 0 <= v < 256 ==> #[trigger] counts@[v] == tally(all, v, v, n as int),
            v <= 256,
            total == mass(all, v - 1, n as int),
        decreases 256 - v,
    {
        proof {
            lemma_mass(all, v as int, n as int);
            lemma_tally(all, v as int, v as int, v as int, n as int);
            assert(0 <= v * counts@[v as int] <= 256 * 16777216) by (nonlinear_arith)
                requires
                    0 <= v <= 256,
                    0 <= counts@[v as int] <= 16777216,
            ;
        }
        total += v as u128 * counts[v] as u128;
        v += 1;
    }
    let mut weight: usize = 0;
    let mut dark: u128 = 0;
    let mut best: Option<(usize, u128)> = None;
    let mut level: usize = 0;
    proof {
        lemma_tally_none(all, 0, -1, n as int);
    }
    while level < 256
        invariant
            all == values@,
            1 <= n == all.len() <= 16777216,
            counts@.len() == 256,
            forall|v: int| 0 <= v < 256 ==> #[trigger] counts@[v] == tally(all, v, v, n as int),
            total == mass(all, 255, n as int),
            level <= 256,
            weight == tally(all, 0, level - 1, n as int),
            weight <= n,
            dark == mass(all, level - 1, n as int),
            dark <= 255 * n,
            match best {
                None => best_split(all, level as int) is None,
                Some((l, variance)) => {
                    &&& best_split(all, level as int) == Some(l as int)
                    &&& l < level
                    &&& two_to(100) * variance == split_variance(all, l as int)
                },
            },
        decreases 256 - level,
    {
        proof {
            lemma_tally(all, 0, level as int, level as int, n as int);
            lemma_mass(all, level as int, n as int);
            lemma_tally(all, level as int, level as int, level as int, n as int);
            assert(0 <= level * counts@[level as int] <= 256 * 16777216) by (nonlinear_arith)
                requires
                    0 <= level <= 256,
                    0 <= counts@[level as int] <= 16777216,
            ;
        }
        weight += counts[level];
        dark += level as u128 * counts[level] as u128;
        if 0 < weight && weight < n {
            proof {
                lemma_mass_bound(all, level as int, n as int);
                lemma_bright_side(all, level as int, n as int);
                lemma_tally_all(all, n as int);
            }
            let variance: u128 = variance_of(
                dark,
                weight as u128,
                total - dark,
                (n - weight) as u128,
                Ghost(level as int),
            );
            let better: bool = match best {
                None => true,
                Some((_, top)) => {
                    proof {
                        lemma_more_variance(variance as int, top as int);
                    }
                    variance > top
                },
            };
            if better {
                best = Some((level, variance));
            }
        }
        level += 1;
    }
    match best {
        Some((level, _)) => level as u8,
        None => 127,
    }
}

proof fn lemma_tally_all(values: Seq<u8>, n: int)
    requires
        0 <= n <= values.len(),
    ensures
        tally(values, 0, 255, n) == n,
    decreases n,
{
    if n > 0 {
        lemma_tally_all(values, n - 1);
    }
}

/// Otsu's level separates the values at least as well as any other level.
pub proof fn otsu_level_is_best(values: Seq<u8>, level: int, n: int)
    requires
        0 <= level < n <= 256,
        1 <= values.len() <= 16777216,
        splits(values, level),
    ensures
        best_split(values, n) is Some,
        0 <= best_split(values, n)->Some_0 < n,
        splits(values, best_split(values, n)->Some_0),
        !separates_more(values, level, best_split(values, n)->Some_0),
    decreases n,
{
    if level < n - 1 {
        otsu_level_is_best(values, level, n - 1);
    } else {
        lemma_best_split_range(values, n - 1);
    }
}

pub(crate) proof fn lemma_best_split_range(values: Seq<u8>, n: int)
    requires
        0 <= n <= 256,
    ensures
        best_split(values, n) matches Some(l) ==> 0 <= l < n && splits(values, l),
    decreases n,
{
    if n > 0 {
        lemma_best_split_range(values, n - 1);
    }
}

proof fn lemma_single_step(n: int)
    requires
        0 <= n,
    ensures
        n - n / 8388608 - 1 <= rounded(n, 16777216) <= n + n / 8388608 + 1,
{
    let s = spacing(n, 16777216);
    lemma_spacing(n, 16777216);
    lemma_spacing_small(n);
    assert(1 * s == s);
    vstd::arithmetic::div_mod::lemma_fundamental_div_mod(n, s);
    vstd::arithmetic::mul::lemma_mul_is_commutative(s, n / s);
    assert((n / s + 1) * s == (n / s) * s + s) by (nonlinear_arith);
}

proof fn lemma_spacing_small(n: int)
    requires
        0 <= n,
    ensures
        spacing(n, 16777216) <= n / 8388608 + 1,
        n >= 16777216 ==> spacing(n, 16777216) * 8388608 <= n,
    decreases n,
{
    if n >= 16777216 {
        lemma_spacing_small(n / 2);
    }
}

/// On gray pixels Photon's threshold is exact: from cut 1 on, the values above
/// the cut become white.
proof fn lemma_gray_luminance(value: u8, cut: int)
    requires
        1 <= cut <= 255,
    ensures
        photon_luminance(value, value, value) >= cut * 4294967296 <==> value > cut,
{
    let v = value as int;
    let a = v * 913110016;
    let b = v * 3071760640;
    let c = v * 309237632;
    lemma_single_step(a);
    lemma_single_step(b);
    lemma_single_step(c);
    let ra = rounded(a, 16777216);
    let rb = rounded(b, 16777216);
    let rc = rounded(c, 16777216);
    if v == 0 {
        assert(spacing(0, 16777216) == 1);
        assert(rounded(0, 16777216) == 0);
    } else {
        lemma_single_step(ra + rb);
        lemma_single_step(rounded(ra + rb, 16777216) + rc);
    }
}

/// Thresholding a gray picture at `level` turns exactly the values up to the
/// level black, whatever the level.
pub proof fn threshold_keeps_black_convention(values: Seq<u8>, level: u8, k: int)
    requires
        0 <= k < values.len(),
    ensures
        level_thresholded(gray_rgba(values), level as int)[4 * k] == (if values[k] <= level {
            0u8
        } else {
            255
        }),
        level_thresholded(gray_rgba(values), level as int)[4 * k + 3] == 255,
{
    let pixels = gray_rgba(values);
    let value = values[k];
    assert((4 * k) % 4 == 0 && (4 * k + 3) % 4 == 3);
    assert(level_thresholded(pixels, level as int)[4 * k] == gray_thresholded(
        pixels,
        level as int,
    )[4 * k]) by {
        assert((4 * k) / 4 == k && (4 * k + 1) / 4 == k && (4 * k + 2) / 4 == k);
        assert((4 * k + 1) % 4 == 1 && (4 * k + 2) % 4 == 2);
        assert(is_gray_pixel(pixels, 4 * k));
    }
    assert(pixels[4 * k] == value && pixels[4 * k + 1] == value && pixels[4 * k + 2] == value) by {
        assert((4 * k) / 4 == k && (4 * k + 1) / 4 == k && (4 * k + 2) / 4 == k);
        assert((4 * k + 1) % 4 == 1 && (4 * k + 2) % 4 == 2);
    }
    if level >= 1 {
        lemma_gray_luminance(value, level as int);
    } else {
        let inverse = (255 - value) as u8;
        let inverted = photon_inverted(pixels);
        assert(inverted[4 * k] == inverse && inverted[4 * k + 1] == inverse && inverted[4 * k + 2]
            == inverse) by {
            assert((4 * k + 1) % 4 == 1 && (4 * k + 2) % 4 == 2);
        }
        lemma_gray_luminance(inverse, 254);
        let binary = photon_thresholded(inverted, 254);
        assert(binary[4 * k] == (if inverse > 254 {
            255u8
        } else {
            0
        }));
    }
}

/// The sum of one pixel over all frames, of which each has `frame_bytes` bytes.
pub open spec fn frame_sum(frames: Seq<u8>, frame_bytes: int, k: int, n: int) -> int
    decreases n,
{
    if n <= 0 {
        0
    } else {
        frame_sum(frames, frame_bytes, k, n - 1) + frames[(n - 1) * frame_bytes + 4 * k]
    }
}

/// `sum / count` to the nearest byte, ties to even.
pub open spec fn mean_to_even(sum: int, count: int) -> u8 {
    let q = sum / count;
    let r = sum % count;
    (if 2 * r > count || (2 * r == count && q % 2 == 1) {
        q + 1
    } else {
        q
    }) as u8
}

/// The mean intensities of all frames.
pub open spec fn fused_values(frames: Seq<u8>, pixels: int, count: int) -> Seq<u8> {
    Seq::new(
        pixels as nat,
        |k: int| mean_to_even(frame_sum(frames, 4 * pixels, k, count), count),
    )
}

proof fn lemma_mean(sum: int, count: int)
    requires
        1 <= count,
        0 <= sum <= 255 * count,
    ensures
        0 <= sum / count <= 255,
        sum / count == 255 ==> sum % count == 0,
        sum == count * (sum / count) + sum % count,
        0 <= sum % count < count,
{
    vstd::arithmetic::div_mod::lemma_fundamental_div_mod(sum, count);
    let q = sum / count;
    let r = sum % count;
    assert(0 <= q <= 255 && (q == 255 ==> r == 0)) by (nonlinear_arith)
        requires
            sum == count * q + r,
            0 <= r < count,
            0 <= sum <= 255 * count,
    ;
}

/// Fuses frames of one size into their mean.
pub fn fuse_mean_images(frames: &[u8], width: u32, height: u32, frame_count: usize) -> (fused:
    Result<WasmImage, ImageError>)
    ensures
        ({
            let refusal = if frame_count < 2 {
                Some(ImageError::FusionFrames)
            } else if width < 1 || height < 1 || width > MAX_SIDE || height > MAX_SIDE {
                Some(ImageError::Dimensions)
            } else if frames@.len() != 4 * (width * height) * frame_count {
                Some(ImageError::FusionSizes)
            } else {
                None
            };
            match refusal {
                Some(error) => fused is Err && fused->Err_0 == error,
                None => fused is Ok && fused->Ok_0@ == gray_picture(
                    fused_values(frames@, (width * height) as int, frame_count as int),
                    width as int,
                    height as int,
                ) && is_picture(fused->Ok_0@),
            }
        }),
{
    if frame_count < 2 {
        return Err(ImageError::FusionFrames);
    }
    if width < 1 || height < 1 || width > MAX_SIDE || height > MAX_SIDE {
        return Err(ImageError::Dimensions);
    }
    proof {
        lemma_area(width as int, height as int);
    }
    let pixels: usize = width as usize * height as usize;
    let frame_bytes: usize = pixels * 4;
    assert(0 <= frame_bytes * frame_count <= 67108864 * 0xffff_ffff_ffff_ffff) by (nonlinear_arith)
        requires
            0 <= frame_bytes <= 67108864,
            0 <= frame_count <= 0xffff_ffff_ffff_ffff,
    ;
    if frames.len() as u128 != frame_bytes as u128 * frame_count as u128 {
        return Err(ImageError::FusionSizes);
    }
    let length: usize = frames.len();
    let ghost target = fused_values(frames@, pixels as int, frame_count as int);
    let mut values: Vec<u8> = Vec::new();
    let mut k: usize = 0;
    while k < pixels
        invariant
            2 <= frame_count,
            1 <= pixels <= 16777216,
            frame_bytes == 4 * pixels,
            length == frames@.len() == frame_bytes * frame_count,
            target == fused_values(frames@, pixels as int, frame_count as int),
            k <= pixels,
            values@ == target.take(k as int),
        decreases pixels - k,
    {
        let mut sum: u128 = 0;
        let mut n: usize = 0;
        while n < frame_count
            invariant
                2 <= frame_count,
                1 <= pixels <= 16777216,
                frame_bytes == 4 * pixels,
                length == frames@.len() == frame_bytes * frame_count,
                k < pixels,
                n <= frame_count,
                sum == frame_sum(frames@, frame_bytes as int, k as int, n as int),
                sum <= 255 * n,
            decreases frame_count - n,
        {
            assert(0 <= n * frame_bytes && n * frame_bytes + 4 * k < frame_bytes * frame_count)
                by (nonlinear_arith)
                requires
                    0 <= n < frame_count,
                    frame_bytes == 4 * pixels,
                    0 <= k < pixels,
            ;
            sum += frames[n * frame_bytes + 4 * k] as u128;
            n += 1;
        }
        proof {
            lemma_mean(sum as int, frame_count as int);
        }
        let count: u128 = frame_count as u128;
        let q: u128 = sum / count;
        let r: u128 = sum % count;
        let byte: u8 = if 2 * r > count || (2 * r == count && q % 2 == 1) {
            (q + 1) as u8
        } else {
            q as u8
        };
        values.push(byte);
        k += 1;
        assert(values@ =~= target.take(k as int));
    }
    assert(values@ =~= target);
    Ok(WasmImage::from_gray(&values, width, height))
}

} // verus!
