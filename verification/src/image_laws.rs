//! What the image kernels do to a picture, pixel by pixel.

use vstd::prelude::*;

use crate::effort::Channel;
use crate::image::{
    adaptive_values, area_sum, blurred, channel_value, clamped, dimension_refusal, frame_sum,
    fused_values, high_level, inside, lemma_place, low_level, luma_units, mean_to_even, row_sum,
    sample, sharpened, stretched, tail_count, tally, target_refusal, window_end, window_radius,
    window_start, BLUE_WEIGHT, GREEN_WEIGHT, RED_WEIGHT, UNIT,
};
use crate::preflight_laws::apart;
use crate::rounding::{
    lemma_nearest, lemma_rounded_monotone, lemma_spacing_divides, rounded, rounded_quotient,
    rounded_signed, spacing, two_to, DOUBLE,
};

verus! {

/// Whether pixel `k` of a picture lies in the square of the given radius around
/// column `x` and row `y`.
pub open spec fn is_near(k: int, width: int, x: int, y: int, radius: int) -> bool {
    apart(k % width, x) <= radius && apart(k / width, y) <= radius
}

/// The sum of `f` over those of the first `n` pixels that are near.
pub open spec fn near_total(
    f: spec_fn(int) -> int,
    width: int,
    x: int,
    y: int,
    radius: int,
    n: int,
) -> int
    decreases n,
{
    if n <= 0 {
        0
    } else {
        near_total(f, width, x, y, radius, n - 1) + (if is_near(n - 1, width, x, y, radius) {
            f(n - 1)
        } else {
            0
        })
    }
}

/// How many pixels of a picture are near.
pub open spec fn near_count(width: int, height: int, x: int, y: int, radius: int) -> int {
    near_total(|k: int| 1, width, x, y, radius, width * height)
}

/// The sum of the intensities of the pixels that are near.
pub open spec fn near_sum(
    values: Seq<u8>,
    width: int,
    height: int,
    x: int,
    y: int,
    radius: int,
) -> int {
    near_total(|k: int| values[k] as int, width, x, y, radius, width * height)
}

spec fn line(f: spec_fn(int) -> int, width: int, y: int, x0: int, x1: int) -> int
    decreases x1 - x0,
{
    if x1 <= x0 {
        0
    } else {
        line(f, width, y, x0, x1 - 1) + f(y * width + x1 - 1)
    }
}

spec fn rectangle(
    f: spec_fn(int) -> int,
    width: int,
    x0: int,
    x1: int,
    y0: int,
    y1: int,
) -> int
    decreases y1 - y0,
{
    if y1 <= y0 {
        0
    } else {
        rectangle(f, width, x0, x1, y0, y1 - 1) + line(f, width, y1 - 1, x0, x1)
    }
}

spec fn limited_to(t: int, low: int, high: int) -> int {
    if t < low {
        low
    } else if t > high {
        high
    } else {
        t
    }
}

proof fn lemma_line_values(values: Seq<u8>, width: int, y: int, x0: int, x1: int)
    ensures
        line(|k: int| values[k] as int, width, y, x0, x1) == row_sum(values, width, y, x0, x1),
        line(|k: int| 1, width, y, x0, x1) == (if x1 >= x0 {
            x1 - x0
        } else {
            0
        }),
    decreases x1 - x0,
{
    if x0 < x1 {
        lemma_line_values(values, width, y, x0, x1 - 1);
    }
}

proof fn lemma_rectangle_values(
    values: Seq<u8>,
    width: int,
    x0: int,
    x1: int,
    y0: int,
    y1: int,
)
    requires
        x0 <= x1,
        y0 <= y1,
    ensures
        rectangle(|k: int| values[k] as int, width, x0, x1, y0, y1) == area_sum(
            values,
            width,
            x0,
            x1,
            y0,
            y1,
        ),
        rectangle(|k: int| 1, width, x0, x1, y0, y1) == (x1 - x0) * (y1 - y0),
    decreases y1 - y0,
{
    if y0 < y1 {
        lemma_rectangle_values(values, width, x0, x1, y0, y1 - 1);
        lemma_line_values(values, width, y1 - 1, x0, x1);
        assert((x1 - x0) * (y1 - y0) == (x1 - x0) * (y1 - 1 - y0) + (x1 - x0)) by (nonlinear_arith);
    } else {
        assert((x1 - x0) * (y1 - y0) == 0) by (nonlinear_arith)
            requires
                y0 == y1,
        ;
    }
}

proof fn lemma_near_line(
    f: spec_fn(int) -> int,
    width: int,
    height: int,
    x: int,
    y: int,
    radius: int,
    r: int,
    c: int,
)
    requires
        0 <= x < width,
        0 <= y < height,
        0 <= radius,
        0 <= r < height,
        0 <= c <= width,
    ensures
        near_total(f, width, x, y, radius, r * width + c) == near_total(
            f,
            width,
            x,
            y,
            radius,
            r * width,
        ) + (if apart(r, y) <= radius {
            line(
                f,
                width,
                r,
                window_start(x, radius),
                limited_to(c, window_start(x, radius), window_end(x, radius, width)),
            )
        } else {
            0
        }),
    decreases c,
{
    if c > 0 {
        lemma_near_line(f, width, height, x, y, radius, r, c - 1);
        lemma_place(width, height, c - 1, r);
        let k = r * width + c - 1;
        assert(is_near(k, width, x, y, radius) == (apart(c - 1, x) <= radius && apart(r, y)
            <= radius));
        assert(near_total(f, width, x, y, radius, k + 1) == near_total(
            f,
            width,
            x,
            y,
            radius,
            k,
        ) + (if is_near(k, width, x, y, radius) {
            f(k)
        } else {
            0
        }));
    } else {
        assert(r * width + c == r * width);
    }
}

proof fn lemma_near_rows(
    f: spec_fn(int) -> int,
    width: int,
    height: int,
    x: int,
    y: int,
    radius: int,
    r: int,
)
    requires
        0 <= x < width,
        0 <= y < height,
        0 <= radius,
        0 <= r <= height,
    ensures
        near_total(f, width, x, y, radius, r * width) == rectangle(
            f,
            width,
            window_start(x, radius),
            window_end(x, radius, width),
            window_start(y, radius),
            limited_to(r, window_start(y, radius), window_end(y, radius, height)),
        ),
    decreases r,
{
    if r > 0 {
        lemma_near_rows(f, width, height, x, y, radius, r - 1);
        lemma_near_line(f, width, height, x, y, radius, r - 1, width);
        assert((r - 1) * width + width == r * width) by (nonlinear_arith);
    } else {
        assert(r * width == 0) by (nonlinear_arith)
            requires
                r == 0,
        ;
    }
}

/// Adaptive thresholding turns a pixel black exactly if its intensity plus the
/// bias is at most the mean over all pixels of the picture that lie within the
/// radius, in columns and in rows. The bias counts units of 1/1024.
pub proof fn pixels_are_held_against_their_surroundings(
    values: Seq<u8>,
    width: int,
    height: int,
    radius: int,
    bias: int,
    x: int,
    y: int,
)
    requires
        0 <= x < width,
        0 <= y < height,
        0 <= radius,
        values.len() == width * height,
    ensures
        ({
            let result = adaptive_values(values, width, height, radius, bias)[y * width + x];
            let n = near_count(width, height, x, y, radius);
            let sum = near_sum(values, width, height, x, y, radius);
            &&& n > 0
            &&& result == 0 || result == 255
            &&& result == 0 <==> (1024 * values[y * width + x] + bias) * n <= 1024 * sum
        }),
{
    let (left, right) = (window_start(x, radius), window_end(x, radius, width));
    let (top, bottom) = (window_start(y, radius), window_end(y, radius, height));
    lemma_place(width, height, x, y);
    assert(height * width == width * height) by (nonlinear_arith);
    lemma_near_rows(|k: int| 1, width, height, x, y, radius, height);
    lemma_near_rows(|k: int| values[k] as int, width, height, x, y, radius, height);
    lemma_rectangle_values(values, width, left, right, top, bottom);
    assert((right - left) * (bottom - top) > 0) by (nonlinear_arith)
        requires
            left < right,
            top < bottom,
    ;
}

/// An adaptive window reaches as far as its size says: an odd one holds as many
/// columns and rows as that, an even one one more.
pub proof fn windows_have_their_size(window: int)
    requires
        3 <= window <= 255,
    ensures
        window % 2 == 1 ==> 2 * window_radius(window) + 1 == window,
        window % 2 == 0 ==> 2 * window_radius(window) == window,
{
}

/// A picture with columns and rows exchanged.
pub open spec fn transposed(values: Seq<u8>, width: int, height: int) -> Seq<u8> {
    Seq::new((width * height) as nat, |k: int| values[(k % height) * width + k / height])
}

proof fn lemma_transposed(values: Seq<u8>, width: int, height: int, x: int, y: int)
    requires
        0 <= x < width,
        0 <= y < height,
        values.len() == width * height,
    ensures
        0 <= x * height + y < width * height,
        transposed(values, width, height)[x * height + y] == values[y * width + x],
{
    lemma_place(height, width, y, x);
    assert(height * width == width * height) by (nonlinear_arith);
}

proof fn lemma_line_end(
    f: spec_fn(int) -> int,
    width: int,
    x0: int,
    x1: int,
    y0: int,
    y1: int,
)
    requires
        x0 < x1,
    ensures
        rectangle(f, width, x0, x1, y0, y1) == rectangle(f, width, x0, x1 - 1, y0, y1) + rectangle(
            f,
            width,
            x1 - 1,
            x1,
            y0,
            y1,
        ),
    decreases y1 - y0,
{
    if y0 < y1 {
        lemma_line_end(f, width, x0, x1, y0, y1 - 1);
        assert(line(f, width, y1 - 1, x1 - 1, x1) == line(f, width, y1 - 1, x1 - 1, x1 - 1) + f(
            (y1 - 1) * width + x1 - 1,
        ));
        assert(line(f, width, y1 - 1, x1 - 1, x1 - 1) == 0);
    }
}

proof fn lemma_column(
    values: Seq<u8>,
    width: int,
    height: int,
    x0: int,
    x1: int,
    y: int,
)
    requires
        0 <= x0 <= x1 <= width,
        0 <= y < height,
        values.len() == width * height,
    ensures
        rectangle(|k: int| transposed(values, width, height)[k] as int, height, y, y + 1, x0, x1)
            == line(|k: int| values[k] as int, width, y, x0, x1),
    decreases x1 - x0,
{
    let other = transposed(values, width, height);
    let g = |k: int| other[k] as int;
    let f = |k: int| values[k] as int;
    if x0 < x1 {
        lemma_column(values, width, height, x0, x1 - 1, y);
        lemma_transposed(values, width, height, x1 - 1, y);
        assert(line(g, height, x1 - 1, y, y + 1) == line(g, height, x1 - 1, y, y) + g(
            (x1 - 1) * height + (y + 1) - 1,
        ));
        assert(line(g, height, x1 - 1, y, y) == 0);
        assert(y * width + x1 - 1 == y * width + (x1 - 1));
    }
}

proof fn lemma_turned(
    values: Seq<u8>,
    width: int,
    height: int,
    x0: int,
    x1: int,
    y0: int,
    y1: int,
)
    requires
        0 <= x0 <= x1 <= width,
        0 <= y0 <= y1 <= height,
        values.len() == width * height,
    ensures
        rectangle(|k: int| transposed(values, width, height)[k] as int, height, y0, y1, x0, x1)
            == rectangle(|k: int| values[k] as int, width, x0, x1, y0, y1),
    decreases y1 - y0,
{
    let other = transposed(values, width, height);
    let g = |k: int| other[k] as int;
    if y0 < y1 {
        lemma_turned(values, width, height, x0, x1, y0, y1 - 1);
        lemma_line_end(g, height, y0, y1, x0, x1);
        lemma_column(values, width, height, x0, x1, y1 - 1);
    } else {
        lemma_empty_rectangle(g, height, y0, x0, x1);
    }
}

proof fn lemma_empty_rectangle(f: spec_fn(int) -> int, width: int, x: int, y0: int, y1: int)
    ensures
        rectangle(f, width, x, x, y0, y1) == 0,
    decreases y1 - y0,
{
    if y0 < y1 {
        lemma_empty_rectangle(f, width, x, y0, y1 - 1);
    }
}

/// Thresholding commutes with exchanging columns and rows.
pub proof fn thresholding_commutes_with_transposing(
    values: Seq<u8>,
    width: int,
    height: int,
    radius: int,
    bias: int,
    x: int,
    y: int,
)
    requires
        0 <= x < width,
        0 <= y < height,
        0 <= radius,
        values.len() == width * height,
    ensures
        adaptive_values(transposed(values, width, height), height, width, radius, bias)[x * height
            + y] == adaptive_values(values, width, height, radius, bias)[y * width + x],
{
    let other = transposed(values, width, height);
    let (left, right) = (window_start(x, radius), window_end(x, radius, width));
    let (top, bottom) = (window_start(y, radius), window_end(y, radius, height));
    lemma_place(width, height, x, y);
    lemma_place(height, width, y, x);
    lemma_transposed(values, width, height, x, y);
    assert(height * width == width * height) by (nonlinear_arith);
    lemma_turned(values, width, height, left, right, top, bottom);
    lemma_rectangle_values(values, width, left, right, top, bottom);
    lemma_rectangle_values(other, height, top, bottom, left, right);
    assert((right - left) * (bottom - top) == (bottom - top) * (right - left)) by (nonlinear_arith);
}

/// A position outside of a picture is read at the nearest position inside.
pub proof fn positions_move_to_the_nearest(t: int, size: int, other: int)
    requires
        0 <= other < size,
    ensures
        0 <= inside(t, size) < size,
        apart(inside(t, size), t) <= apart(other, t),
{
}

/// The weight of a neighbour in the blur: it falls by half with each step away,
/// in columns and in rows.
pub open spec fn blur_weight(dx: int, dy: int) -> int {
    (2 - apart(dx, 0)) * (2 - apart(dy, 0))
}

/// What the neighbours of a pixel in one row add to the blur.
pub open spec fn blur_row(
    values: Seq<u8>,
    width: int,
    height: int,
    x: int,
    y: int,
    dy: int,
) -> int {
    blur_weight(-1, dy) * sample(values, width, height, x - 1, y + dy) + blur_weight(0, dy)
        * sample(values, width, height, x, y + dy) + blur_weight(1, dy) * sample(
        values,
        width,
        height,
        x + 1,
        y + dy,
    )
}

/// The blur weighs the nine neighbours of a pixel by their distance, and the
/// weights are sixteen in all. It treats columns and rows alike, and left like
/// right.
pub proof fn blurs_weigh_neighbours_by_distance(
    values: Seq<u8>,
    width: int,
    height: int,
    x: int,
    y: int,
)
    requires
        0 <= x < width,
        0 <= y < height,
        values.len() == width * height,
    ensures
        blurred(values, width, height, x, y) == blur_row(values, width, height, x, y, -1)
            + blur_row(values, width, height, x, y, 0) + blur_row(values, width, height, x, y, 1),
        (forall|i: int, j: int|
            #![trigger sample(values, width, height, i, j)]
            sample(values, width, height, i, j) == values[y * width + x]) ==> blurred(
            values,
            width,
            height,
            x,
            y,
        ) == 16 * values[y * width + x],
        blurred(transposed(values, width, height), height, width, y, x) == blurred(
            values,
            width,
            height,
            x,
            y,
        ),
{
    let other = transposed(values, width, height);
    assert(blur_weight(-1, -1) == 1 && blur_weight(0, -1) == 2 && blur_weight(1, -1) == 1)
        by (nonlinear_arith);
    assert(blur_weight(-1, 0) == 2 && blur_weight(0, 0) == 4 && blur_weight(1, 0) == 2)
        by (nonlinear_arith);
    assert(blur_weight(-1, 1) == 1 && blur_weight(0, 1) == 2 && blur_weight(1, 1) == 1)
        by (nonlinear_arith);
    assert(y + -1 == y - 1 && y + 0 == y);
    assert forall|i: int, j: int|
        #![trigger sample(values, width, height, i, j)]
        sample(values, width, height, i, j) == sample(other, height, width, j, i) by {
        lemma_transposed(values, width, height, inside(i, width), inside(j, height));
    }
}

proof fn lemma_rounding_step(n: int, j: nat)
    requires
        0 <= n < DOUBLE * two_to(j),
    ensures
        apart(rounded(n, DOUBLE as int), n) <= two_to(j),
        0 <= rounded(n, DOUBLE as int),
{
    let d = DOUBLE as int;
    lemma_spacing_divides(n, d, j);
    let s = spacing(n, d);
    vstd::arithmetic::div_mod::lemma_fundamental_div_mod(two_to(j), s);
    lemma_power_positive(j);
    assert(s <= two_to(j)) by (nonlinear_arith)
        requires
            two_to(j) == s * (two_to(j) / s),
            s >= 1,
            two_to(j) >= 1,
    ;
    assert(1 * s == s);
    vstd::arithmetic::div_mod::lemma_fundamental_div_mod(n, s);
    vstd::arithmetic::div_mod::lemma_mod_bound(n, s);
    let q = n / s;
    assert(q * s == s * q && (q + 1) * s == s * q + s) by (nonlinear_arith);
    lemma_nearest(n, 1, s);
}

proof fn lemma_power_positive(j: nat)
    ensures
        two_to(j) >= 1,
    decreases j,
{
    if j > 0 {
        lemma_power_positive((j - 1) as nat);
    }
}

proof fn lemma_small_powers()
    ensures
        two_to(11) == 2048,
        two_to(12) == 4096,
        two_to(24) == 16_777_216,
{
    reveal_with_fuel(two_to, 25);
}

proof fn lemma_clamped(x: int)
    ensures
        x <= 0 ==> clamped(x) == 0,
        0 <= x <= 255 * UNIT ==> 2 * apart(clamped(x) * UNIT, x) <= UNIT,
        x >= 255 * UNIT ==> clamped(x) == 255,
{
}

proof fn lemma_clamped_monotone(a: int, b: int)
    requires
        a <= b,
    ensures
        clamped(a) <= clamped(b),
{
}

/// Brightness in thousandths of an intensity step.
pub open spec fn brightness(red: u8, green: u8, blue: u8) -> int {
    299 * red + 587 * green + 114 * blue
}

pub(crate) proof fn lemma_luma_units(red: u8, green: u8, blue: u8)
    ensures
        apart(1000 * luma_units(red, green, blue), brightness(red, green, blue) * UNIT)
            <= 1_073_741_824,
        0 <= luma_units(red, green, blue) <= 255 * UNIT + 1_073_741_824,
{
    let d = DOUBLE as int;
    lemma_small_powers();
    let (r, g, b) = (red * RED_WEIGHT, green * GREEN_WEIGHT, blue * BLUE_WEIGHT);
    lemma_rounding_step(r, 12);
    lemma_rounding_step(g, 12);
    lemma_rounding_step(b, 12);
    let part = rounded(r, d) + rounded(g, d);
    lemma_rounding_step(part, 12);
    lemma_rounding_step(rounded(part, d) + rounded(b, d), 12);
}

/// The luma of a pixel is the byte nearest to its weighted brightness, 0.299 red,
/// 0.587 green and 0.114 blue.
pub proof fn luma_is_weighted_brightness(red: u8, green: u8, blue: u8)
    ensures
        2 * apart(
            1000 * channel_value(Channel::Luma, red, green, blue),
            brightness(red, green, blue),
        ) <= 1000,
{
    let x = luma_units(red, green, blue);
    lemma_luma_units(red, green, blue);
    lemma_clamped(x);
    let c = clamped(x) as int;
    let w = brightness(red, green, blue);
    assert(2 * apart(c * UNIT, x) <= UNIT + 2 * 1_073_741_824);
    let (m, t) = (1000 * c - w, UNIT as int);
    assert(1000 * (c * UNIT) - w * UNIT == m * t) by (nonlinear_arith)
        requires
            m == 1000 * c - w,
            t == UNIT,
    ;
    assert(-1000 <= 2 * m <= 1000) by (nonlinear_arith)
        requires
            t == 72057594037927936,
            -1000 * t - 3_000_000_000_000 <= 2 * (m * t) <= 1000 * t + 3_000_000_000_000,
    ;
}

/// A color channel shows its color, and the smallest of the three is the channel
/// of the minimum. A gray pixel looks the same in every channel.
pub proof fn channels_show_their_color(channel: Channel, red: u8, green: u8, blue: u8)
    ensures
        channel_value(Channel::Red, red, green, blue) == red,
        channel_value(Channel::Green, red, green, blue) == green,
        channel_value(Channel::Blue, red, green, blue) == blue,
        ({
            let least = channel_value(Channel::Min, red, green, blue);
            &&& least <= red && least <= green && least <= blue
            &&& least == red || least == green || least == blue
        }),
        red == green && green == blue ==> channel_value(channel, red, green, blue) == red,
{
    luma_is_weighted_brightness(red, green, blue);
}

proof fn lemma_low_level(values: Seq<u8>, tail: int, l: int)
    requires
        0 <= l <= 255,
        forall|i: int| 0 <= i < l ==> #[trigger] tally(values, 0, i, values.len() as int) < tail,
    ensures
        l <= low_level(values, tail, l) <= 255,
        forall|i: int|
            0 <= i < low_level(values, tail, l) ==> #[trigger] tally(
                values,
                0,
                i,
                values.len() as int,
            ) < tail,
        low_level(values, tail, l) == 255 || tally(
            values,
            0,
            low_level(values, tail, l),
            values.len() as int,
        ) >= tail,
    decreases 255 - l,
{
    if !(l >= 255 || tally(values, 0, l, values.len() as int) >= tail) {
        lemma_low_level(values, tail, l + 1);
    }
}

proof fn lemma_high_level(values: Seq<u8>, tail: int, l: int)
    requires
        0 <= l <= 255,
        forall|i: int|
            l < i <= 255 ==> #[trigger] tally(values, i, 255, values.len() as int) < tail,
    ensures
        0 <= high_level(values, tail, l) <= l,
        forall|i: int|
            high_level(values, tail, l) < i <= 255 ==> #[trigger] tally(
                values,
                i,
                255,
                values.len() as int,
            ) < tail,
        high_level(values, tail, l) == 0 || tally(
            values,
            high_level(values, tail, l),
            255,
            values.len() as int,
        ) >= tail,
    decreases l,
{
    if !(l <= 0 || tally(values, l, 255, values.len() as int) >= tail) {
        lemma_high_level(values, tail, l - 1);
    }
}

/// The ends of a contrast stretch leave out less than one hundredth of the
/// pixels, and no end could be moved in without reaching that hundredth.
pub proof fn contrast_leaves_out_a_hundredth(values: Seq<u8>)
    requires
        100 <= values.len(),
    ensures
        ({
            let n = values.len() as int;
            let low = low_level(values, tail_count(n), 0);
            let high = high_level(values, tail_count(n), 255);
            &&& 0 <= low <= 255 && 0 <= high <= 255
            &&& low > 0 ==> 100 * tally(values, 0, low - 1, n) < n
            &&& low < 255 ==> 100 * (tally(values, 0, low, n) + 1) > n
            &&& high < 255 ==> 100 * tally(values, high + 1, 255, n) < n
            &&& high > 0 ==> 100 * (tally(values, high, 255, n) + 1) > n
        }),
{
    let n = values.len() as int;
    let tail = tail_count(n);
    lemma_low_level(values, tail, 0);
    lemma_high_level(values, tail, 255);
    let low = low_level(values, tail, 0);
    let high = high_level(values, tail, 255);
    if low > 0 {
        assert(tally(values, 0, low - 1, n) < tail);
    }
    if high < 255 {
        assert(tally(values, high + 1, 255, n) < tail);
    }
}

proof fn lemma_factor(d: int)
    requires
        1 <= d <= 255,
    ensures
        apart(rounded_quotient(255 * UNIT, d, DOUBLE as int) * d, 255 * UNIT) <= 2048 * d,
        0 <= rounded_quotient(255 * UNIT, d, DOUBLE as int),
{
    let n = 255 * UNIT;
    let limit = DOUBLE as int;
    lemma_small_powers();
    vstd::arithmetic::div_mod::lemma_fundamental_div_mod(n as int, d);
    vstd::arithmetic::div_mod::lemma_mod_bound(n as int, d);
    let part = n as int / d;
    assert(0 <= part <= n) by (nonlinear_arith)
        requires
            n as int == d * part + n as int % d,
            0 <= n as int % d < d,
            1 <= d,
            n >= 0,
    ;
    lemma_spacing_divides(part, limit, 11);
    let s = spacing(part, limit);
    vstd::arithmetic::div_mod::lemma_fundamental_div_mod(2048, s);
    assert(s <= 2048) by (nonlinear_arith)
        requires
            2048 == s * (2048int / s),
            s >= 1,
    ;
    assert(d * s >= 1 && d * s <= 2048 * d) by (nonlinear_arith)
        requires
            1 <= s <= 2048,
            1 <= d,
    ;
    let whole = d * s;
    vstd::arithmetic::div_mod::lemma_fundamental_div_mod(n as int, whole);
    vstd::arithmetic::div_mod::lemma_mod_bound(n as int, whole);
    let q = n as int / whole;
    assert((q * s) * d == whole * q && ((q + 1) * s) * d == whole * q + whole) by (nonlinear_arith)
        requires
            whole == d * s,
    ;
    lemma_nearest(n as int, d, s);
}

proof fn lemma_stretched(value: u8, low: int, high: int)
    requires
        0 <= low < value <= high <= 255,
    ensures
        2 * apart(stretched(value, low, high) * (high - low), 255 * (value - low)) <= high - low,
{
    let d = high - low;
    let v = value - low;
    let limit = DOUBLE as int;
    let factor = rounded_quotient(255 * UNIT, d, limit);
    lemma_factor(d);
    lemma_small_powers();
    let x = v * factor;
    let e = factor * d - 255 * UNIT;
    assert(x * d == v * (255 * UNIT) + v * e) by (nonlinear_arith)
        requires
            x == v * factor,
            e == factor * d - 255 * UNIT,
    ;
    assert(-255 * (2048 * 255) <= v * e <= 255 * (2048 * 255)) by (nonlinear_arith)
        requires
            0 <= v <= 255,
            -2048 * 255 <= e <= 2048 * 255,
    ;
    assert(x <= factor * d && 0 <= x) by (nonlinear_arith)
        requires
            x == v * factor,
            0 <= v <= d,
            0 <= factor,
    ;
    lemma_rounding_step(x, 12);
    let y = rounded(x, limit);
    lemma_clamped(y);
    let c = clamped(y) as int;
    assert(2 * apart(c * UNIT, y) <= UNIT + 2 * (2048 * 255 + 4096));
    let t = UNIT as int;
    let m = c * d - 255 * v;
    assert(-(t + 2_000_000) <= 2 * (c * t - y) <= t + 2_000_000);
    assert(-(t + 3_000_000) <= 2 * (c * t - x) <= t + 3_000_000);
    assert(-(t + 3_000_000) * d <= 2 * (c * t - x) * d <= (t + 3_000_000) * d) by (nonlinear_arith)
        requires
            -(t + 3_000_000) <= 2 * (c * t - x) <= t + 3_000_000,
            d >= 1,
    ;
    assert(2 * (c * t - x) * d == 2 * (m * t) - 2 * (v * e)) by (nonlinear_arith)
        requires
            m == c * d - 255 * v,
            x * d == v * (255 * t) + v * e,
    ;
    assert((t + 3_000_000) * d == t * d + 3_000_000 * d && -(t + 3_000_000) * d == -(t * d)
        - 3_000_000 * d) by (nonlinear_arith);
    assert(-d <= 2 * m <= d) by (nonlinear_arith)
        requires
            -(t * d) - 2_000_000_000 <= 2 * (m * t) <= t * d + 2_000_000_000,
            t == 72057594037927936,
            1 <= d <= 255,
    ;
}

/// Stretching the contrast maps the range between its ends linearly onto all
/// intensities, to the nearest byte: the lower end and everything below becomes
/// black, the upper end and everything above white.
pub proof fn contrast_is_stretched_linearly(value: u8, low: int, high: int)
    requires
        0 <= low < high <= 255,
    ensures
        value <= low ==> stretched(value, low, high) == 0,
        value >= high ==> stretched(value, low, high) == 255,
        low <= value <= high ==> 2 * apart(
            stretched(value, low, high) * (high - low),
            255 * (value - low),
        ) <= high - low,
{
    if low < value <= high {
        lemma_stretched(value, low, high);
    }
    if value >= high {
        lemma_stretched(high as u8, low, high);
        let d = high - low;
        let c = stretched(high as u8, low, high) as int;
        assert(c == 255) by (nonlinear_arith)
            requires
                -d <= 2 * (c * d - 255 * d) <= d,
                1 <= d,
        ;
        let limit = DOUBLE as int;
        let factor = rounded_quotient(255 * UNIT, d, limit);
        lemma_factor(d);
        assert(0 <= (high - low) * factor <= (value - low) * factor) by (nonlinear_arith)
            requires
                0 <= high - low <= value - low,
                0 <= factor,
        ;
        lemma_rounded_monotone((high - low) * factor, (value - low) * factor, limit);
        lemma_clamped_monotone(
            rounded((high - low) * factor, limit),
            rounded((value - low) * factor, limit),
        );
    }
    if value == low {
        assert(255 * (value - low) == 0);
        assert(0 * (high - low) == 0);
    }
}

/// The intensity that sharpening aims at, in kernel units: the original moved
/// away from the mean of its surroundings by the given amount, of which two to the
/// 52nd are one.
pub open spec fn sharpening_aim(original: int, surroundings: int, amount: int) -> int {
    original * UNIT + amount * (16 * original - surroundings)
}

/// Sharpening gives the byte nearest to its aim, up to rounding, and black or
/// white beyond. Where a pixel is like its surroundings, nothing changes.
pub proof fn sharpening_moves_away_from_the_surroundings(
    original: u8,
    surroundings: int,
    amount: u64,
)
    requires
        0 <= surroundings <= 4080,
    ensures
        ({
            let aim = sharpening_aim(original as int, surroundings, amount as int);
            let result = sharpened(original as int, surroundings, amount as int);
            &&& aim <= 0 ==> result == 0
            &&& aim >= 255 * UNIT ==> result == 255
            &&& 0 <= aim <= 255 * UNIT ==> 2 * apart(result * UNIT, aim) <= UNIT + 134_217_728
            &&& surroundings == 16 * original || amount == 0 ==> result == original
        }),
{
    let v = original as int;
    let push = amount * (16 * v - surroundings);
    let t = UNIT as int;
    lemma_small_powers();
    assert(-0xffff_ffff_ffff_ffff * 4080 <= push <= 0xffff_ffff_ffff_ffff * 4080)
        by (nonlinear_arith)
        requires
            push == amount * (16 * v - surroundings),
            -4080 <= 16 * v - surroundings <= 4080,
            0 <= amount <= 0xffff_ffff_ffff_ffff,
    ;
    if push >= 0 {
        lemma_rounding_step(push, 24);
    } else {
        lemma_rounding_step(-push, 24);
    }
    let moved = rounded_signed(push);
    let total = v * UNIT + moved;
    if total >= 0 {
        lemma_rounding_step(total, 24);
    } else {
        lemma_rounding_step(-total, 24);
    }
    let x = rounded_signed(total);
    lemma_clamped(x);
    if surroundings == 16 * v || amount == 0 {
        assert(push == 0) by (nonlinear_arith)
            requires
                push == amount * (16 * v - surroundings),
                surroundings == 16 * v || amount == 0,
        ;
        assert(spacing(0, DOUBLE as int) == 1);
        assert(rounded(0, DOUBLE as int) == 0);
        assert(2 * apart(clamped(x) * UNIT, v * UNIT) < 2 * UNIT);
    }
}

/// The mean of several frames is the nearest byte, and of two equally near ones
/// the even.
pub proof fn means_are_nearest(sum: int, count: int)
    requires
        1 <= count,
        0 <= sum <= 255 * count,
    ensures
        2 * apart(mean_to_even(sum, count) * count, sum) <= count,
        2 * apart(mean_to_even(sum, count) * count, sum) == count ==> mean_to_even(sum, count) % 2
            == 0,
{
    vstd::arithmetic::div_mod::lemma_fundamental_div_mod(sum, count);
    vstd::arithmetic::div_mod::lemma_mod_bound(sum, count);
    let q = sum / count;
    let r = sum % count;
    assert(0 <= q <= 255 && (q == 255 ==> r == 0)) by (nonlinear_arith)
        requires
            sum == count * q + r,
            0 <= r < count,
            0 <= sum <= 255 * count,
    ;
    assert(q * count == count * q && (q + 1) * count == count * q + count) by (nonlinear_arith);
}

/// What frames of the given size add up to at a pixel.
pub open spec fn frames_total(frames: Seq<u8>, pixels: int, k: int, n: int) -> int
    decreases n,
{
    if n <= 0 {
        0
    } else {
        frames_total(frames, pixels, k, n - 1) + frames.subrange(
            4 * pixels * (n - 1),
            4 * pixels * n,
        )[4 * k]
    }
}

/// Fusing gives every pixel the mean over all frames of its own position.
pub proof fn fused_pixels_are_means(frames: Seq<u8>, pixels: int, count: int, k: int)
    requires
        1 <= count,
        0 <= k < pixels,
        frames.len() == 4 * pixels * count,
    ensures
        2 * apart(
            fused_values(frames, pixels, count)[k] * count,
            frames_total(frames, pixels, k, count),
        ) <= count,
{
    lemma_frames_total(frames, pixels, k, count, count);
    means_are_nearest(frame_sum(frames, 4 * pixels, k, count), count);
}

proof fn lemma_frames_total(frames: Seq<u8>, pixels: int, k: int, n: int, count: int)
    requires
        0 <= n <= count,
        0 <= k < pixels,
        frames.len() == 4 * pixels * count,
    ensures
        frame_sum(frames, 4 * pixels, k, n) == frames_total(frames, pixels, k, n),
        0 <= frame_sum(frames, 4 * pixels, k, n) <= 255 * n,
    decreases n,
{
    if n > 0 {
        lemma_frames_total(frames, pixels, k, n - 1, count);
        let b = 4 * pixels;
        assert(0 <= b * (n - 1) && b * n == b * (n - 1) + b && b * n <= b * count && (n - 1) * b
            == b * (n - 1)) by (nonlinear_arith)
            requires
                0 < n <= count,
                b >= 0,
        ;
        assert(frames.subrange(b * (n - 1), b * n)[4 * k] == frames[b * (n - 1) + 4 * k]);
    }
}

/// Images may be up to 4096 pixels wide and high, and must have four bytes for each
/// pixel. What is resized must be able to hold a symbol: 21 pixels at least.
pub proof fn images_have_bounded_sides(width: u32, height: u32, bytes: nat)
    ensures
        dimension_refusal(width, height, bytes) is None <==> 1 <= width <= 4096 && 1 <= height
            <= 4096 && bytes == 4 * (width * height),
        target_refusal(width, height) is None <==> 21 <= width <= 4096 && 21 <= height <= 4096,
{
    if 1 <= width <= 4096 && 1 <= height <= 4096 {
        assert(width * height <= 16_777_216) by (nonlinear_arith)
            requires
                1 <= width <= 4096,
                1 <= height <= 4096,
        ;
    }
}

} // verus!
