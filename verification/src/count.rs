//! Counting function modules column by column.

use vstd::prelude::*;

use crate::function_pattern::{alignment_centre, alignment_module, alignment_ring, is_function};
use crate::layout::{
    alignment_count, alignment_position, alignment_positions_spread, raw_data_modules, symbol_side,
    valid_version,
};

verus! {

/// How many integers in `lo..hi` satisfy `f`.
pub open spec fn count(f: spec_fn(int) -> bool, lo: int, hi: int) -> int
    decreases hi - lo,
{
    if hi <= lo {
        0
    } else {
        count(f, lo, hi - 1) + (if f(hi - 1) {
            1int
        } else {
            0
        })
    }
}

pub proof fn lemma_count_split(f: spec_fn(int) -> bool, lo: int, mid: int, hi: int)
    requires
        lo <= mid <= hi,
    ensures
        count(f, lo, hi) == count(f, lo, mid) + count(f, mid, hi),
    decreases hi - mid,
{
    if mid < hi {
        lemma_count_split(f, lo, mid, hi - 1);
    }
}

pub proof fn lemma_count_same(
    f: spec_fn(int) -> bool,
    g: spec_fn(int) -> bool,
    lo: int,
    hi: int,
)
    requires
        forall|t: int| lo <= t < hi ==> #[trigger] f(t) == g(t),
    ensures
        count(f, lo, hi) == count(g, lo, hi),
    decreases hi - lo,
{
    if lo < hi {
        lemma_count_same(f, g, lo, hi - 1);
    }
}

pub proof fn lemma_count_all(f: spec_fn(int) -> bool, lo: int, hi: int)
    requires
        lo <= hi,
        forall|t: int| lo <= t < hi ==> #[trigger] f(t),
    ensures
        count(f, lo, hi) == hi - lo,
    decreases hi - lo,
{
    if lo < hi {
        lemma_count_all(f, lo, hi - 1);
    }
}

pub proof fn lemma_count_none(f: spec_fn(int) -> bool, lo: int, hi: int)
    requires
        forall|t: int| lo <= t < hi ==> !#[trigger] f(t),
    ensures
        count(f, lo, hi) == 0,
    decreases hi - lo,
{
    if lo < hi {
        lemma_count_none(f, lo, hi - 1);
    }
}

pub proof fn lemma_count_complement(
    f: spec_fn(int) -> bool,
    g: spec_fn(int) -> bool,
    lo: int,
    hi: int,
)
    requires
        lo <= hi,
        forall|t: int| lo <= t < hi ==> #[trigger] f(t) == !g(t),
    ensures
        count(f, lo, hi) + count(g, lo, hi) == hi - lo,
    decreases hi - lo,
{
    if lo < hi {
        lemma_count_complement(f, g, lo, hi - 1);
    }
}

proof fn lemma_count_union(
    f: spec_fn(int) -> bool,
    g: spec_fn(int) -> bool,
    h: spec_fn(int) -> bool,
    lo: int,
    hi: int,
)
    requires
        forall|t: int| lo <= t < hi ==> #[trigger] h(t) == (f(t) || g(t)),
        forall|t: int| lo <= t < hi ==> !(#[trigger] f(t) && g(t)),
    ensures
        count(h, lo, hi) == count(f, lo, hi) + count(g, lo, hi),
    decreases hi - lo,
{
    if lo < hi {
        lemma_count_union(f, g, h, lo, hi - 1);
    }
}

proof fn lemma_count_interval(f: spec_fn(int) -> bool, lo: int, a: int, b: int, hi: int)
    requires
        lo <= a <= b <= hi,
        forall|t: int| lo <= t < hi ==> #[trigger] f(t) == (a <= t < b),
    ensures
        count(f, lo, hi) == b - a,
{
    lemma_count_split(f, lo, a, hi);
    lemma_count_split(f, a, b, hi);
    lemma_count_none(f, lo, a);
    lemma_count_all(f, a, b);
    lemma_count_none(f, b, hi);
}

spec fn in_band(version: int, i: int, t: int) -> bool {
    &&& 0 <= i < alignment_count(version)
    &&& -2 <= t - alignment_position(version, i) <= 2
}

/// Whether `t` is within two modules of an alignment centre other than the
/// first, up to the `last`-th.
spec fn banded(version: int, last: int, t: int) -> bool {
    exists|i: int| 1 <= i < last && #[trigger] in_band(version, i, t)
}

spec fn bands(version: int, last: int) -> spec_fn(int) -> bool {
    |t: int| banded(version, last, t)
}

proof fn lemma_bands_count(version: int, last: int, hi: int)
    requires
        2 <= version <= 40,
        1 <= last <= alignment_count(version),
        9 <= hi,
        last == 1 || alignment_position(version, last - 1) + 2 < hi,
    ensures
        count(bands(version, last), 9, hi) == 5 * (last - 1),
    decreases last,
{
    if last == 1 {
        lemma_count_none(bands(version, last), 9, hi);
    } else {
        let i = last - 1;
        let centre = alignment_position(version, i);
        alignment_positions_spread(version, 0, i);
        if i > 1 {
            alignment_positions_spread(version, i - 1, i);
        }
        lemma_bands_count(version, i, hi);
        let one = |t: int| in_band(version, i, t);
        lemma_count_interval(one, 9, centre - 2, centre + 3, hi);
        assert forall|t: int| 9 <= t < hi implies #[trigger] bands(version, last)(t) == (
        bands(version, i)(t) || one(t)) by {
            if banded(version, last, t) {
                let j = choose|j: int| 1 <= j < last && #[trigger] in_band(version, j, t);
                assert(in_band(version, j, t));
            }
            if one(t) {
                assert(in_band(version, i, t));
            }
        }
        assert forall|t: int| 9 <= t < hi implies !(#[trigger] bands(version, i)(t) && one(t)) by {
            if banded(version, i, t) {
                let j = choose|j: int| 1 <= j < i && #[trigger] in_band(version, j, t);
                alignment_positions_spread(version, j, i);
            }
        }
        lemma_count_union(bands(version, i), one, bands(version, last), 9, hi);
    }
}

spec fn middle_bands(version: int) -> int {
    if version == 1 {
        0
    } else {
        5 * (alignment_count(version) - 2)
    }
}

spec fn all_bands(version: int) -> int {
    if version == 1 {
        0
    } else {
        5 * (alignment_count(version) - 1)
    }
}

proof fn lemma_band_counts(version: int)
    requires
        valid_version(version),
    ensures
        count(bands(version, alignment_count(version)), 9, symbol_side(version)) == all_bands(
            version,
        ),
        count(bands(version, alignment_count(version) - 1), 9, symbol_side(version) - 8)
            == middle_bands(version),
{
    let n = alignment_count(version);
    let side = symbol_side(version);
    if version == 1 {
        lemma_count_none(bands(version, n), 9, side);
        lemma_count_none(bands(version, n - 1), 9, side - 8);
    } else {
        alignment_positions_spread(version, 0, n - 1);
        lemma_bands_count(version, n, side);
        if n > 2 {
            alignment_positions_spread(version, n - 2, n - 1);
        }
        lemma_bands_count(version, n - 1, side - 8);
    }
}

proof fn lemma_alignment(version: int, x: int, y: int)
    ensures
        alignment_module(version, x, y) is Some <==> exists|c: int, r: int|
            alignment_centre(version, c, r) && #[trigger] in_band(version, c, x)
                && #[trigger] in_band(version, r, y),
{
    if alignment_module(version, x, y) is Some {
        let (c, r) = choose|c: int, r: int|
            alignment_centre(version, c, r) && #[trigger] alignment_ring(version, x, y, c, r) <= 2;
        assert(in_band(version, c, x) && in_band(version, r, y));
    }
    if exists|c: int, r: int|
        alignment_centre(version, c, r) && #[trigger] in_band(version, c, x) && #[trigger] in_band(
            version,
            r,
            y,
        ) {
        let (c, r) = choose|c: int, r: int|
            alignment_centre(version, c, r) && #[trigger] in_band(version, c, x)
                && #[trigger] in_band(version, r, y);
        assert(alignment_ring(version, x, y, c, r) <= 2);
    }
}

/// Where a band lies tells its index.
proof fn lemma_band_place(version: int, i: int, t: int)
    requires
        valid_version(version),
        in_band(version, i, t),
    ensures
        version >= 2,
        t < 9 <==> i == 0,
        t < 9 ==> 4 <= t <= 8,
        t >= symbol_side(version) - 9 <==> i == alignment_count(version) - 1,
        t >= symbol_side(version) - 19 || i < alignment_count(version) - 1,
        i < alignment_count(version) - 1 ==> t <= symbol_side(version) - 17,
{
    let n = alignment_count(version);
    if i < n - 1 {
        alignment_positions_spread(version, i, n - 1);
    } else {
        alignment_positions_spread(version, 0, n - 1);
    }
    if i > 0 {
        alignment_positions_spread(version, 0, i);
    }
}

/// Swapping the coordinates maps function modules to function modules.
proof fn lemma_symmetric(version: int, x: int, y: int)
    ensures
        is_function(version, x, y) == is_function(version, y, x),
{
    lemma_alignment(version, x, y);
    lemma_alignment(version, y, x);
    if alignment_module(version, x, y) is Some {
        let (c, r) = choose|c: int, r: int|
            alignment_centre(version, c, r) && #[trigger] in_band(version, c, x)
                && #[trigger] in_band(version, r, y);
        assert(alignment_centre(version, r, c) && in_band(version, r, y) && in_band(
            version,
            c,
            x,
        ));
    }
    if alignment_module(version, y, x) is Some {
        let (c, r) = choose|c: int, r: int|
            alignment_centre(version, c, r) && #[trigger] in_band(version, c, y)
                && #[trigger] in_band(version, r, x);
        assert(alignment_centre(version, r, c) && in_band(version, r, x) && in_band(
            version,
            c,
            y,
        ));
    }
}

/// Next to a finder pattern every module is a function module.
proof fn lemma_corner(version: int, x: int, y: int)
    requires
        valid_version(version),
        0 <= x < 9,
        0 <= y < 9 || symbol_side(version) - 8 <= y < symbol_side(version),
    ensures
        is_function(version, x, y),
        is_function(version, y, x),
{
    lemma_symmetric(version, x, y);
}

/// The first nine columns between the finder patterns.
proof fn lemma_left(version: int, x: int, y: int)
    requires
        valid_version(version),
        0 <= x < 9,
        9 <= y < symbol_side(version) - 8,
    ensures
        is_function(version, x, y) <==> {
            ||| version >= 7 && x < 6 && y >= symbol_side(version) - 11
            ||| x == 6
            ||| 4 <= x <= 8 && banded(version, alignment_count(version) - 1, y)
        },
{
    let n = alignment_count(version);
    lemma_alignment(version, x, y);
    if alignment_module(version, x, y) is Some {
        let (c, r) = choose|c: int, r: int|
            alignment_centre(version, c, r) && #[trigger] in_band(version, c, x)
                && #[trigger] in_band(version, r, y);
        lemma_band_place(version, c, x);
        lemma_band_place(version, r, y);
        assert(in_band(version, r, y));
    }
    if 4 <= x <= 8 && banded(version, n - 1, y) {
        let r = choose|r: int| 1 <= r < n - 1 && #[trigger] in_band(version, r, y);
        assert(in_band(version, 0, x));
        assert(alignment_centre(version, 0, r));
    }
}

/// Beyond the first nine rows and columns only alignment patterns remain.
proof fn lemma_inner(version: int, x: int, y: int)
    requires
        valid_version(version),
        9 <= x < symbol_side(version),
        9 <= y < symbol_side(version),
    ensures
        is_function(version, x, y) <==> banded(version, alignment_count(version), x) && banded(
            version,
            alignment_count(version),
            y,
        ),
{
    let n = alignment_count(version);
    lemma_alignment(version, x, y);
    if alignment_module(version, x, y) is Some {
        let (c, r) = choose|c: int, r: int|
            alignment_centre(version, c, r) && #[trigger] in_band(version, c, x)
                && #[trigger] in_band(version, r, y);
        lemma_band_place(version, c, x);
        lemma_band_place(version, r, y);
        assert(in_band(version, c, x) && in_band(version, r, y));
    }
    if banded(version, n, x) && banded(version, n, y) {
        let c = choose|c: int| 1 <= c < n && #[trigger] in_band(version, c, x);
        let r = choose|r: int| 1 <= r < n && #[trigger] in_band(version, r, y);
        assert(alignment_centre(version, c, r));
    }
}

/// The function modules of column `x`, by row.
pub open spec fn function_column(version: int, x: int) -> spec_fn(int) -> bool {
    |y: int| is_function(version, x, y)
}

/// How many function modules column `x` has.
pub open spec fn column_functions(version: int, x: int) -> int {
    count(function_column(version, x), 0, symbol_side(version))
}

/// How many function modules the first `k` columns have.
pub open spec fn functions_before(version: int, k: int) -> int
    decreases k,
{
    if k <= 0 {
        0
    } else {
        functions_before(version, k - 1) + column_functions(version, k - 1)
    }
}

spec fn has_version(version: int) -> int {
    if version >= 7 {
        1
    } else {
        0
    }
}

proof fn lemma_left_column(version: int, x: int)
    requires
        valid_version(version),
        0 <= x < 9,
    ensures
        column_functions(version, x) == 17 + (if x == 6 {
            symbol_side(version) - 17
        } else {
            (if x < 6 {
                3 * has_version(version)
            } else {
                0
            }) + (if x >= 4 {
                middle_bands(version)
            } else {
                0
            })
        }),
{
    let side = symbol_side(version);
    let n = alignment_count(version);
    let f = function_column(version, x);
    lemma_count_split(f, 0, 9, side);
    lemma_count_split(f, 9, side - 8, side);
    assert forall|y: int| 0 <= y < 9 || side - 8 <= y < side implies #[trigger] f(y) by {
        lemma_corner(version, x, y);
    }
    lemma_count_all(f, 0, 9);
    lemma_count_all(f, side - 8, side);
    assert forall|y: int| 9 <= y < side - 8 implies #[trigger] f(y) == {
        ||| version >= 7 && x < 6 && y >= side - 11
        ||| x == 6
        ||| 4 <= x <= 8 && bands(version, n - 1)(y)
    } by {
        lemma_left(version, x, y);
    }
    if x == 6 {
        lemma_count_all(f, 9, side - 8);
    } else {
        lemma_band_counts(version);
        let info = |y: int| version >= 7 && x < 6 && side - 11 <= y < side - 8;
        let near = |y: int| 4 <= x && bands(version, n - 1)(y);
        assert forall|y: int| 9 <= y < side - 8 implies !(#[trigger] info(y) && near(y)) by {
            if banded(version, n - 1, y) {
                let r = choose|r: int| 1 <= r < n - 1 && #[trigger] in_band(version, r, y);
                lemma_band_place(version, r, y);
            }
        }
        lemma_count_union(info, near, f, 9, side - 8);
        if version >= 7 && x < 6 {
            lemma_count_interval(info, 9, side - 11, side - 8, side - 8);
        } else {
            lemma_count_none(info, 9, side - 8);
        }
        if 4 <= x {
            lemma_count_same(near, bands(version, n - 1), 9, side - 8);
        } else {
            lemma_count_none(near, 9, side - 8);
        }
    }
}

proof fn lemma_below(version: int, x: int)
    requires
        valid_version(version),
        9 <= x < symbol_side(version),
    ensures
        count(function_column(version, x), 9, symbol_side(version)) == (if banded(
            version,
            alignment_count(version),
            x,
        ) {
            all_bands(version)
        } else {
            0
        }),
{
    let side = symbol_side(version);
    let n = alignment_count(version);
    let f = function_column(version, x);
    assert forall|y: int| 9 <= y < side implies #[trigger] f(y) == (banded(version, n, x) && bands(
        version,
        n,
    )(y)) by {
        lemma_inner(version, x, y);
    }
    if banded(version, n, x) {
        lemma_count_same(f, bands(version, n), 9, side);
        lemma_band_counts(version);
    } else {
        lemma_count_none(f, 9, side);
    }
}

proof fn lemma_middle_column(version: int, x: int)
    requires
        valid_version(version),
        9 <= x < symbol_side(version) - 8,
    ensures
        column_functions(version, x) == 1 + (if x >= symbol_side(version) - 11 {
            6 * has_version(version)
        } else {
            0
        }) + (if banded(version, alignment_count(version) - 1, x) {
            4int
        } else {
            0
        }) + (if banded(version, alignment_count(version), x) {
            all_bands(version)
        } else {
            0
        }),
{
    let side = symbol_side(version);
    let n = alignment_count(version);
    let f = function_column(version, x);
    lemma_count_split(f, 0, 9, side);
    lemma_below(version, x);
    let near = banded(version, n - 1, x);
    let info = version >= 7 && x >= side - 11;
    if near {
        let c = choose|c: int| 1 <= c < n - 1 && #[trigger] in_band(version, c, x);
        lemma_band_place(version, c, x);
    }
    assert forall|y: int| 0 <= y < 9 implies #[trigger] f(y) == {
        ||| info && y < 6
        ||| y == 6
        ||| 4 <= y <= 8 && near
    } by {
        lemma_symmetric(version, x, y);
        lemma_left(version, y, x);
    }
    reveal_with_fuel(count, 10);
}

proof fn lemma_right_column(version: int, x: int)
    requires
        valid_version(version),
        symbol_side(version) - 8 <= x < symbol_side(version),
    ensures
        column_functions(version, x) == 9 + (if banded(version, alignment_count(version), x) {
            all_bands(version)
        } else {
            0
        }),
{
    let side = symbol_side(version);
    let f = function_column(version, x);
    lemma_count_split(f, 0, 9, side);
    lemma_below(version, x);
    assert forall|y: int| 0 <= y < 9 implies #[trigger] f(y) by {
        lemma_corner(version, y, x);
    }
    lemma_count_all(f, 0, 9);
}

proof fn lemma_left_columns(version: int)
    requires
        valid_version(version),
    ensures
        functions_before(version, 9) == 153 + 18 * has_version(version) + 4 * middle_bands(version)
            + symbol_side(version) - 17,
{
    reveal_with_fuel(functions_before, 10);
    lemma_left_column(version, 0);
    lemma_left_column(version, 1);
    lemma_left_column(version, 2);
    lemma_left_column(version, 3);
    lemma_left_column(version, 4);
    lemma_left_column(version, 5);
    lemma_left_column(version, 6);
    lemma_left_column(version, 7);
    lemma_left_column(version, 8);
}

proof fn lemma_middle_columns(version: int, k: int)
    requires
        valid_version(version),
        9 <= k <= symbol_side(version) - 8,
    ensures
        functions_before(version, k) == functions_before(version, 9) + (k - 9) + (if version
            >= 7 && k > symbol_side(version) - 11 {
            6 * (k - (symbol_side(version) - 11))
        } else {
            0
        }) + 4 * count(bands(version, alignment_count(version) - 1), 9, k) + all_bands(version)
            * count(bands(version, alignment_count(version)), 9, k),
    decreases k,
{
    let all = bands(version, alignment_count(version));
    if k == 9 {
        assert(all_bands(version) * 0 == 0);
    } else {
        lemma_middle_columns(version, k - 1);
        lemma_middle_column(version, k - 1);
        let c = count(all, 9, k - 1);
        assert(all_bands(version) * (c + 1) == all_bands(version) * c + all_bands(version))
            by (nonlinear_arith);
    }
}

proof fn lemma_right_columns(version: int, k: int)
    requires
        valid_version(version),
        symbol_side(version) - 8 <= k <= symbol_side(version),
    ensures
        functions_before(version, k) == functions_before(version, symbol_side(version) - 8) + 9 * (k
            - (symbol_side(version) - 8)) + all_bands(version) * (count(
            bands(version, alignment_count(version)),
            9,
            k,
        ) - count(bands(version, alignment_count(version)), 9, symbol_side(version) - 8)),
    decreases k,
{
    let side = symbol_side(version);
    let all = bands(version, alignment_count(version));
    let start = count(all, 9, side - 8);
    if k == side - 8 {
        assert(all_bands(version) * (start - start) == 0);
    } else {
        lemma_right_columns(version, k - 1);
        lemma_right_column(version, k - 1);
        let c = count(all, 9, k - 1);
        assert(all_bands(version) * (c + 1 - start) == all_bands(version) * (c - start) + all_bands(
            version,
        )) by (nonlinear_arith);
    }
}

/// The modules that are not function modules are as many as the capacity says.
pub proof fn lemma_function_total(version: int)
    requires
        valid_version(version),
    ensures
        symbol_side(version) * symbol_side(version) - functions_before(
            version,
            symbol_side(version),
        ) == raw_data_modules(version),
{
    let side = symbol_side(version);
    let n = alignment_count(version);
    let all = bands(version, n);
    lemma_left_columns(version);
    lemma_middle_columns(version, side - 8);
    lemma_right_columns(version, side);
    lemma_band_counts(version);
    let b = all_bands(version);
    let c = count(all, 9, side - 8);
    assert(b * c + b * (b - c) == b * b) by (nonlinear_arith);
    assert(side * side == 16 * (version * version) + 136 * version + 289) by (nonlinear_arith)
        requires
            side == 4 * version + 17,
    ;
    assert((16 * version + 128) * version == 16 * (version * version) + 128 * version)
        by (nonlinear_arith);
    if version > 1 {
        assert(b * b == 25 * (n * n) - 50 * n + 25) by (nonlinear_arith)
            requires
                b == 5 * (n - 1),
        ;
        assert((25 * n - 10) * n == 25 * (n * n) - 10 * n) by (nonlinear_arith);
    } else {
        assert(b * b == 0);
    }
}

/// Column 6 holds no data: timing runs through it from finder to finder.
pub proof fn lemma_timing_column(version: int)
    requires
        valid_version(version),
    ensures
        column_functions(version, 6) == symbol_side(version),
        forall|y: int| 0 <= y < symbol_side(version) ==> is_function(version, 6, y),
{
    lemma_left_column(version, 6);
    assert forall|y: int| 0 <= y < symbol_side(version) implies is_function(version, 6, y) by {
        if 9 <= y < symbol_side(version) - 8 {
            lemma_left(version, 6, y);
        } else {
            lemma_corner(version, 6, y);
        }
    }
}

} // verus!
