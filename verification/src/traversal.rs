//! The order in which codeword bits run through a symbol.

use vstd::prelude::*;

use crate::count::{
    column_functions, count, function_column, functions_before, lemma_count_complement,
    lemma_count_split, lemma_function_total, lemma_timing_column,
};
use crate::error::QrError;
use crate::function_pattern::{
    check_symbol, function_map, function_matrix_of, is_function, lemma_cell, symbol_refusal,
};
use crate::layout::{level_named, raw_data_modules, symbol_side, symbol_size_native, valid_version};

verus! {

/// How many pairs of columns a symbol has, the timing column left out.
pub open spec fn pair_count(version: int) -> int {
    2 * version + 8
}

/// The right column of the `k`-th pair, counted from the right edge; the
/// timing column belongs to no pair.
pub open spec fn pair_right(version: int, k: int) -> int {
    if symbol_side(version) - 1 - 2 * k > 6 {
        symbol_side(version) - 1 - 2 * k
    } else {
        symbol_side(version) - 2 - 2 * k
    }
}

/// The `m`-th module of the `k`-th pair: upward and downward pairs alternate,
/// and each row is read from the right.
pub open spec fn pair_module(version: int, k: int, m: int) -> (int, int) {
    (
        pair_right(version, k) - m % 2,
        if k % 2 == 0 {
            symbol_side(version) - 1 - m / 2
        } else {
            m / 2
        },
    )
}

/// The data modules among the first `m` modules of the `k`-th pair.
pub open spec fn pair_data(version: int, k: int, m: int) -> Seq<(u16, u16)>
    decreases m,
{
    if m <= 0 {
        Seq::empty()
    } else {
        let (x, y) = pair_module(version, k, m - 1);
        if is_function(version, x, y) {
            pair_data(version, k, m - 1)
        } else {
            pair_data(version, k, m - 1).push((x as u16, y as u16))
        }
    }
}

/// The data modules of the first `k` pairs.
pub open spec fn pairs_data(version: int, k: int) -> Seq<(u16, u16)>
    decreases k,
{
    if k <= 0 {
        Seq::empty()
    } else {
        pairs_data(version, k - 1) + pair_data(version, k - 1, 2 * symbol_side(version))
    }
}

/// The data modules of a symbol as column and row, in the order in which they
/// take codeword bits.
pub open spec fn coordinates(version: int) -> Seq<(u16, u16)> {
    pairs_data(version, pair_count(version))
}

spec fn data_column(version: int, x: int) -> spec_fn(int) -> bool {
    |y: int| !is_function(version, x, y)
}

/// How many data modules the two columns of a pair have in the given rows.
spec fn pair_rows(version: int, k: int, lo: int, hi: int) -> int {
    count(data_column(version, pair_right(version, k)), lo, hi) + count(
        data_column(version, pair_right(version, k) - 1),
        lo,
        hi,
    )
}

proof fn lemma_pair_len(version: int, k: int, rows: int)
    requires
        0 <= rows <= symbol_side(version),
    ensures
        pair_data(version, k, 2 * rows).len() == (if k % 2 == 0 {
            pair_rows(version, k, symbol_side(version) - rows, symbol_side(version))
        } else {
            pair_rows(version, k, 0, rows)
        }),
    decreases rows,
{
    if rows > 0 {
        lemma_pair_len(version, k, rows - 1);
        reveal_with_fuel(pair_data, 3);
        let r = pair_right(version, k);
        let m = 2 * rows;
        assert((m - 1) / 2 == rows - 1 && (m - 1) % 2 == 1);
        assert((m - 2) / 2 == rows - 1 && (m - 2) % 2 == 0);
        if k % 2 == 0 {
            let side = symbol_side(version);
            let y = side - rows;
            lemma_count_split(data_column(version, r), y, y + 1, side);
            lemma_count_split(data_column(version, r - 1), y, y + 1, side);
            reveal_with_fuel(count, 2);
            assert(count(data_column(version, r), y, y) == 0);
            assert(count(data_column(version, r - 1), y, y) == 0);
        }
    }
}

proof fn lemma_column_complement(version: int, x: int)
    requires
        valid_version(version),
    ensures
        count(data_column(version, x), 0, symbol_side(version)) == symbol_side(version)
            - column_functions(version, x),
{
    let data = data_column(version, x);
    let functions = function_column(version, x);
    assert forall|y: int| 0 <= y < symbol_side(version) implies #[trigger] data(y) == !functions(
        y,
    ) by {
    }
    lemma_count_complement(data, functions, 0, symbol_side(version));
}

/// The pairs read so far hold the data modules of all columns to the right of
/// the next pair.
proof fn lemma_pairs_len(version: int, k: int)
    requires
        valid_version(version),
        0 <= k <= pair_count(version),
    ensures
        ({
            let side = symbol_side(version);
            let next = if side - 2 * k > 6 {
                side - 2 * k
            } else {
                side - 1 - 2 * k
            };
            pairs_data(version, k).len() == (side - next) * side - (functions_before(version, side)
                - functions_before(version, next))
        }),
    decreases k,
{
    let side = symbol_side(version);
    if k > 0 {
        lemma_pairs_len(version, k - 1);
        lemma_pair_len(version, k - 1, side);
        let r = pair_right(version, k - 1);
        lemma_column_complement(version, r);
        lemma_column_complement(version, r - 1);
        let before = if side - 2 * (k - 1) > 6 {
            side - 2 * (k - 1)
        } else {
            side - 1 - 2 * (k - 1)
        };
        let next = if side - 2 * k > 6 {
            side - 2 * k
        } else {
            side - 1 - 2 * k
        };
        reveal_with_fuel(functions_before, 4);
        if before == 7 {
            lemma_timing_column(version);
            assert(next == 4);
            assert((side - next) * side == (side - before) * side + 3 * side) by (nonlinear_arith)
                requires
                    next == before - 3,
            ;
        } else {
            assert(next == before - 2);
            assert((side - next) * side == (side - before) * side + 2 * side) by (nonlinear_arith)
                requires
                    next == before - 2,
            ;
        }
    } else {
        assert((side - side) * side == 0);
    }
}

/// The traversal reaches as many data modules as the capacity says.
pub proof fn coordinates_fill_capacity(version: int)
    requires
        valid_version(version),
    ensures
        coordinates(version).len() == raw_data_modules(version),
{
    lemma_pairs_len(version, pair_count(version));
    lemma_function_total(version);
    assert(functions_before(version, 0) == 0);
}

/// Column and row of a traversed module as integers.
pub open spec fn at(coordinate: (u16, u16)) -> (int, int) {
    (coordinate.0 as int, coordinate.1 as int)
}

proof fn lemma_pair_module(version: int, k: int, m: int)
    requires
        valid_version(version),
        0 <= k < pair_count(version),
        0 <= m < 2 * symbol_side(version),
    ensures
        0 <= pair_module(version, k, m).0 < symbol_side(version),
        0 <= pair_module(version, k, m).1 < symbol_side(version),
{
}

/// Each member of a pair's data is one of its modules.
proof fn lemma_pair_members(version: int, k: int, m: int, i: int) -> (source: int)
    requires
        valid_version(version),
        0 <= k < pair_count(version),
        0 <= m <= 2 * symbol_side(version),
        0 <= i < pair_data(version, k, m).len(),
    ensures
        0 <= source < m,
        at(pair_data(version, k, m)[i]) == pair_module(version, k, source),
        !is_function(
            version,
            pair_module(version, k, source).0,
            pair_module(version, k, source).1,
        ),
    decreases m,
{
    let previous = pair_data(version, k, m - 1);
    lemma_pair_module(version, k, m - 1);
    if i < previous.len() {
        lemma_pair_members(version, k, m - 1, i)
    } else {
        m - 1
    }
}

proof fn lemma_pair_distinct(version: int, k: int, m: int, i: int, j: int)
    requires
        valid_version(version),
        0 <= k < pair_count(version),
        0 <= m <= 2 * symbol_side(version),
        0 <= i < j < pair_data(version, k, m).len(),
    ensures
        pair_data(version, k, m)[i] != pair_data(version, k, m)[j],
    decreases m,
{
    let previous = pair_data(version, k, m - 1);
    if j < previous.len() {
        lemma_pair_distinct(version, k, m - 1, i, j);
    } else {
        lemma_pair_module(version, k, m - 1);
        let source = lemma_pair_members(version, k, m - 1, i);
        assert(pair_module(version, k, source) != pair_module(version, k, m - 1));
    }
}

/// Each traversed module belongs to one of the pairs.
proof fn lemma_pairs_members(version: int, k: int, i: int) -> (source: (int, int))
    requires
        valid_version(version),
        0 <= k <= pair_count(version),
        0 <= i < pairs_data(version, k).len(),
    ensures
        0 <= source.0 < k,
        0 <= source.1 < 2 * symbol_side(version),
        at(pairs_data(version, k)[i]) == pair_module(version, source.0, source.1),
        !is_function(
            version,
            at(pairs_data(version, k)[i]).0,
            at(pairs_data(version, k)[i]).1,
        ),
    decreases k,
{
    let previous = pairs_data(version, k - 1);
    if i < previous.len() {
        lemma_pairs_members(version, k - 1, i)
    } else {
        let m = lemma_pair_members(
            version,
            k - 1,
            2 * symbol_side(version),
            i - previous.len(),
        );
        (k - 1, m)
    }
}

proof fn lemma_pairs_distinct(version: int, k: int, i: int, j: int)
    requires
        valid_version(version),
        0 <= k <= pair_count(version),
        0 <= i < j < pairs_data(version, k).len(),
    ensures
        pairs_data(version, k)[i] != pairs_data(version, k)[j],
    decreases k,
{
    let previous = pairs_data(version, k - 1);
    let side = symbol_side(version);
    if j < previous.len() {
        lemma_pairs_distinct(version, k - 1, i, j);
    } else if i >= previous.len() {
        lemma_pair_distinct(version, k - 1, 2 * side, i - previous.len(), j - previous.len());
    } else {
        let a = lemma_pairs_members(version, k - 1, i);
        let b = lemma_pair_members(version, k - 1, 2 * side, j - previous.len());
        assert(pair_right(version, a.0) >= pair_right(version, k - 1) + 2);
    }
}

/// The traversal visits data modules only, and none twice.
pub proof fn coordinates_distinct(version: int)
    requires
        valid_version(version),
    ensures
        forall|i: int|
            0 <= i < coordinates(version).len() ==> {
                let (x, y) = at(#[trigger] coordinates(version)[i]);
                &&& 0 <= x < symbol_side(version)
                &&& 0 <= y < symbol_side(version)
                &&& !is_function(version, x, y)
            },
        forall|i: int, j: int|
            0 <= i < coordinates(version).len() && 0 <= j < coordinates(version).len() && i != j
                ==> #[trigger] coordinates(version)[i] != #[trigger] coordinates(version)[j],
{
    let list = coordinates(version);
    let k = pair_count(version);
    assert forall|i: int| 0 <= i < list.len() implies {
        let (x, y) = at(#[trigger] list[i]);
        &&& 0 <= x < symbol_side(version)
        &&& 0 <= y < symbol_side(version)
        &&& !is_function(version, x, y)
    } by {
        let (p, m) = lemma_pairs_members(version, k, i);
        lemma_pair_module(version, p, m);
    }
    assert forall|i: int, j: int|
        0 <= i < list.len() && 0 <= j < list.len() && i != j implies #[trigger] list[i]
        != #[trigger] list[j] by {
        if i < j {
            lemma_pairs_distinct(version, k, i, j);
        } else {
            lemma_pairs_distinct(version, k, j, i);
        }
    }
}

proof fn lemma_pair_reached(version: int, k: int, m: int, source: int) -> (i: int)
    requires
        0 <= source < m,
        !is_function(
            version,
            pair_module(version, k, source).0,
            pair_module(version, k, source).1,
        ),
        valid_version(version),
        0 <= k < pair_count(version),
        m <= 2 * symbol_side(version),
    ensures
        0 <= i < pair_data(version, k, m).len(),
        at(pair_data(version, k, m)[i]) == pair_module(version, k, source),
    decreases m,
{
    if source == m - 1 {
        lemma_pair_module(version, k, source);
        pair_data(version, k, m).len() - 1
    } else {
        lemma_pair_reached(version, k, m - 1, source)
    }
}

proof fn lemma_pairs_reached(version: int, k: int, source: (int, int)) -> (i: int)
    requires
        valid_version(version),
        0 <= source.0 < k <= pair_count(version),
        0 <= source.1 < 2 * symbol_side(version),
        !is_function(
            version,
            pair_module(version, source.0, source.1).0,
            pair_module(version, source.0, source.1).1,
        ),
    ensures
        0 <= i < pairs_data(version, k).len(),
        at(pairs_data(version, k)[i]) == pair_module(version, source.0, source.1),
    decreases k,
{
    if source.0 == k - 1 {
        let j = lemma_pair_reached(version, k - 1, 2 * symbol_side(version), source.1);
        pairs_data(version, k - 1).len() + j
    } else {
        lemma_pairs_reached(version, k - 1, source)
    }
}

/// The traversal visits every data module.
pub proof fn coordinates_complete(version: int, x: int, y: int)
    requires
        valid_version(version),
        0 <= x < symbol_side(version),
        0 <= y < symbol_side(version),
        !is_function(version, x, y),
    ensures
        coordinates(version).contains((x as u16, y as u16)),
{
    let side = symbol_side(version);
    lemma_timing_column(version);
    assert(x != 6);
    let k = if x > 6 {
        (side - 1 - x) / 2
    } else {
        (side - 2 - x) / 2
    };
    let offset = pair_right(version, k) - x;
    assert(0 <= offset <= 1);
    let row = if k % 2 == 0 {
        side - 1 - y
    } else {
        y
    };
    let m = 2 * row + offset;
    assert(m / 2 == row && m % 2 == offset);
    assert(pair_module(version, k, m) == (x, y));
    let i = lemma_pairs_reached(version, pair_count(version), (k, m));
    assert(coordinates(version)[i] == (x as u16, y as u16));
}

pub(crate) fn coordinates_of(version: u8, functions: &Vec<bool>) -> (list: Vec<(u16, u16)>)
    requires
        valid_version(version as int),
        functions@ == function_map(version as int),
    ensures
        list@ == coordinates(version as int),
{
    let ghost v = version as int;
    let side: usize = match symbol_size_native(version) {
        Ok(size) => size as usize,
        Err(_) => 0,
    };
    let pairs: usize = 2 * version as usize + 8;
    let mut list: Vec<(u16, u16)> = Vec::new();
    let mut pair: usize = 0;
    while pair < pairs
        invariant
            v == version,
            valid_version(v),
            side == symbol_side(v),
            pairs == pair_count(v),
            functions@ == function_map(v),
            pair <= pairs,
            list@ == pairs_data(v, pair as int),
        decreases pairs - pair,
    {
        let right: usize = if side - 1 - 2 * pair > 6 {
            side - 1 - 2 * pair
        } else {
            side - 2 - 2 * pair
        };
        let upward: bool = pair % 2 == 0;
        let mut vertical: usize = 0;
        while vertical < side
            invariant
                v == version,
                valid_version(v),
                side == symbol_side(v),
                pairs == pair_count(v),
                functions@ == function_map(v),
                pair < pairs,
                right == pair_right(v, pair as int),
                upward == (pair % 2 == 0),
                vertical <= side,
                list@ == pairs_data(v, pair as int) + pair_data(v, pair as int, 2 * vertical),
            decreases side - vertical,
        {
            let y: usize = if upward {
                side - 1 - vertical
            } else {
                vertical
            };
            let mut offset: usize = 0;
            while offset < 2
                invariant
                    v == version,
                    valid_version(v),
                    side == symbol_side(v),
                    pairs == pair_count(v),
                    functions@ == function_map(v),
                    pair < pairs,
                    right == pair_right(v, pair as int),
                    upward == (pair % 2 == 0),
                    vertical < side,
                    y == (if upward {
                        side - 1 - vertical
                    } else {
                        vertical as int
                    }),
                    offset <= 2,
                    list@ == pairs_data(v, pair as int) + pair_data(
                        v,
                        pair as int,
                        2 * vertical + offset,
                    ),
                decreases 2 - offset,
            {
                let x: usize = right - offset;
                proof {
                    let m = 2 * vertical + offset;
                    assert(m / 2 == vertical && m % 2 == offset);
                    assert(pair_module(v, pair as int, m) == (x as int, y as int));
                    lemma_cell(side as int, x as int, y as int);
                    assert(side * side <= 177 * 177) by (nonlinear_arith)
                        requires
                            0 <= side <= 177,
                    ;
                    assert(0 <= y * side) by (nonlinear_arith)
                        requires
                            0 <= y,
                            0 <= side,
                    ;
                }
                if !functions[y * side + x] {
                    list.push((x as u16, y as u16));
                }
                offset += 1;
                assert(list@ =~= pairs_data(v, pair as int) + pair_data(
                    v,
                    pair as int,
                    2 * vertical + offset,
                ));
            }
            vertical += 1;
        }
        pair += 1;
    }
    list
}

/// The data modules of a symbol as column and row, in traversal order.
pub fn data_coordinates_native(version: u8, ec_level: &str, mask: u8) -> (list: Result<
    Vec<(u16, u16)>,
    QrError,
>)
    ensures
        list is Ok <==> valid_version(version as int) && mask <= 7 && level_named(
            ec_level@,
        ) is Some,
        list matches Ok(modules) ==> modules@ == coordinates(version as int),
        list matches Err(error) ==> error == symbol_refusal(version, mask),
{
    match check_symbol(version, ec_level, mask) {
        Ok(level) => {
            let (_, functions) = function_matrix_of(version, level, mask);
            Ok(coordinates_of(version, &functions))
        },
        Err(error) => Err(error),
    }
}

/// Column and row of each data module in turn, in one list.
pub open spec fn flat_coordinates(version: int) -> Seq<u16> {
    Seq::new(
        2 * coordinates(version).len(),
        |i: int|
            if i % 2 == 0 {
                coordinates(version)[i / 2].0
            } else {
                coordinates(version)[i / 2].1
            },
    )
}

/// Flattened x,y pairs in standard QR data traversal order.
pub fn data_coordinates(version: u8, ec_level: &str, mask: u8) -> (flat: Result<
    Vec<u16>,
    QrError,
>)
    ensures
        flat is Ok <==> valid_version(version as int) && mask <= 7 && level_named(
            ec_level@,
        ) is Some,
        flat matches Ok(values) ==> values@ == flat_coordinates(version as int),
        flat matches Err(error) ==> error == symbol_refusal(version, mask),
{
    let list: Vec<(u16, u16)> = match data_coordinates_native(version, ec_level, mask) {
        Ok(list) => list,
        Err(error) => {
            return Err(error);
        },
    };
    let mut flat: Vec<u16> = Vec::new();
    let mut i: usize = 0;
    while i < list.len()
        invariant
            list@ == coordinates(version as int),
            i <= list@.len(),
            flat@ == flat_coordinates(version as int).take(2 * i),
        decreases list@.len() - i,
    {
        let (x, y) = list[i];
        flat.push(x);
        flat.push(y);
        proof {
            assert((2 * i) / 2 == i && (2 * i) % 2 == 0);
            assert((2 * i + 1) / 2 == i && (2 * i + 1) % 2 == 1);
            assert(flat@ =~= flat_coordinates(version as int).take(2 * (i + 1)));
        }
        i += 1;
    }
    assert(flat_coordinates(version as int).take(2 * i) =~= flat_coordinates(version as int));
    Ok(flat)
}

} // verus!
