//! Which level, mask and version a grid may show.

use vstd::prelude::*;

use crate::bch::{format_word, format_word_of, format_word_shows_data, format_words_distinct};
use crate::codewords::{drawing_keeps_functions, symbol_matrix};
use crate::function_pattern::{
    format_index, function_map, function_matrix, function_matrix_of, function_module, lemma_cell,
    version_index,
};
use crate::grids::{
    are_grids, grid_models, is_grid, lemma_weighed, lemma_weighed_grows, module_weight, share,
    share_of, weigh, weighed, GridModel, ModuleGrid, LEAST_WEIGHT, SHARE_UNIT,
};
use crate::layout::{symbol_side, valid_version, EcLevel};
use crate::order::{in_order, sorted_indices_in_order, stable_order, stable_order_of};
use crate::rounding::{lemma_rounded_monotone, rounded, spacing, SINGLE, SINGLE_SUM};

verus! {

/// A module that carries a bit of the format word.
pub ghost struct FormatPlace {
    pub x: int,
    pub y: int,
    pub bit: int,
}

/// The thirty modules that carry the format word, twice over.
pub open spec fn format_place(side: int, i: int) -> FormatPlace {
    if i < 6 {
        FormatPlace { x: 8, y: i, bit: i }
    } else if i < 8 {
        FormatPlace { x: 8, y: i + 1, bit: i }
    } else if i == 8 {
        FormatPlace { x: 7, y: 8, bit: 8 }
    } else if i < 15 {
        FormatPlace { x: 14 - i, y: 8, bit: i }
    } else if i < 23 {
        FormatPlace { x: side - 1 - (i - 15), y: 8, bit: i - 15 }
    } else {
        FormatPlace { x: 8, y: side - 15 + (i - 15), bit: i - 15 }
    }
}

/// Bit `bit` of a format word, as a module.
pub open spec fn format_bit(word: u16, bit: int) -> u8 {
    if (word >> bit as u16) & 1 != 0 {
        1
    } else {
        0
    }
}

/// Whether a format module does not show its bit.
pub open spec fn format_differs(modules: Seq<u8>, side: int, word: u16, i: int) -> bool {
    let place = format_place(side, i);
    modules[place.y * side + place.x] != format_bit(word, place.bit)
}

/// How many of the first `n` format modules do not show their bits.
pub open spec fn differing(modules: Seq<u8>, side: int, word: u16, n: int) -> int
    decreases n,
{
    if n <= 0 {
        0
    } else {
        differing(modules, side, word, n - 1) + (if format_differs(modules, side, word, n - 1) {
            1int
        } else {
            0
        })
    }
}

/// How far modules are from showing a format.
pub open spec fn format_distance(modules: Seq<u8>, side: int, level: EcLevel, mask: int) -> int {
    differing(modules, side, format_word(level, mask), 30)
}

/// The levels in the order in which they are tried.
pub open spec fn level_at(i: int) -> EcLevel {
    if i == 0 {
        EcLevel::L
    } else if i == 1 {
        EcLevel::M
    } else if i == 2 {
        EcLevel::Q
    } else {
        EcLevel::H
    }
}

/// How far modules are from showing each of the thirty-two formats.
pub open spec fn format_distances(modules: Seq<u8>, side: int) -> Seq<i64> {
    Seq::new(32, |f: int| format_distance(modules, side, level_at(f / 8), f % 8) as i64)
}

/// The formats by distance, and those of equal distance in their own order.
pub open spec fn ranked_formats(modules: Seq<u8>, side: int) -> Seq<usize> {
    stable_order(format_distances(modules, side))
}

proof fn lemma_differing(modules: Seq<u8>, side: int, word: u16, n: int)
    ensures
        0 <= differing(modules, side, word, n),
        n >= 0 ==> differing(modules, side, word, n) <= n,
    decreases n,
{
    if n > 0 {
        lemma_differing(modules, side, word, n - 1);
    }
}

/// One of the thirty modules that carry the format word, with its place in the
/// row-by-row order.
fn format_module(side: usize, i: usize) -> (place: (usize, u16))
    requires
        21 <= side <= 177,
        i < 30,
    ensures
        ({
            let expected = format_place(side as int, i as int);
            &&& place.0 == expected.y * side + expected.x
            &&& place.1 == expected.bit
            &&& place.0 < side * side
            &&& place.1 < 15
        }),
{
    let (x, y, bit): (usize, usize, usize) = if i < 6 {
        (8, i, i)
    } else if i < 8 {
        (8, i + 1, i)
    } else if i == 8 {
        (7, 8, 8)
    } else if i < 15 {
        (14 - i, 8, i)
    } else if i < 23 {
        (side - 1 - (i - 15), 8, i - 15)
    } else {
        (8, side - 15 + (i - 15), i - 15)
    };
    proof {
        lemma_cell(side as int, x as int, y as int);
        assert(side * side <= 177 * 177) by (nonlinear_arith)
            requires
                side <= 177,
        ;
    }
    assert(0 <= y * side) by (nonlinear_arith);
    (y * side + x, bit as u16)
}

/// How far modules are from showing a format.
fn distance_of(modules: &[u8], side: usize, level: EcLevel, mask: u8) -> (distance: usize)
    requires
        21 <= side <= 177,
        modules@.len() == side * side,
        mask <= 7,
    ensures
        distance == format_distance(modules@, side as int, level, mask as int),
        distance <= 30,
{
    let word: u16 = format_word_of(level, mask);
    let mut distance: usize = 0;
    let mut i: usize = 0;
    while i < 30
        invariant
            21 <= side <= 177,
            modules@.len() == side * side,
            i <= 30,
            distance <= i,
            distance == differing(modules@, side as int, word, i as int),
        decreases 30 - i,
    {
        let (at, bit): (usize, u16) = format_module(side, i);
        let expected: u8 = if (word >> bit) & 1 != 0 {
            1
        } else {
            0
        };
        if modules[at] != expected {
            distance += 1;
        }
        i += 1;
    }
    distance
}

fn level_number(i: usize) -> (level: EcLevel)
    ensures
        level == level_at(i as int),
{
    if i == 0 {
        EcLevel::L
    } else if i == 1 {
        EcLevel::M
    } else if i == 2 {
        EcLevel::Q
    } else {
        EcLevel::H
    }
}

fn distances_of(modules: &[u8], side: usize) -> (distances: Vec<i64>)
    requires
        21 <= side <= 177,
        modules@.len() == side * side,
    ensures
        distances@ == format_distances(modules@, side as int),
        forall|f: int| 0 <= f < 32 ==> 0 <= #[trigger] distances@[f] <= 30,
{
    let mut distances: Vec<i64> = Vec::new();
    let mut f: usize = 0;
    while f < 32
        invariant
            21 <= side <= 177,
            modules@.len() == side * side,
            f <= 32,
            distances@.len() == f,
            forall|g: int|
                0 <= g < f ==> #[trigger] distances@[g] == format_distance(
                    modules@,
                    side as int,
                    level_at(g / 8),
                    g % 8,
                ),
            forall|g: int| 0 <= g < f ==> 0 <= #[trigger] distances@[g] <= 30,
        decreases 32 - f,
    {
        let distance: usize = distance_of(modules, side, level_number(f / 8), (f % 8) as u8);
        distances.push(distance as i64);
        f += 1;
    }
    assert(distances@ =~= format_distances(modules@, side as int));
    distances
}

/// A format that a grid may show, and how well the rest of the symbol fits.
#[derive(Clone, Copy, Debug)]
pub struct Hypothesis {
    /// The share of the weight of the function modules that is wrong.
    pub error: u64,
    /// How many format modules are wrong.
    pub distance: usize,
    /// Which grid it is about.
    pub grid: usize,
    pub version: u8,
    pub level: EcLevel,
    pub mask: u8,
    pub deformed: bool,
}

/// The weight of the function modules among the first `n`.
pub open spec fn function_weight(grid: GridModel, n: int) -> int
    decreases n,
{
    if n <= 0 {
        0
    } else if function_map(grid.version)[n - 1] {
        weighed(function_weight(grid, n - 1), module_weight(grid.confidence[n - 1]))
    } else {
        function_weight(grid, n - 1)
    }
}

/// The weight of the function modules among the first `n` that are not what a
/// symbol of the given format has there.
pub open spec fn function_error(grid: GridModel, level: EcLevel, mask: int, n: int) -> int
    decreases n,
{
    if n <= 0 {
        0
    } else if function_map(grid.version)[n - 1] && grid.modules[n - 1] != function_matrix(
        grid.version,
        level,
        mask,
    )[n - 1] {
        weighed(
            function_error(grid, level, mask, n - 1),
            module_weight(grid.confidence[n - 1]),
        )
    } else {
        function_error(grid, level, mask, n - 1)
    }
}

/// What is supposed of a grid when it shows format `f`.
pub open spec fn supposed(grid: GridModel, place: int, f: int, distance: int) -> Hypothesis {
    let n = grid.modules.len() as int;
    Hypothesis {
        error: share(
            function_error(grid, level_at(f / 8), f % 8, n),
            function_weight(grid, n),
        ) as u64,
        distance: distance as usize,
        grid: place as usize,
        version: grid.version as u8,
        level: level_at(f / 8),
        mask: (f % 8) as u8,
        deformed: grid.deformed,
    }
}

/// Whether a format is close enough to be tried. A deformed symbol may be eight
/// modules off, a flat one four more than the best.
pub open spec fn is_close(distance: int, best: int, deformed: bool) -> bool {
    if deformed {
        distance <= 8
    } else {
        distance <= best + 4
    }
}

/// The hypotheses about a grid from the first `n` ranks of formats: of the
/// expected level if there is one, close enough, and only so many.
pub open spec fn grid_hypotheses(
    grid: GridModel,
    place: int,
    expected: Option<EcLevel>,
    n: int,
) -> Seq<Hypothesis>
    decreases n,
{
    if n <= 0 {
        Seq::empty()
    } else {
        let side = symbol_side(grid.version);
        let distances = format_distances(grid.modules, side);
        let ranks = ranked_formats(grid.modules, side);
        let before = grid_hypotheses(grid, place, expected, n - 1);
        let f = ranks[n - 1] as int;
        let limit = if grid.deformed {
            32int
        } else {
            6
        };
        if before.len() < limit && (expected is None || expected == Some(level_at(f / 8)))
            && is_close(distances[f] as int, distances[ranks[0] as int] as int, grid.deformed) {
            before.push(supposed(grid, place, f, distances[f] as int))
        } else {
            before
        }
    }
}

/// Whether a hypothesis fits better than another: less of its function modules
/// is wrong, or as much and fewer format modules.
pub open spec fn fits_better(a: Hypothesis, b: Hypothesis) -> bool {
    a.error < b.error || (a.error == b.error && a.distance < b.distance)
}

/// A hypothesis put into a list behind everything it does not fit better than.
pub open spec fn with_hypothesis(list: Seq<Hypothesis>, hypothesis: Hypothesis) -> Seq<Hypothesis>
    decreases list.len(),
{
    if list.len() == 0 || !fits_better(hypothesis, list.last()) {
        list.push(hypothesis)
    } else {
        with_hypothesis(list.drop_last(), hypothesis).push(list.last())
    }
}

/// The first `n` hypotheses by how well they fit, and those that fit equally
/// well in their own order.
pub open spec fn by_fit(list: Seq<Hypothesis>, n: int) -> Seq<Hypothesis>
    decreases n,
{
    if n <= 0 {
        Seq::empty()
    } else {
        with_hypothesis(by_fit(list, n - 1), list[n - 1])
    }
}

/// The hypotheses about the first `n` grids, grid by grid.
pub open spec fn all_hypotheses(
    grids: Seq<GridModel>,
    expected: Option<EcLevel>,
    n: int,
) -> Seq<Hypothesis>
    decreases n,
{
    if n <= 0 {
        Seq::empty()
    } else {
        all_hypotheses(grids, expected, n - 1) + grid_hypotheses(grids[n - 1], n - 1, expected, 32)
    }
}

/// The hypotheses about grids, the best first.
pub open spec fn hypotheses(grids: Seq<GridModel>, expected: Option<EcLevel>) -> Seq<Hypothesis> {
    let all = all_hypotheses(grids, expected, grids.len() as int);
    by_fit(all, all.len() as int)
}

/// Whether a hypothesis is about one of the grids.
pub open spec fn is_about(hypothesis: Hypothesis, grids: Seq<GridModel>) -> bool {
    &&& hypothesis.grid < grids.len()
    &&& hypothesis.version == grids[hypothesis.grid as int].version
    &&& hypothesis.deformed == grids[hypothesis.grid as int].deformed
    &&& hypothesis.mask <= 7
    &&& hypothesis.distance <= 30
    &&& hypothesis.error <= SHARE_UNIT
}

/// Whether all hypotheses are about the grids.
pub open spec fn are_about(list: Seq<Hypothesis>, grids: Seq<GridModel>) -> bool {
    forall|i: int| 0 <= i < list.len() ==> is_about(#[trigger] list[i], grids)
}

proof fn lemma_function_sums(grid: GridModel, level: EcLevel, mask: int, n: int)
    requires
        0 <= n,
    ensures
        0 <= function_error(grid, level, mask, n) <= function_weight(grid, n) <= SINGLE_SUM,
        rounded(function_weight(grid, n), SINGLE as int) == function_weight(grid, n),
    decreases n,
{
    let single = SINGLE as int;
    if n > 0 {
        lemma_function_sums(grid, level, mask, n - 1);
        let more = module_weight(grid.confidence[n - 1]);
        let (error, weight) = (
            function_error(grid, level, mask, n - 1),
            function_weight(grid, n - 1),
        );
        lemma_weighed(error, more);
        lemma_weighed_grows(weight, more);
        lemma_rounded_monotone(error + more, weight + more, single);
    } else {
        assert(rounded(0, single) == 0) by {
            assert(spacing(0, single) == 1);
        }
    }
}

proof fn lemma_grid_size(version: int)
    requires
        valid_version(version),
    ensures
        21 <= symbol_side(version) <= 177,
        441 <= symbol_side(version) * symbol_side(version) <= 31329,
{
    let side = symbol_side(version);
    assert(441 <= side * side <= 31329) by (nonlinear_arith)
        requires
            21 <= side <= 177,
    ;
}

/// Weighs the function modules of a grid against a format.
fn weigh_functions(grid: &ModuleGrid, level: EcLevel, mask: u8) -> (wrong: u64)
    requires
        is_grid(grid@),
        mask <= 7,
    ensures
        wrong == share(
            function_error(grid@, level, mask as int, grid@.modules.len() as int),
            function_weight(grid@, grid@.modules.len() as int),
        ),
        wrong <= SHARE_UNIT,
{
    proof {
        lemma_grid_size(grid@.version);
    }
    let (expected, functions): (Vec<u8>, Vec<bool>) = function_matrix_of(
        grid.version,
        level,
        mask,
    );
    let mut error: u128 = 0;
    let mut weight: u128 = 0;
    let mut i: usize = 0;
    while i < grid.modules.len()
        invariant
            is_grid(grid@),
            grid@.modules.len() <= 31329,
            expected@ == function_matrix(grid@.version, level, mask as int),
            functions@ == function_map(grid@.version),
            expected@.len() == grid@.modules.len(),
            functions@.len() == grid@.modules.len(),
            i <= grid@.modules.len(),
            error == function_error(grid@, level, mask as int, i as int),
            weight == function_weight(grid@, i as int),
        decreases grid@.modules.len() - i,
    {
        proof {
            lemma_function_sums(grid@, level, mask as int, i as int);
        }
        if functions[i] {
            let confidence: u32 = grid.confidence[i];
            let reliability: u32 = if confidence < LEAST_WEIGHT {
                LEAST_WEIGHT
            } else {
                confidence
            };
            weight = weigh(weight, reliability);
            if grid.modules[i] != expected[i] {
                error = weigh(error, reliability);
            }
        }
        i += 1;
    }
    proof {
        lemma_function_sums(grid@, level, mask as int, i as int);
    }
    share_of(error, weight)
}

/// The hypotheses about one grid.
fn suppose(grid: &ModuleGrid, place: usize, expected: Option<EcLevel>) -> (list: Vec<Hypothesis>)
    requires
        is_grid(grid@),
    ensures
        list@ == grid_hypotheses(grid@, place as int, expected, 32),
        list@.len() <= 32,
        forall|i: int|
            0 <= i < list@.len() ==> {
                let h = #[trigger] list@[i];
                &&& h.grid == place
                &&& h.version == grid@.version
                &&& h.deformed == grid@.deformed
                &&& h.mask <= 7
                &&& h.distance <= 30
                &&& h.error <= SHARE_UNIT
            },
{
    let side: usize = 4 * grid.version as usize + 17;
    let distances: Vec<i64> = distances_of(grid.modules.as_slice(), side);
    let ranks: Vec<usize> = stable_order_of(&distances);
    proof {
        sorted_indices_in_order(distances@, 32);
        lemma_grid_size(grid@.version);
    }
    assert(ranks@.len() == 32);
    let best: i64 = distances[ranks[0]];
    let limit: usize = if grid.deformed {
        32
    } else {
        6
    };
    let mut list: Vec<Hypothesis> = Vec::new();
    let mut n: usize = 0;
    while n < 32
        invariant
            is_grid(grid@),
            side == symbol_side(grid@.version),
            n <= 32,
            list@.len() <= n,
            limit == (if grid.deformed {
                32int
            } else {
                6
            }),
            distances@ == format_distances(grid@.modules, side as int),
            distances@.len() == 32,
            ranks@ == ranked_formats(grid@.modules, side as int),
            ranks@.len() == 32,
            in_order(ranks@, distances@, 32),
            best == distances@[ranks@[0] as int],
            forall|f: int| 0 <= f < 32 ==> 0 <= #[trigger] distances@[f] <= 30,
            list@ == grid_hypotheses(grid@, place as int, expected, n as int),
            forall|i: int|
                0 <= i < list@.len() ==> {
                    let h = #[trigger] list@[i];
                    &&& h.grid == place
                    &&& h.version == grid@.version
                    &&& h.deformed == grid@.deformed
                    &&& h.mask <= 7
                    &&& h.distance <= 30
                    &&& h.error <= SHARE_UNIT
                },
        decreases 32 - n,
    {
        let f: usize = ranks[n];
        assert(0 <= f < 32);
        let distance: i64 = distances[f];
        let level: EcLevel = level_number(f / 8);
        let wanted: bool = match expected {
            Some(hint) => hint == level,
            None => true,
        };
        let close: bool = if grid.deformed {
            distance <= 8
        } else {
            distance <= best + 4
        };
        if list.len() < limit && wanted && close {
            let mask: u8 = (f % 8) as u8;
            let error: u64 = weigh_functions(grid, level, mask);
            list.push(
                Hypothesis {
                    error,
                    distance: distance as usize,
                    grid: place,
                    version: grid.version,
                    level,
                    mask,
                    deformed: grid.deformed,
                },
            );
        }
        n += 1;
    }
    list
}

fn better(a: &Hypothesis, b: &Hypothesis) -> (result: bool)
    ensures
        result == fits_better(*a, *b),
{
    a.error < b.error || (a.error == b.error && a.distance < b.distance)
}

proof fn lemma_with_hypothesis_at(list: Seq<Hypothesis>, hypothesis: Hypothesis, at: int)
    requires
        0 <= at <= list.len(),
        at == 0 || !fits_better(hypothesis, list[at - 1]),
        forall|i: int| at <= i < list.len() ==> fits_better(hypothesis, #[trigger] list[i]),
    ensures
        with_hypothesis(list, hypothesis) == list.insert(at, hypothesis),
    decreases list.len(),
{
    if at == list.len() {
        assert(list.insert(at, hypothesis) =~= list.push(hypothesis));
    } else {
        assert(list.last() == list[list.len() - 1]);
        lemma_with_hypothesis_at(list.drop_last(), hypothesis, at);
        assert(list.insert(at, hypothesis) =~= list.drop_last().insert(at, hypothesis).push(
            list.last(),
        ));
    }
}

fn place_hypothesis(list: &mut Vec<Hypothesis>, hypothesis: Hypothesis)
    ensures
        final(list)@ == with_hypothesis(old(list)@, hypothesis),
        final(list)@.len() == old(list)@.len() + 1,
        forall|i: int|
            0 <= i < final(list)@.len() ==> #[trigger] final(list)@[i] == hypothesis
                || old(list)@.contains(final(list)@[i]),
{
    let mut at: usize = list.len();
    while at > 0 && better(&hypothesis, &list[at - 1])
        invariant
            list@ == old(list)@,
            at <= list@.len(),
            forall|i: int| at <= i < list@.len() ==> fits_better(hypothesis, #[trigger] list@[i]),
        decreases at,
    {
        at -= 1;
    }
    proof {
        lemma_with_hypothesis_at(list@, hypothesis, at as int);
        let next = list@.insert(at as int, hypothesis);
        assert forall|i: int| 0 <= i < next.len() implies #[trigger] next[i] == hypothesis
            || list@.contains(next[i]) by {
            if i < at {
                assert(list@.contains(list@[i]));
            } else if i > at {
                assert(list@.contains(list@[i - 1]));
            }
        }
    }
    list.insert(at, hypothesis);
}

/// Lists the hypotheses about grids, the best first.
pub fn rank_hypotheses(grids: &Vec<ModuleGrid>, expected: Option<EcLevel>) -> (list: Vec<
    Hypothesis,
>)
    requires
        are_grids(grid_models(grids@)),
    ensures
        list@ == hypotheses(grid_models(grids@), expected),
        are_about(list@, grid_models(grids@)),
        list@.len() <= 32 * grids@.len(),
{
    let ghost models = grid_models(grids@);
    let mut list: Vec<Hypothesis> = Vec::new();
    let ghost mut all: Seq<Hypothesis> = Seq::empty();
    let mut i: usize = 0;
    while i < grids.len()
        invariant
            models == grid_models(grids@),
            are_grids(models),
            i <= grids@.len(),
            all == all_hypotheses(models, expected, i as int),
            list@ == by_fit(all, all.len() as int),
            list@.len() == all.len(),
            all.len() <= 32 * i,
            are_about(list@, models),
        decreases grids@.len() - i,
    {
        assert(is_grid(models[i as int]));
        let found: Vec<Hypothesis> = suppose(&grids[i], i, expected);
        let ghost before = all;
        let mut j: usize = 0;
        while j < found.len()
            invariant
                models == grid_models(grids@),
                i < grids@.len(),
                j <= found@.len(),
                all == before + found@.take(j as int),
                list@ == by_fit(all, all.len() as int),
                list@.len() == all.len(),
                are_about(list@, models),
                forall|k: int| 0 <= k < found@.len() ==> is_about(#[trigger] found@[k], models),
            decreases found@.len() - j,
        {
            let ghost earlier = all;
            let ghost was = list@;
            proof {
                all = all.push(found@[j as int]);
                assert(found@.take(j + 1) =~= found@.take(j as int).push(found@[j as int]));
                assert(all =~= before + found@.take(j + 1));
                lemma_by_fit_prefix(earlier, all, earlier.len() as int);
            }
            let hypothesis: Hypothesis = found[j];
            assert(is_about(found@[j as int], models));
            place_hypothesis(&mut list, hypothesis);
            proof {
                assert forall|k: int| 0 <= k < list@.len() implies is_about(
                    #[trigger] list@[k],
                    models,
                ) by {
                    if list@[k] != hypothesis {
                        let m = was.index_of(list@[k]);
                        assert(was[m] == list@[k]);
                    }
                }
            }
            j += 1;
        }
        assert(found@.take(found@.len() as int) =~= found@);
        i += 1;
    }
    list
}

proof fn lemma_by_fit_prefix(a: Seq<Hypothesis>, b: Seq<Hypothesis>, n: int)
    requires
        0 <= n <= a.len(),
        n <= b.len(),
        forall|i: int| 0 <= i < n ==> a[i] == b[i],
    ensures
        by_fit(a, n) == by_fit(b, n),
    decreases n,
{
    if n > 0 {
        lemma_by_fit_prefix(a, b, n - 1);
    }
}

/// A drawn symbol shows its own format in every format module.
pub proof fn drawn_format_is_exact(codewords: Seq<u8>, version: int, level: EcLevel, mask: int)
    requires
        valid_version(version),
    ensures
        format_distance(
            symbol_matrix(codewords, version, level, mask),
            symbol_side(version),
            level,
            mask,
        ) == 0,
{
    lemma_exact_prefix(codewords, version, level, mask, 30);
}

proof fn lemma_exact_prefix(codewords: Seq<u8>, version: int, level: EcLevel, mask: int, n: int)
    requires
        valid_version(version),
        0 <= n <= 30,
    ensures
        differing(
            symbol_matrix(codewords, version, level, mask),
            symbol_side(version),
            format_word(level, mask),
            n,
        ) == 0,
    decreases n,
{
    if n > 0 {
        lemma_exact_prefix(codewords, version, level, mask, n - 1);
        let side = symbol_side(version);
        let place = format_place(side, n - 1);
        lemma_cell(side, place.x, place.y);
        assert(format_index(version, place.x, place.y) == Some(place.bit));
        assert(version_index(version, place.x, place.y) is None);
        assert(!(place.x == 8 && place.y == side - 8));
        assert(function_module(version, level, mask, place.x, place.y) == Some(
            (format_word(level, mask) >> place.bit as u16) & 1 != 0,
        ));
        assert(!format_differs(
            symbol_matrix(codewords, version, level, mask),
            side,
            format_word(level, mask),
            n - 1,
        ));
    }
}

/// A drawn symbol has no wrong function module.
pub proof fn drawn_functions_are_exact(
    codewords: Seq<u8>,
    version: int,
    level: EcLevel,
    mask: int,
    confidence: Seq<u32>,
    deformed: bool,
    n: int,
)
    requires
        valid_version(version),
        0 <= n <= symbol_side(version) * symbol_side(version),
    ensures
        function_error(
            (GridModel {
                version,
                modules: symbol_matrix(codewords, version, level, mask),
                confidence,
                deformed,
            }),
            level,
            mask,
            n,
        ) == 0,
    decreases n,
{
    if n > 0 {
        drawn_functions_are_exact(codewords, version, level, mask, confidence, deformed, n - 1);
        let side = symbol_side(version);
        let k = n - 1;
        let (x, y) = (k % side, k / side);
        vstd::arithmetic::div_mod::lemma_fundamental_div_mod(k, side);
        assert(0 <= y < side) by (nonlinear_arith)
            requires
                0 <= k < side * side,
                y == k / side,
                0 < side,
        ;
        assert(y * side + x == k) by (nonlinear_arith)
            requires
                k == side * (k / side) + k % side,
                y == k / side,
                x == k % side,
        ;
        if function_map(version)[k] {
            drawing_keeps_functions(codewords, version, level, mask, x, y);
        }
    }
}

/// No format but its own is shown exactly by a drawn symbol.
pub proof fn drawn_format_is_unique(
    codewords: Seq<u8>,
    version: int,
    level: EcLevel,
    mask: int,
    other_level: EcLevel,
    other_mask: int,
)
    requires
        valid_version(version),
        0 <= mask <= 7,
        0 <= other_mask <= 7,
        format_distance(
            symbol_matrix(codewords, version, level, mask),
            symbol_side(version),
            other_level,
            other_mask,
        ) == 0,
    ensures
        other_level == level,
        other_mask == mask,
{
    let side = symbol_side(version);
    let modules = symbol_matrix(codewords, version, level, mask);
    let (own, other) = (format_word(level, mask), format_word(other_level, other_mask));
    drawn_format_is_exact(codewords, version, level, mask);
    lemma_no_difference(modules, side, own, 30);
    lemma_no_difference(modules, side, other, 30);
    assert forall|i: int| 0 <= i < 15 implies (#[trigger] format_bit(own, i)) == format_bit(
        other,
        i,
    ) by {
        assert(!format_differs(modules, side, own, i));
        assert(!format_differs(modules, side, other, i));
    }
    format_word_shows_data(level, mask);
    format_word_shows_data(other_level, other_mask);
    lemma_same_bits(own, other);
    format_words_distinct(level, mask, other_level, other_mask);
}

proof fn lemma_same_bits(a: u16, b: u16)
    requires
        a < 0x8000,
        b < 0x8000,
        forall|i: int| 0 <= i < 15 ==> (#[trigger] format_bit(a, i)) == format_bit(b, i),
    ensures
        a == b,
{
    assert forall|i: u16| i < 15 implies ((#[trigger] (a >> i)) & 1 != 0) == ((b >> i) & 1
        != 0) by {
        assert(format_bit(a, i as int) == format_bit(b, i as int));
    }
    assert(a == b) by (bit_vector)
        requires
            a < 0x8000,
            b < 0x8000,
            ((a >> 0u16) & 1 != 0) == ((b >> 0u16) & 1 != 0),
            ((a >> 1u16) & 1 != 0) == ((b >> 1u16) & 1 != 0),
            ((a >> 2u16) & 1 != 0) == ((b >> 2u16) & 1 != 0),
            ((a >> 3u16) & 1 != 0) == ((b >> 3u16) & 1 != 0),
            ((a >> 4u16) & 1 != 0) == ((b >> 4u16) & 1 != 0),
            ((a >> 5u16) & 1 != 0) == ((b >> 5u16) & 1 != 0),
            ((a >> 6u16) & 1 != 0) == ((b >> 6u16) & 1 != 0),
            ((a >> 7u16) & 1 != 0) == ((b >> 7u16) & 1 != 0),
            ((a >> 8u16) & 1 != 0) == ((b >> 8u16) & 1 != 0),
            ((a >> 9u16) & 1 != 0) == ((b >> 9u16) & 1 != 0),
            ((a >> 10u16) & 1 != 0) == ((b >> 10u16) & 1 != 0),
            ((a >> 11u16) & 1 != 0) == ((b >> 11u16) & 1 != 0),
            ((a >> 12u16) & 1 != 0) == ((b >> 12u16) & 1 != 0),
            ((a >> 13u16) & 1 != 0) == ((b >> 13u16) & 1 != 0),
            ((a >> 14u16) & 1 != 0) == ((b >> 14u16) & 1 != 0),
    ;
}

proof fn lemma_no_difference(modules: Seq<u8>, side: int, word: u16, n: int)
    requires
        differing(modules, side, word, n) == 0,
    ensures
        forall|i: int| 0 <= i < n ==> !#[trigger] format_differs(modules, side, word, i),
    decreases n,
{
    if n > 0 {
        lemma_differing(modules, side, word, n - 1);
        lemma_no_difference(modules, side, word, n - 1);
    }
}

} // verus!
