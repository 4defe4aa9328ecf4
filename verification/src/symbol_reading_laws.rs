//! A symbol that is seen as it was drawn is read, and what else is read.

use vstd::prelude::*;

use crate::candidates::Corrected;
use crate::codewords::{reading_undoes_drawing, shown_reliability, symbol_matrix};
use crate::correction::{
    best, block_search, clean_blocks_lead, hard_outcome, leads_unchanged, unchanged, ErasureOutcome,
    Limits,
};
use crate::formats::{
    all_hypotheses, by_fit, drawn_format_is_exact, drawn_format_is_unique, format_distance,
    format_distances, grid_hypotheses, hypotheses, level_at, ranked_formats, supposed,
    with_hypothesis, Hypothesis,
};
use crate::grids::GridModel;
use crate::interleave::{deinterleaved, deinterleaved_reliability};
use crate::layout::{layout, symbol_side, total_codewords, valid_version, EcLevel};
use crate::order::{comes_before, lemma_before_irreflexive};
use crate::reading::{
    attempt_limit, by_payload, decoded, deformed_found, deformed_reading, deformed_readings,
    hypothesis_hard, hypothesis_streams, outcomes_at, payloads_in_order, readings_are_listed_once,
    repeated, standard_hypotheses, standard_readings, stream_reading, stream_readings,
    verified_payload, Variant,
};
use crate::reading_laws::{lemma_hypotheses_grow, lemma_ranks};
use crate::recovery_result::Candidate;
use crate::result_laws::{evidence_among, lemma_evidence_absent, listing_keeps_evidence};
use crate::stream_laws::{lemma_lists, word_lists};
use crate::streams::{
    all_changes_cost, attempts_left, lemma_clean_found, outcomes_for, streams_found,
    RESULTS_PER_BLOCK,
};

verus! {

/// Whether the decoder takes every block of a stream for what it is.
pub open spec fn all_decode_to_themselves(
    codewords: Seq<u8>,
    version: int,
    level: EcLevel,
) -> bool {
    let specs = layout(version, level);
    forall|b: int|
        0 <= b < specs.len() ==> hard_outcome(
            #[trigger] deinterleaved(codewords, specs)[b],
            specs[b].ecc_codewords as int,
            0,
        ) == Some(unchanged(deinterleaved(codewords, specs)[b]))
}

proof fn lemma_lists_lead(
    codewords: Seq<u8>,
    reliability: Seq<u32>,
    version: int,
    level: EcLevel,
    uncertain_bits: int,
    max_attempts: int,
    outcomes: Seq<Vec<Option<ErasureOutcome>>>,
    n: int,
)
    requires
        0 <= n <= layout(version, level).len(),
        all_decode_to_themselves(codewords, version, level),
        all_changes_cost(outcomes, deinterleaved(codewords, layout(version, level))),
    ensures
        ({
            let searched = word_lists(
                codewords,
                reliability,
                version,
                level,
                uncertain_bits,
                max_attempts,
                outcomes,
                n,
            );
            let blocks = deinterleaved(codewords, layout(version, level));
            &&& !searched.failed
            &&& searched.lists.len() == n
            &&& forall|b: int|
                0 <= b < n ==> leads_unchanged(#[trigger] searched.lists[b], blocks[b])
        }),
    decreases n,
{
    if n > 0 {
        lemma_lists_lead(
            codewords,
            reliability,
            version,
            level,
            uncertain_bits,
            max_attempts,
            outcomes,
            n - 1,
        );
        let specs = layout(version, level);
        let blocks = deinterleaved(codewords, specs);
        let before = word_lists(
            codewords,
            reliability,
            version,
            level,
            uncertain_bits,
            max_attempts,
            outcomes,
            n - 1,
        );
        let after = word_lists(
            codewords,
            reliability,
            version,
            level,
            uncertain_bits,
            max_attempts,
            outcomes,
            n,
        );
        let limits = Limits {
            attempts: attempts_left(max_attempts, before.attempts),
            results: RESULTS_PER_BLOCK as int,
        };
        let block = blocks[n - 1];
        assert(hard_outcome(block, specs[n - 1].ecc_codewords as int, 0) == Some(unchanged(block)));
        clean_blocks_lead(
            block,
            deinterleaved_reliability(reliability, specs)[n - 1],
            specs[n - 1].ecc_codewords as int,
            uncertain_bits,
            limits,
            outcomes_for(outcomes, n - 1),
        );
        let list = best(
            block_search(
                block,
                deinterleaved_reliability(reliability, specs)[n - 1],
                specs[n - 1].ecc_codewords as int,
                uncertain_bits,
                limits,
                outcomes_for(outcomes, n - 1),
            ).found,
            RESULTS_PER_BLOCK as int,
        );
        assert(after.lists == before.lists.push(list));
    }
}

/// A stream whose blocks the decoder takes for what they are is found first, as it
/// is and for free.
pub proof fn clean_streams_are_found_first(
    codewords: Seq<u8>,
    reliability: Seq<u32>,
    version: int,
    level: EcLevel,
    uncertain_bits: int,
    max_attempts: int,
    max_combinations: int,
    outcomes: Seq<Vec<Option<ErasureOutcome>>>,
)
    requires
        valid_version(version),
        codewords.len() == total_codewords(version),
        all_decode_to_themselves(codewords, version, level),
        all_changes_cost(outcomes, deinterleaved(codewords, layout(version, level))),
        max_combinations > 0,
    ensures
        ({
            let streams = streams_found(
                codewords,
                reliability,
                version,
                level,
                uncertain_bits,
                max_attempts,
                max_combinations,
                outcomes,
            ).0;
            streams.len() > 0 && streams[0] == unchanged(codewords)
        }),
{
    let n = layout(version, level).len() as int;
    lemma_lists_lead(
        codewords,
        reliability,
        version,
        level,
        uncertain_bits,
        max_attempts,
        outcomes,
        n,
    );
    lemma_lists(
        codewords,
        reliability,
        version,
        level,
        uncertain_bits,
        max_attempts,
        outcomes,
        n,
    );
    let lists = word_lists(
        codewords,
        reliability,
        version,
        level,
        uncertain_bits,
        max_attempts,
        outcomes,
        n,
    ).lists;
    lemma_clean_found(lists, codewords, version, level, max_combinations);
}

proof fn lemma_with_hypothesis(list: Seq<Hypothesis>, item: Hypothesis, other: Hypothesis)
    ensures
        with_hypothesis(list, item).len() == list.len() + 1,
        list.contains(other) || item == other ==> with_hypothesis(list, item).contains(other),
        with_hypothesis(list, item).contains(other) ==> list.contains(other) || item == other,
    decreases list.len(),
{
    let next = with_hypothesis(list, item);
    if next == list.push(item) {
        if list.contains(other) {
            let i = choose|i: int| 0 <= i < list.len() && list[i] == other;
            assert(next[i] == other);
        }
        if item == other {
            assert(next[list.len() as int] == other);
        }
        if next.contains(other) {
            let i = choose|i: int| 0 <= i < next.len() && next[i] == other;
            if i < list.len() {
                assert(list[i] == other);
            }
        }
    } else {
        let rest = list.drop_last();
        let part = with_hypothesis(rest, item);
        lemma_with_hypothesis(rest, item, other);
        assert(next == part.push(list.last()));
        if list.contains(other) {
            let i = choose|i: int| 0 <= i < list.len() && list[i] == other;
            if i < rest.len() {
                assert(rest[i] == other);
            }
        }
        if part.contains(other) {
            let i = choose|i: int| 0 <= i < part.len() && part[i] == other;
            assert(next[i] == other);
        }
        if list.last() == other {
            assert(next[part.len() as int] == other);
            assert(list[list.len() - 1] == other);
        }
        if next.contains(other) {
            let i = choose|i: int| 0 <= i < next.len() && next[i] == other;
            if i < part.len() {
                assert(part[i] == other);
                if rest.contains(other) {
                    let j = choose|j: int| 0 <= j < rest.len() && rest[j] == other;
                    assert(list[j] == other);
                }
            }
        }
    }
}

/// Sorting hypotheses by how well they fit keeps all of them, and adds none.
pub proof fn sorting_keeps_hypotheses(list: Seq<Hypothesis>, n: int, item: Hypothesis)
    requires
        0 <= n <= list.len(),
    ensures
        by_fit(list, n).len() == n,
        by_fit(list, n).contains(item) <==> list.take(n).contains(item),
    decreases n,
{
    if n > 0 {
        sorting_keeps_hypotheses(list, n - 1, item);
        lemma_with_hypothesis(by_fit(list, n - 1), list[n - 1], item);
        let (s, t) = (list.take(n - 1), list.take(n));
        if s.contains(item) {
            let i = choose|i: int| 0 <= i < s.len() && s[i] == item;
            assert(t[i] == item);
        }
        if list[n - 1] == item {
            assert(t[n - 1] == item);
        }
        if t.contains(item) {
            let i = choose|i: int| 0 <= i < t.len() && t[i] == item;
            if i < n - 1 {
                assert(s[i] == item);
            }
        }
    }
}

/// The grid that shows a symbol as it was drawn.
pub open spec fn drawn_grid(
    codewords: Seq<u8>,
    version: int,
    level: EcLevel,
    mask: int,
    confidence: Seq<u32>,
) -> GridModel {
    GridModel {
        version,
        modules: symbol_matrix(codewords, version, level, mask),
        confidence,
        deformed: false,
    }
}

/// The format that a symbol was drawn with is the first to be tried.
proof fn lemma_own_format(
    codewords: Seq<u8>,
    version: int,
    level: EcLevel,
    mask: int,
    confidence: Seq<u32>,
    expected: Option<EcLevel>,
)
    requires
        valid_version(version),
        0 <= mask <= 7,
        expected is None || expected == Some(level),
    ensures
        ({
            let grid = drawn_grid(codewords, version, level, mask, confidence);
            let all = grid_hypotheses(grid, 0, expected, 32);
            &&& all.len() >= 1
            &&& all[0].level == level
            &&& all[0].mask == mask
            &&& all[0].version == version
            &&& all[0].grid == 0
        }),
{
    let grid = drawn_grid(codewords, version, level, mask, confidence);
    lemma_ranks(grid);
    drawn_format_is_exact(codewords, version, level, mask);
    let side = symbol_side(version);
    let distances = format_distances(grid.modules, side);
    let ranks = ranked_formats(grid.modules, side);
    let row = match level {
        EcLevel::L => 0int,
        EcLevel::M => 1,
        EcLevel::Q => 2,
        EcLevel::H => 3,
    };
    let g = 8 * row + mask;
    assert(g / 8 == row && g % 8 == mask);
    assert(level_at(row) == level);
    assert(distances[g] == format_distance(grid.modules, side, level, mask));
    let f = ranks[0] as int;
    assert(0 <= ranks[0] < 32);
    assert(distances[f] == 0);
    assert(distances[f] == format_distance(grid.modules, side, level_at(f / 8), f % 8));
    drawn_format_is_unique(codewords, version, level, mask, level_at(f / 8), f % 8);
    let one = grid_hypotheses(grid, 0, expected, 1);
    assert(grid_hypotheses(grid, 0, expected, 0) =~= Seq::<Hypothesis>::empty());
    assert(one =~= seq![supposed(grid, 0, f, distances[f] as int)]);
    lemma_hypotheses_grow(grid, 0, expected, 1, 32);
    let all = grid_hypotheses(grid, 0, expected, 32);
    assert(all.take(1)[0] == one[0]);
}

proof fn lemma_flat(grid: GridModel, expected: Option<EcLevel>, n: int)
    requires
        !grid.deformed,
        0 <= n,
    ensures
        forall|i: int|
            0 <= i < grid_hypotheses(grid, 0, expected, n).len() ==> !(#[trigger] grid_hypotheses(
                grid,
                0,
                expected,
                n,
            )[i]).deformed,
        grid_hypotheses(grid, 0, expected, n).len() <= 6,
    decreases n,
{
    if n > 0 {
        lemma_flat(grid, expected, n - 1);
    }
}

proof fn lemma_nothing_deformed(
    grids: Seq<GridModel>,
    list: Seq<Hypothesis>,
    variant: Variant,
    n: int,
)
    requires
        0 <= n <= list.len(),
        forall|i: int| 0 <= i < list.len() ==> !(#[trigger] list[i]).deformed,
    ensures
        deformed_readings(grids, list, variant, n).len() == 0,
    decreases n,
{
    if n > 0 {
        lemma_nothing_deformed(grids, list, variant, n - 1);
    }
}

proof fn lemma_all_standard(list: Seq<Hypothesis>, n: int)
    requires
        0 <= n <= list.len(),
        n <= 8,
        forall|i: int| 0 <= i < list.len() ==> !(#[trigger] list[i]).deformed,
    ensures
        standard_hypotheses(list, n) == list.take(n),
    decreases n,
{
    if n > 0 {
        lemma_all_standard(list, n - 1);
        assert(list.take(n) =~= list.take(n - 1).push(list[n - 1]));
    } else {
        assert(list.take(0) =~= Seq::empty());
    }
}

proof fn lemma_readings_count_once(
    streams: Seq<Corrected>,
    hypothesis: Hypothesis,
    variant: Variant,
    hard: bool,
    n: int,
)
    requires
        0 <= n <= streams.len(),
    ensures
        forall|i: int|
            0 <= i < stream_readings(streams, hypothesis, variant, hard, n).len() ==> (
            #[trigger] stream_readings(streams, hypothesis, variant, hard, n)[i]).evidence_count
                == 1,
        n >= 1 && stream_reading(streams[0], hypothesis, variant, hard) is Some ==> {
            let list = stream_readings(streams, hypothesis, variant, hard, n);
            &&& list.len() >= 1
            &&& list[0] == stream_reading(streams[0], hypothesis, variant, hard)->Some_0
        },
    decreases n,
{
    if n > 0 {
        lemma_readings_count_once(streams, hypothesis, variant, hard, n - 1);
        let before = stream_readings(streams, hypothesis, variant, hard, n - 1);
        let after = stream_readings(streams, hypothesis, variant, hard, n);
        lemma_reading_counts_once(streams[n - 1], hypothesis, variant, hard);
        assert forall|i: int| 0 <= i < after.len() implies (#[trigger] after[i]).evidence_count
            == 1 by {
            if i < before.len() {
                assert(after[i] == before[i]);
            }
        }
        if n == 1 {
            assert(before =~= Seq::empty());
        }
    }
}

proof fn lemma_reading_counts_once(
    stream: Corrected,
    hypothesis: Hypothesis,
    variant: Variant,
    hard: bool,
)
    ensures
        stream_reading(stream, hypothesis, variant, hard) matches Some(candidate)
            ==> candidate.evidence_count == 1,
{
}

/// What is read under hypothesis `j`.
#[verifier::opaque]
spec fn stage(
    grids: Seq<GridModel>,
    list: Seq<Hypothesis>,
    variant: Variant,
    max_attempts: int,
    chase_bits: int,
    outcomes: Seq<Vec<Vec<Option<ErasureOutcome>>>>,
    j: int,
) -> Seq<Candidate> {
    let streams = hypothesis_streams(
        grids,
        list[j],
        max_attempts,
        chase_bits,
        outcomes_at(outcomes, j),
    ).0;
    stream_readings(
        streams,
        list[j],
        variant,
        hypothesis_hard(grids, list[j]),
        streams.len() as int,
    )
}

proof fn lemma_stage(
    grids: Seq<GridModel>,
    list: Seq<Hypothesis>,
    variant: Variant,
    max_attempts: int,
    chase_bits: int,
    outcomes: Seq<Vec<Vec<Option<ErasureOutcome>>>>,
    j: int,
)
    requires
        0 <= j,
    ensures
        standard_readings(
            grids,
            list,
            variant,
            max_attempts,
            chase_bits,
            outcomes,
            j + 1,
        ).candidates == standard_readings(
            grids,
            list,
            variant,
            max_attempts,
            chase_bits,
            outcomes,
            j,
        ).candidates + stage(grids, list, variant, max_attempts, chase_bits, outcomes, j),
        forall|i: int|
            0 <= i < stage(grids, list, variant, max_attempts, chase_bits, outcomes, j).len() ==> (
            #[trigger] stage(
                grids,
                list,
                variant,
                max_attempts,
                chase_bits,
                outcomes,
                j,
            )[i]).evidence_count == 1,
{
    reveal(stage);
    let streams = hypothesis_streams(
        grids,
        list[j],
        max_attempts,
        chase_bits,
        outcomes_at(outcomes, j),
    ).0;
    let hard = hypothesis_hard(grids, list[j]);
    lemma_readings_count_once(streams, list[j], variant, hard, streams.len() as int);
}

proof fn lemma_standard_readings(
    grids: Seq<GridModel>,
    list: Seq<Hypothesis>,
    variant: Variant,
    max_attempts: int,
    chase_bits: int,
    outcomes: Seq<Vec<Vec<Option<ErasureOutcome>>>>,
    n: int,
    j: int,
    payload: Seq<u8>,
)
    requires
        0 <= n,
        0 <= j < n ==> {
            let read = stage(grids, list, variant, max_attempts, chase_bits, outcomes, j);
            read.len() >= 1 && read[0].payload == payload
        },
    ensures
        ({
            let found = standard_readings(
                grids,
                list,
                variant,
                max_attempts,
                chase_bits,
                outcomes,
                n,
            ).candidates;
            let evidence = evidence_among(found, payload, found.len() as int);
            &&& evidence >= 0
            &&& 0 <= j < n ==> evidence >= 1
        }),
    decreases n,
{
    if n > 0 {
        lemma_standard_readings(
            grids,
            list,
            variant,
            max_attempts,
            chase_bits,
            outcomes,
            n - 1,
            j,
            payload,
        );
        let before = standard_readings(
            grids,
            list,
            variant,
            max_attempts,
            chase_bits,
            outcomes,
            n - 1,
        ).candidates;
        let more = stage(grids, list, variant, max_attempts, chase_bits, outcomes, n - 1);
        lemma_stage(grids, list, variant, max_attempts, chase_bits, outcomes, n - 1);
        lemma_evidence_joined(before, more, payload, more.len() as int);
        lemma_evidence_counted(more, payload, more.len() as int);
        if j == n - 1 {
            lemma_evidence_first(more, payload, more.len() as int);
        }
    }
}

proof fn lemma_evidence_joined(a: Seq<Candidate>, b: Seq<Candidate>, payload: Seq<u8>, n: int)
    requires
        0 <= n <= b.len(),
    ensures
        evidence_among(a + b, payload, a.len() + n) == evidence_among(a, payload, a.len() as int)
            + evidence_among(b, payload, n),
    decreases n,
{
    if n > 0 {
        lemma_evidence_joined(a, b, payload, n - 1);
        assert((a + b)[a.len() + n - 1] == b[n - 1]);
    } else {
        lemma_evidence_prefix(a, b, payload, a.len() as int);
    }
}

proof fn lemma_evidence_prefix(a: Seq<Candidate>, b: Seq<Candidate>, payload: Seq<u8>, n: int)
    requires
        0 <= n <= a.len(),
    ensures
        evidence_among(a + b, payload, n) == evidence_among(a, payload, n),
    decreases n,
{
    if n > 0 {
        lemma_evidence_prefix(a, b, payload, n - 1);
    }
}

proof fn lemma_evidence_counted(list: Seq<Candidate>, payload: Seq<u8>, n: int)
    requires
        0 <= n <= list.len(),
        forall|i: int| 0 <= i < list.len() ==> (#[trigger] list[i]).evidence_count == 1,
    ensures
        evidence_among(list, payload, n) >= 0,
    decreases n,
{
    if n > 0 {
        lemma_evidence_counted(list, payload, n - 1);
    }
}

proof fn lemma_evidence_first(list: Seq<Candidate>, payload: Seq<u8>, n: int)
    requires
        1 <= n <= list.len(),
        list[0].payload == payload,
        forall|i: int| 0 <= i < list.len() ==> (#[trigger] list[i]).evidence_count == 1,
    ensures
        evidence_among(list, payload, n) >= 1,
    decreases n,
{
    if n > 1 {
        lemma_evidence_first(list, payload, n - 1);
    } else {
        assert(evidence_among(list, payload, 0) == 0);
    }
}

/// What is tried on a grid that shows a symbol as it was drawn: flat hypotheses
/// only, the one that the symbol was drawn under among them.
proof fn lemma_drawn_hypotheses(
    codewords: Seq<u8>,
    version: int,
    level: EcLevel,
    mask: int,
    confidence: Seq<u32>,
    expected: Option<EcLevel>,
) -> (j: int)
    requires
        valid_version(version),
        0 <= mask <= 7,
        expected is None || expected == Some(level),
    ensures
        ({
            let grid = drawn_grid(codewords, version, level, mask, confidence);
            let list = hypotheses(seq![grid], expected);
            &&& 0 <= j < list.len() <= 6
            &&& list[j].level == level
            &&& list[j].mask == mask
            &&& list[j].version == version
            &&& list[j].grid == 0
            &&& forall|i: int| 0 <= i < list.len() ==> !(#[trigger] list[i]).deformed
        }),
{
    let grid = drawn_grid(codewords, version, level, mask, confidence);
    let grids = seq![grid];
    let all = grid_hypotheses(grid, 0, expected, 32);
    lemma_own_format(codewords, version, level, mask, confidence, expected);
    lemma_flat(grid, expected, 32);
    assert(all_hypotheses(grids, expected, 0) =~= Seq::<Hypothesis>::empty());
    assert(all_hypotheses(grids, expected, 1) =~= all) by {
        assert(grids[0] == grid);
    }
    let list = hypotheses(grids, expected);
    let n = all.len() as int;
    let own = all[0];
    assert(all.take(n) =~= all);
    sorting_keeps_hypotheses(all, n, own);
    assert(all.contains(own));
    let j = choose|j: int| 0 <= j < list.len() && list[j] == own;
    assert forall|i: int| 0 <= i < list.len() implies !(#[trigger] list[i]).deformed by {
        sorting_keeps_hypotheses(all, n, list[i]);
        assert(list.contains(list[i]));
        let k = choose|k: int| 0 <= k < all.len() && all[k] == list[i];
        assert(!all[k].deformed);
    }
    j
}

proof fn lemma_nothing_deformed_found(
    grids: Seq<GridModel>,
    list: Seq<Hypothesis>,
    variant: Variant,
)
    requires
        forall|i: int| 0 <= i < list.len() ==> !(#[trigger] list[i]).deformed,
    ensures
        deformed_found(grids, list, variant).len() == 0,
{
    lemma_nothing_deformed(grids, list, variant, list.len() as int);
    let readings = deformed_readings(grids, list, variant, list.len() as int);
    let unique = by_payload(readings, readings.len() as int);
    assert(unique =~= Seq::empty());
    assert(repeated(unique, 0) =~= Seq::empty());
}

/// What a symbol that is seen as it was drawn gives under its own hypothesis.
proof fn lemma_drawn_stage(
    codewords: Seq<u8>,
    version: int,
    level: EcLevel,
    mask: int,
    confidence: Seq<u32>,
    list: Seq<Hypothesis>,
    variant: Variant,
    max_attempts: int,
    chase_bits: int,
    outcomes: Seq<Vec<Vec<Option<ErasureOutcome>>>>,
    j: int,
    payload: Seq<u8>,
)
    requires
        valid_version(version),
        codewords.len() == total_codewords(version),
        0 <= mask <= 7,
        all_decode_to_themselves(codewords, version, level),
        all_changes_cost(
            outcomes_at(outcomes, j),
            deinterleaved(codewords, layout(version, level)),
        ),
        verified_payload(
            symbol_matrix(codewords, version, level, mask),
            version,
            level,
            mask,
        ) == Some(payload),
        list[j].level == level,
        list[j].mask == mask,
        list[j].version == version,
        list[j].grid == 0,
    ensures
        ({
            let grids = seq![drawn_grid(codewords, version, level, mask, confidence)];
            let read = stage(grids, list, variant, max_attempts, chase_bits, outcomes, j);
            read.len() >= 1 && read[0].payload == payload
        }),
{
    let grids = seq![drawn_grid(codewords, version, level, mask, confidence)];
    reveal(stage);
    reading_undoes_drawing(codewords, version, level, mask);
    clean_streams_are_found_first(
        codewords,
        shown_reliability(confidence, version),
        version,
        level,
        chase_bits,
        attempt_limit(max_attempts),
        8,
        outcomes_at(outcomes, j),
    );
    let streams = hypothesis_streams(
        grids,
        list[j],
        max_attempts,
        chase_bits,
        outcomes_at(outcomes, j),
    ).0;
    assert(grids[0] == drawn_grid(codewords, version, level, mask, confidence));
    assert(streams[0] == unchanged(codewords));
    let hard = hypothesis_hard(grids, list[j]);
    let reading = stream_reading(streams[0], list[j], variant, hard);
    assert(reading is Some && reading->Some_0.payload == payload);
    lemma_readings_count_once(streams, list[j], variant, hard, streams.len() as int);
}

/// A flat symbol that is seen as it was drawn, and whose blocks the decoder takes
/// for what they are, is read: its payload is among the candidates. No erasures or
/// flips are needed for that, whatever else they find.
pub proof fn drawn_symbols_are_read(
    codewords: Seq<u8>,
    version: int,
    level: EcLevel,
    mask: int,
    confidence: Seq<u32>,
    variant: Variant,
    max_attempts: int,
    chase_bits: int,
    outcomes: Seq<Vec<Vec<Option<ErasureOutcome>>>>,
    payload: Seq<u8>,
)
    requires
        valid_version(version),
        codewords.len() == total_codewords(version),
        0 <= mask <= 7,
        all_decode_to_themselves(codewords, version, level),
        forall|i: int|
            all_changes_cost(
                #[trigger] outcomes_at(outcomes, i),
                deinterleaved(codewords, layout(version, level)),
            ),
        variant.options.ec_level is None || variant.options.ec_level == Some(level),
        verified_payload(
            symbol_matrix(codewords, version, level, mask),
            version,
            level,
            mask,
        ) == Some(payload),
    ensures
        ({
            let grid = drawn_grid(codewords, version, level, mask, confidence);
            let found = decoded(seq![grid], variant, max_attempts, chase_bits, outcomes);
            &&& found.valid_reads == 1
            &&& found.invalid_reads == 0
            &&& exists|i: int|
                0 <= i < found.candidates.len() && (#[trigger] found.candidates[i]).payload
                    == payload
        }),
{
    let expected = variant.options.ec_level;
    let grid = drawn_grid(codewords, version, level, mask, confidence);
    let grids = seq![grid];
    let list = hypotheses(grids, expected);
    let n = list.len() as int;
    let j = lemma_drawn_hypotheses(codewords, version, level, mask, confidence, expected);
    lemma_nothing_deformed_found(grids, list, variant);
    lemma_all_standard(list, n);
    assert(list.take(n) =~= list);
    lemma_drawn_stage(
        codewords,
        version,
        level,
        mask,
        confidence,
        list,
        variant,
        max_attempts,
        chase_bits,
        outcomes,
        j,
        payload,
    );
    lemma_standard_readings(
        grids,
        list,
        variant,
        max_attempts,
        chase_bits,
        outcomes,
        n,
        j,
        payload,
    );
    let found = standard_readings(
        grids,
        list,
        variant,
        max_attempts,
        chase_bits,
        outcomes,
        n,
    ).candidates;
    listing_keeps_evidence(found, found.len() as int, payload);
    let shown = by_payload(found, found.len() as int);
    if forall|i: int| 0 <= i < shown.len() ==> (#[trigger] shown[i]).payload != payload {
        lemma_evidence_absent(shown, payload, shown.len() as int);
    }
    let i = choose|i: int| 0 <= i < shown.len() && (#[trigger] shown[i]).payload == payload;
    let whole = decoded(grids, variant, max_attempts, chase_bits, outcomes);
    assert(standard_hypotheses(list, n) == list);
    assert(grids.len() == 1);
    assert(whole.candidates == shown);
    assert(whole.candidates[i].payload == payload);
}

/// How many of the first `n` readings give a payload.
pub open spec fn times_read(list: Seq<Candidate>, payload: Seq<u8>, n: int) -> int
    decreases n,
{
    if n <= 0 {
        0
    } else if list[n - 1].payload == payload {
        times_read(list, payload, n - 1) + 1
    } else {
        times_read(list, payload, n - 1)
    }
}

proof fn lemma_deformed_counted(
    grids: Seq<GridModel>,
    list: Seq<Hypothesis>,
    variant: Variant,
    n: int,
)
    requires
        0 <= n <= list.len(),
    ensures
        forall|i: int|
            0 <= i < deformed_readings(grids, list, variant, n).len() ==> (
            #[trigger] deformed_readings(grids, list, variant, n)[i]).evidence_count == 1,
    decreases n,
{
    if n > 0 {
        lemma_deformed_counted(grids, list, variant, n - 1);
        let before = deformed_readings(grids, list, variant, n - 1);
        let after = deformed_readings(grids, list, variant, n);
        lemma_deformed_once(grids, list[n - 1], variant);
        assert forall|i: int| 0 <= i < after.len() implies (#[trigger] after[i]).evidence_count
            == 1 by {
            if i < before.len() {
                assert(after[i] == before[i]);
            }
        }
    }
}

proof fn lemma_deformed_once(grids: Seq<GridModel>, hypothesis: Hypothesis, variant: Variant)
    ensures
        deformed_reading(grids, hypothesis, variant) matches Some(candidate)
            ==> candidate.evidence_count == 1,
{
}

proof fn lemma_times_read(list: Seq<Candidate>, payload: Seq<u8>, n: int)
    requires
        0 <= n <= list.len(),
        forall|i: int| 0 <= i < list.len() ==> (#[trigger] list[i]).evidence_count == 1,
    ensures
        evidence_among(list, payload, n) == times_read(list, payload, n),
    decreases n,
{
    if n > 0 {
        lemma_times_read(list, payload, n - 1);
    }
}

proof fn lemma_listed_evidence(list: Seq<Candidate>, k: int, n: int)
    requires
        payloads_in_order(list),
        0 <= k < n <= list.len(),
    ensures
        evidence_among(list, list[k].payload, n) == list[k].evidence_count,
    decreases n,
{
    if k < n - 1 {
        lemma_before_irreflexive(list[k].payload, 0);
        assert(comes_before(list[k].payload, list[n - 1].payload));
        lemma_listed_evidence(list, k, n - 1);
    } else {
        assert forall|i: int| 0 <= i < n - 1 implies (#[trigger] list[i]).payload
            != list[k].payload by {
            lemma_before_irreflexive(list[k].payload, 0);
            assert(comes_before(list[i].payload, list[k].payload));
        }
        lemma_evidence_absent(list, list[k].payload, n - 1);
    }
}

proof fn lemma_repeated_member(list: Seq<Candidate>, n: int, candidate: Candidate)
    requires
        0 <= n <= list.len(),
    ensures
        repeated(list, n).contains(candidate) <==> list.take(n).contains(candidate)
            && candidate.evidence_count >= 2,
    decreases n,
{
    if n > 0 {
        lemma_repeated_member(list, n - 1, candidate);
        let (before, after) = (repeated(list, n - 1), repeated(list, n));
        let (s, t) = (list.take(n - 1), list.take(n));
        assert(t =~= s.push(list[n - 1]));
        lemma_pushed(s, list[n - 1], candidate);
        lemma_pushed(before, list[n - 1], candidate);
    }
}

proof fn lemma_pushed(list: Seq<Candidate>, last: Candidate, candidate: Candidate)
    ensures
        list.push(last).contains(candidate) <==> list.contains(candidate) || last == candidate,
{
    let longer = list.push(last);
    if list.contains(candidate) {
        let i = choose|i: int| 0 <= i < list.len() && list[i] == candidate;
        assert(longer[i] == candidate);
    }
    if last == candidate {
        assert(longer[list.len() as int] == candidate);
    }
    if longer.contains(candidate) {
        let i = choose|i: int| 0 <= i < longer.len() && longer[i] == candidate;
        if i < list.len() {
            assert(list[i] == candidate);
        }
    }
}

/// Of what deformed grids show, exactly the payloads that were read twice or more
/// count.
pub proof fn deformed_payloads_are_read_twice(
    grids: Seq<GridModel>,
    list: Seq<Hypothesis>,
    variant: Variant,
    payload: Seq<u8>,
)
    ensures
        ({
            let readings = deformed_readings(grids, list, variant, list.len() as int);
            let found = deformed_found(grids, list, variant);
            (exists|i: int| 0 <= i < found.len() && (#[trigger] found[i]).payload == payload)
                <==> times_read(readings, payload, readings.len() as int) >= 2
        }),
{
    let readings = deformed_readings(grids, list, variant, list.len() as int);
    let found = deformed_found(grids, list, variant);
    let n = readings.len() as int;
    let unique = by_payload(readings, n);
    let m = unique.len() as int;
    lemma_deformed_counted(grids, list, variant, list.len() as int);
    lemma_times_read(readings, payload, n);
    listing_keeps_evidence(readings, n, payload);
    readings_are_listed_once(readings, n);
    assert(unique.take(m) =~= unique);
    if exists|i: int| 0 <= i < found.len() && (#[trigger] found[i]).payload == payload {
        let i = choose|i: int| 0 <= i < found.len() && (#[trigger] found[i]).payload == payload;
        assert(found.contains(found[i]));
        lemma_repeated_member(unique, m, found[i]);
        let k = choose|k: int| 0 <= k < unique.len() && unique[k] == found[i];
        lemma_listed_evidence(unique, k, m);
    }
    if times_read(readings, payload, n) >= 2 {
        if forall|k: int| 0 <= k < m ==> (#[trigger] unique[k]).payload != payload {
            lemma_evidence_absent(unique, payload, m);
        }
        let k = choose|k: int| 0 <= k < m && (#[trigger] unique[k]).payload == payload;
        lemma_listed_evidence(unique, k, m);
        lemma_repeated_member(unique, m, unique[k]);
        assert(unique.contains(unique[k]));
        let i = choose|i: int| 0 <= i < found.len() && found[i] == unique[k];
        assert(found[i].payload == payload);
    }
}

/// How many of the first `n` hypotheses are flat.
pub open spec fn flat_count(list: Seq<Hypothesis>, n: int) -> int
    decreases n,
{
    if n <= 0 {
        0
    } else if !list[n - 1].deformed {
        flat_count(list, n - 1) + 1
    } else {
        flat_count(list, n - 1)
    }
}

/// The first eight flat hypotheses are searched: one is left out exactly if eight
/// flat ones come before it.
pub proof fn eight_flat_hypotheses_are_searched(list: Seq<Hypothesis>, n: int, k: int)
    requires
        0 <= k < n <= list.len(),
    ensures
        standard_hypotheses(list, n).len() == (if flat_count(list, n) <= 8 {
            flat_count(list, n)
        } else {
            8
        }),
        !list[k].deformed && flat_count(list, k) < 8 ==> standard_hypotheses(
            list,
            n,
        )[flat_count(list, k)] == list[k],
    decreases n,
{
    if n > 1 {
        let j = if k < n - 1 {
            k
        } else {
            0
        };
        eight_flat_hypotheses_are_searched(list, n - 1, j);
        if k < n - 1 {
            lemma_flat_grows(list, k, n - 1);
        }
    } else {
        reveal_with_fuel(standard_hypotheses, 2);
        reveal_with_fuel(flat_count, 2);
    }
}

proof fn lemma_flat_grows(list: Seq<Hypothesis>, k: int, n: int)
    requires
        0 <= k < n,
    ensures
        0 <= flat_count(list, k) <= flat_count(list, n),
        !list[k].deformed ==> flat_count(list, k) < flat_count(list, n),
    decreases n,
{
    lemma_flat_nonnegative(list, k);
    if k < n - 1 {
        lemma_flat_grows(list, k, n - 1);
    }
}

proof fn lemma_flat_nonnegative(list: Seq<Hypothesis>, n: int)
    ensures
        0 <= flat_count(list, n),
    decreases n,
{
    if n > 0 {
        lemma_flat_nonnegative(list, n - 1);
    }
}

} // verus!
