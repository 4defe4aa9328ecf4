//! Reading payloads from module grids.

use vstd::prelude::*;

use crate::candidates::Corrected;
use crate::codewords::{
    drawing_keeps_functions, extract_codewords_of, matrix_from_codewords_of, reading_undoes_drawing,
    shown_codewords, shown_reliability, symbol_matrix, ExtractedCodewords,
};
use crate::correction::ErasureOutcome;
use crate::formats::{are_about, hypotheses, is_about, rank_hypotheses, Hypothesis};
use crate::function_pattern::{function_matrix, is_function};
use crate::grids::{
    are_grids, grid_models, is_grid, lemma_weighed, share, share_of, weigh, weighed, GridModel,
    ModuleGrid, SHARE_UNIT,
};
use crate::layout::{
    capacity_bounds, ec_format_value, level_format_value, level_name, symbol_side, total_codewords,
    valid_version, EcLevel,
};
use crate::options::{hint_score, payload_points, RecoveryOptions};
use crate::order::{
    byte_string_before, comes_before, lemma_before_irreflexive, lemma_before_total,
    lemma_before_transitive, same_bytes,
};
use crate::recovery_result::{
    candidates, component_place, component_total, component_value, components, concluded,
    conclusions_are_ordered, deformed, is_deformed, is_one_of, lemma_name_place, lemma_set_summable,
    lemma_total_bounded, lemma_with_component, name_place, same_but_confidence, set_component,
    sum_components, summable, total_score, with_component, Candidate, Component, PreviewNote,
    RecoveryCandidate, ScoreComponent, EVIDENCE_BOUND, PART_BOUND, PART_LIMIT, POINT,
    READ_SCORE_BOUND,
};
use crate::repair::{
    blocks_are_code_words, differences, rebuilt_stream, repair_tail_of, CorrectedStream,
};
use crate::rounding::{
    is_double, lemma_rounded_monotone, lemma_signed_again, nearest, round_to, rounded, spacing,
    SINGLE, SINGLE_SUM,
};
use crate::streams::{
    are_erasure_plans, correct_interleaved_of, decodes_hard, decodes_hard_of, erasure_plans_of,
    stream_sound, stream_views, streams_found, ErasurePlan,
};
use crate::text::{decimal, decimal_text};

verus! {

/// What a decoder reads from a clean symbol.
#[derive(Debug)]
pub struct Reading {
    pub version: usize,
    pub level: u16,
    pub mask: u16,
    pub payload: Vec<u8>,
}

/// What `rqrr::Grid::decode_to` reads from a square of modules, where anything
/// but zero is dark: the version, the level and the mask by their numbers in the
/// symbol, and the payload; nothing if it refuses the symbol.
pub uninterp spec fn rqrr_reading(modules: Seq<u8>, side: int) -> Option<
    (int, int, int, Seq<u8>),
>;

/// Whether a module is dark.
fn is_dark(modules: &[u8], side: usize, x: usize, y: usize) -> (dark: bool)
    requires
        modules@.len() == side * side,
        side <= 177,
        x < side,
        y < side,
    ensures
        dark == (modules@[y * side + x] != 0),
{
    proof {
        crate::function_pattern::lemma_cell(side as int, x as int, y as int);
        assert(side * side <= 177 * 177) by (nonlinear_arith)
            requires
                side <= 177,
        ;
        assert(0 <= y * side) by (nonlinear_arith);
    }
    modules[y * side + x] != 0
}

/// Calls `rqrr::Grid::decode_to`. Claimed: what it reads depends on the modules
/// alone, a grid is read as the version of its size, and levels and masks are
/// numbered up to three and seven.
#[verifier::external_body]
fn rqrr_decode(modules: &[u8], side: usize) -> (reading: Option<Reading>)
    requires
        21 <= side <= 177,
        (side - 17) % 4 == 0,
        modules@.len() == side * side,
    ensures
        match reading {
            Some(value) => rqrr_reading(modules@, side as int) == Some(
                (value.version as int, value.level as int, value.mask as int, value.payload@),
            ),
            None => rqrr_reading(modules@, side as int) is None,
        },
        reading matches Some(value) ==> value.version == (side - 17) / 4 && value.level <= 3
            && value.mask <= 7,
{
    let simple = rqrr::SimpleGrid::from_func(side, |x, y| is_dark(modules, side, x, y));
    let mut payload = Vec::new();
    match rqrr::Grid::new(simple).decode_to(&mut payload) {
        Ok(meta) => Some(
            Reading {
                version: meta.version.0,
                level: meta.ecc_level,
                mask: meta.mask,
                payload,
            },
        ),
        Err(_) => None,
    }
}

/// The text that `String::from_utf8_lossy` makes of bytes.
pub uninterp spec fn lossy_text(bytes: Seq<u8>) -> Seq<char>;

/// Calls `String::from_utf8_lossy`. Claimed: the text depends on the bytes
/// alone, and bytes that are valid UTF-8 are read as such.
#[verifier::external_body]
fn read_text(bytes: &[u8]) -> (text: String)
    ensures
        text@ == lossy_text(bytes@),
        vstd::utf8::valid_utf8(bytes@) ==> text@ == vstd::utf8::decode_utf8(bytes@),
{
    String::from_utf8_lossy(bytes).into_owned()
}

/// Calls `std::str::from_utf8`. Claimed: it accepts the bytes that are valid
/// UTF-8.
#[verifier::external_body]
fn is_utf8(bytes: &[u8]) -> (valid: bool)
    ensures
        valid == vstd::utf8::valid_utf8(bytes@),
{
    std::str::from_utf8(bytes).is_ok()
}

/// What a decoder reads from a symbol, if it reads the version, level and mask
/// that the symbol was drawn with.
pub open spec fn verified_payload(
    matrix: Seq<u8>,
    version: int,
    level: EcLevel,
    mask: int,
) -> Option<Seq<u8>> {
    match rqrr_reading(matrix, symbol_side(version)) {
        Some((read_version, read_level, read_mask, payload)) => if read_version == version
            && read_level == level_format_value(level) && read_mask == mask {
            Some(payload)
        } else {
            None
        },
        None => None,
    }
}

/// Keeps what was read from a symbol, if it was read with the version, level and
/// mask that the symbol was drawn with.
pub fn accept_reading(reading: Option<Reading>, version: u8, level: EcLevel, mask: u8) -> (payload:
    Option<Vec<u8>>)
    ensures
        match reading {
            Some(value) => if value.version == version && value.level == level_format_value(level)
                && value.mask == mask {
                payload == Some(value.payload)
            } else {
                payload is None
            },
            None => payload is None,
        },
{
    match reading {
        Some(value) => {
            if value.version == version as usize && value.level == ec_format_value(level)
                && value.mask == mask as u16 {
                Some(value.payload)
            } else {
                None
            }
        },
        None => None,
    }
}

fn read_symbol(matrix: &[u8], version: u8, level: EcLevel, mask: u8) -> (payload: Option<Vec<u8>>)
    requires
        valid_version(version as int),
        matrix@.len() == symbol_side(version as int) * symbol_side(version as int),
    ensures
        match payload {
            Some(bytes) => verified_payload(matrix@, version as int, level, mask as int) == Some(
                bytes@,
            ),
            None => verified_payload(matrix@, version as int, level, mask as int) is None,
        },
{
    let side: usize = 4 * version as usize + 17;
    accept_reading(rqrr_decode(matrix, side), version, level, mask)
}

/// A reading agrees with an image if this share of the weight does: eighty-two
/// hundredths.
pub const LEAST_AGREEMENT: u64 = 14425592430592;

/// The confidence in the first `n` modules.
pub open spec fn total_confidence(grid: GridModel, n: int) -> int
    decreases n,
{
    if n <= 0 {
        0
    } else {
        weighed(total_confidence(grid, n - 1), grid.confidence[n - 1] as int)
    }
}

/// The confidence in those of the first `n` modules that a symbol shows too.
pub open spec fn matched_confidence(matrix: Seq<u8>, grid: GridModel, n: int) -> int
    decreases n,
{
    if n <= 0 {
        0
    } else {
        weighed(
            matched_confidence(matrix, grid, n - 1),
            if matrix[n - 1] == grid.modules[n - 1] {
                grid.confidence[n - 1] as int
            } else {
                0
            },
        )
    }
}

/// How much of a grid a symbol agrees with, as a share.
pub open spec fn agreement(matrix: Seq<u8>, grid: GridModel) -> int {
    let n = grid.modules.len() as int;
    share(matched_confidence(matrix, grid, n), total_confidence(grid, n))
}

/// The points for a share of a weight: twenty for all of it, in single precision.
pub open spec fn share_points(share: int) -> int {
    256 * rounded(20 * share, SINGLE as int)
}

/// Points for how little of the function modules is wrong: twenty off for all of
/// them.
pub open spec fn structure_points(hypothesis: Hypothesis) -> int {
    -share_points(hypothesis.error as int)
}

/// The parts of the score of a payload read from a symbol, in the order of their
/// names.
pub open spec fn plain_components(
    hypothesis: Hypothesis,
    search_cost: int,
    quality: u64,
    points: int,
) -> Seq<Component> {
    seq![
        Component { name: "correctionCost"@, value: -(search_cost * (POINT / 2)) },
        Component { name: "decoder"@, value: 100 * POINT },
        Component { name: "formatEvidence"@, value: -(hypothesis.distance * POINT) },
        Component { name: "imageVariant"@, value: quality as int },
        Component { name: "payloadHints"@, value: points * POINT },
        Component { name: "structureEvidence"@, value: structure_points(hypothesis) },
    ]
}

/// The parts of the score of a payload read from a deformed symbol, in the order
/// of their names.
pub open spec fn deformed_components(
    hypothesis: Hypothesis,
    search_cost: int,
    quality: u64,
    points: int,
    payload: Seq<u8>,
    agreement: int,
) -> Seq<Component> {
    plain_components(hypothesis, search_cost, quality, points).insert(
        3,
        Component { name: "imageAgreement"@, value: share_points(agreement) },
    ).push(
        Component {
            name: "utf8Evidence"@,
            value: if vstd::utf8::valid_utf8(payload) {
                4 * POINT
            } else {
                -4 * POINT
            },
        },
    )
}

/// How sure a reading is to start with: one that needed erasures or flips less
/// than one whose blocks decode as they are.
pub open spec fn reading_confidence(hard: bool) -> Seq<char> {
    if hard {
        "high"@
    } else {
        "medium"@
    }
}

/// A payload as a candidate.
pub open spec fn read_candidate(
    payload: Seq<u8>,
    matrix: Seq<u8>,
    corrected_symbols: int,
    hypothesis: Hypothesis,
    parts: Seq<Component>,
    source: Seq<char>,
    hard: bool,
) -> Candidate {
    Candidate {
        payload,
        text: lossy_text(payload),
        version: hypothesis.version,
        ec_level: level_name(hypothesis.level),
        mask: hypothesis.mask,
        matrix,
        matrix_kind: "exact"@,
        corrected_symbols,
        score: total_score(parts),
        components: parts,
        confidence: reading_confidence(hard),
        source,
        evidence_count: 1,
    }
}

/// What a read candidate is attributed to.
pub open spec fn source_name(variant: Seq<char>, how: Seq<char>, version: u8) -> Seq<char> {
    "rxing-rust:"@ + variant + how + decimal(version as nat)
}

/// What is asked of every reading of a variant.
pub ghost struct Variant {
    pub name: Seq<char>,
    pub quality: u64,
    pub options: RecoveryOptions,
}

/// The candidate that a deformed grid shows under a hypothesis. The segments are
/// kept as they were seen, and only what follows them is rebuilt; the symbol
/// that this gives must be readable and agree with the image.
pub open spec fn deformed_reading(
    grids: Seq<GridModel>,
    hypothesis: Hypothesis,
    variant: Variant,
) -> Option<Candidate> {
    let grid = grids[hypothesis.grid as int];
    let (version, level, mask) = (
        hypothesis.version as int,
        hypothesis.level,
        hypothesis.mask as int,
    );
    let seen = shown_codewords(grid.modules, version, mask);
    match rebuilt_stream(seen, version, level) {
        Some(stream) => {
            let matrix = symbol_matrix(stream, version, level, mask);
            let agreement = agreement(matrix, grid);
            let corrected = differences(seen, stream, seen.len() as int);
            if stream == seen || agreement < LEAST_AGREEMENT {
                None
            } else {
                match verified_payload(matrix, version, level, mask) {
                    Some(payload) => Some(
                        read_candidate(
                            payload,
                            matrix,
                            corrected,
                            hypothesis,
                            deformed_components(
                                hypothesis,
                                2 * corrected + 12,
                                variant.quality,
                                payload_points(
                                    variant.options,
                                    payload.len() == 0,
                                    lossy_text(payload),
                                    hypothesis.version,
                                    level,
                                ),
                                payload,
                                agreement,
                            ),
                            source_name(variant.name, ":deformed-v"@, hypothesis.version),
                            true,
                        ),
                    ),
                    None => None,
                }
            }
        },
        None => None,
    }
}

/// The candidates that deformed grids show under the first `n` hypotheses.
pub open spec fn deformed_readings(
    grids: Seq<GridModel>,
    list: Seq<Hypothesis>,
    variant: Variant,
    n: int,
) -> Seq<Candidate>
    decreases n,
{
    if n <= 0 {
        Seq::empty()
    } else {
        let before = deformed_readings(grids, list, variant, n - 1);
        if list[n - 1].deformed {
            match deformed_reading(grids, list[n - 1], variant) {
                Some(candidate) => before.push(candidate),
                None => before,
            }
        } else {
            before
        }
    }
}

/// How many of the first `n` hypotheses are about deformed grids.
pub open spec fn deformed_count(list: Seq<Hypothesis>, n: int) -> int
    decreases n,
{
    if n <= 0 {
        0
    } else {
        deformed_count(list, n - 1) + (if list[n - 1].deformed {
            1int
        } else {
            0
        })
    }
}

/// The candidate that a corrected stream gives under a hypothesis. `hard` says
/// whether all blocks of the received stream decode as they are.
pub open spec fn stream_reading(
    stream: Corrected,
    hypothesis: Hypothesis,
    variant: Variant,
    hard: bool,
) -> Option<Candidate> {
    let (version, level, mask) = (
        hypothesis.version as int,
        hypothesis.level,
        hypothesis.mask as int,
    );
    let matrix = symbol_matrix(stream.codewords, version, level, mask);
    match verified_payload(matrix, version, level, mask) {
        Some(payload) => Some(
            read_candidate(
                payload,
                matrix,
                stream.corrected_symbols,
                hypothesis,
                plain_components(
                    hypothesis,
                    stream.search_cost,
                    variant.quality,
                    payload_points(
                        variant.options,
                        payload.len() == 0,
                        lossy_text(payload),
                        hypothesis.version,
                        level,
                    ),
                ),
                source_name(variant.name, ":resampled-v"@, hypothesis.version),
                hard,
            ),
        ),
        None => None,
    }
}

/// The candidates that the first `n` streams give.
pub open spec fn stream_readings(
    streams: Seq<Corrected>,
    hypothesis: Hypothesis,
    variant: Variant,
    hard: bool,
    n: int,
) -> Seq<Candidate>
    decreases n,
{
    if n <= 0 {
        Seq::empty()
    } else {
        let before = stream_readings(streams, hypothesis, variant, hard, n - 1);
        match stream_reading(streams[n - 1], hypothesis, variant, hard) {
            Some(candidate) => before.push(candidate),
            None => before,
        }
    }
}

/// How hard a symbol is searched: no more than two thousand attempts.
pub open spec fn attempt_limit(max_attempts: int) -> int {
    if max_attempts > 2000 {
        2000
    } else {
        max_attempts
    }
}

/// The streams that a grid gives under a hypothesis, and the attempts it took.
pub open spec fn hypothesis_streams(
    grids: Seq<GridModel>,
    hypothesis: Hypothesis,
    max_attempts: int,
    chase_bits: int,
    outcomes: Seq<Vec<Option<ErasureOutcome>>>,
) -> (Seq<Corrected>, int) {
    let grid = grids[hypothesis.grid as int];
    let version = hypothesis.version as int;
    streams_found(
        shown_codewords(grid.modules, version, hypothesis.mask as int),
        shown_reliability(grid.confidence, version),
        version,
        hypothesis.level,
        chase_bits,
        attempt_limit(max_attempts),
        8,
        outcomes,
    )
}

/// Whether all blocks that a grid shows under a hypothesis decode as they are.
pub open spec fn hypothesis_hard(grids: Seq<GridModel>, hypothesis: Hypothesis) -> bool {
    let version = hypothesis.version as int;
    decodes_hard(
        shown_codewords(
            grids[hypothesis.grid as int].modules,
            version,
            hypothesis.mask as int,
        ),
        version,
        hypothesis.level,
    )
}

/// The erasure outcomes for one of several symbols; none were tried where none
/// are given.
pub open spec fn outcomes_at(
    outcomes: Seq<Vec<Vec<Option<ErasureOutcome>>>>,
    i: int,
) -> Seq<Vec<Option<ErasureOutcome>>> {
    if 0 <= i < outcomes.len() {
        outcomes[i]@
    } else {
        Seq::empty()
    }
}

/// What flat grids show: candidates and attempts.
pub ghost struct Searched {
    pub candidates: Seq<Candidate>,
    pub attempts: int,
}

/// What flat grids show under the first `n` hypotheses.
pub open spec fn standard_readings(
    grids: Seq<GridModel>,
    list: Seq<Hypothesis>,
    variant: Variant,
    max_attempts: int,
    chase_bits: int,
    outcomes: Seq<Vec<Vec<Option<ErasureOutcome>>>>,
    n: int,
) -> Searched
    decreases n,
{
    if n <= 0 {
        Searched { candidates: Seq::empty(), attempts: 0 }
    } else {
        let before = standard_readings(
            grids,
            list,
            variant,
            max_attempts,
            chase_bits,
            outcomes,
            n - 1,
        );
        let (streams, attempts) = hypothesis_streams(
            grids,
            list[n - 1],
            max_attempts,
            chase_bits,
            outcomes_at(outcomes, n - 1),
        );
        Searched {
            candidates: before.candidates + stream_readings(
                streams,
                list[n - 1],
                variant,
                hypothesis_hard(grids, list[n - 1]),
                streams.len() as int,
            ),
            attempts: before.attempts + attempts,
        }
    }
}

/// The flat ones among the first `n` hypotheses, but no more than eight.
pub open spec fn standard_hypotheses(list: Seq<Hypothesis>, n: int) -> Seq<Hypothesis>
    decreases n,
{
    if n <= 0 {
        Seq::empty()
    } else {
        let before = standard_hypotheses(list, n - 1);
        if before.len() < 8 && !list[n - 1].deformed {
            before.push(list[n - 1])
        } else {
            before
        }
    }
}

/// Points for a payload that several shapes of a deformed symbol give: two for
/// each but the first.
pub open spec fn geometry_points(evidence: int) -> int {
    if evidence > 1 {
        (evidence - 1) * 2 * POINT
    } else {
        0
    }
}

/// The confidence of two readings of one payload: that of the surer one.
pub open spec fn surer(a: Seq<char>, b: Seq<char>) -> Seq<char> {
    if a == "medium"@ {
        b
    } else {
        a
    }
}

/// Two readings of one payload in one variant become one: the evidence is added
/// up, the confidence is that of the surer one, and the rest is taken from the one
/// with the better score.
pub open spec fn read_again(existing: Candidate, candidate: Candidate) -> Candidate {
    let evidence = existing.evidence_count + candidate.evidence_count;
    let confidence = surer(existing.confidence, candidate.confidence);
    let base = if candidate.score > existing.score {
        candidate
    } else {
        existing
    };
    if is_deformed(base) {
        let components = with_component(
            base.components,
            "deformationGeometry"@,
            geometry_points(evidence),
        );
        Candidate {
            evidence_count: evidence,
            confidence,
            components,
            score: total_score(components),
            ..base
        }
    } else {
        Candidate { evidence_count: evidence, confidence, ..base }
    }
}

/// A list of candidates in the order of their payloads with one more.
pub open spec fn with_reading(list: Seq<Candidate>, candidate: Candidate) -> Seq<Candidate>
    decreases list.len(),
{
    if list.len() == 0 || comes_before(list.last().payload, candidate.payload) {
        list.push(candidate)
    } else if list.last().payload == candidate.payload {
        list.drop_last().push(read_again(list.last(), candidate))
    } else {
        with_reading(list.drop_last(), candidate).push(list.last())
    }
}

/// The first `n` readings, payload by payload.
pub open spec fn by_payload(list: Seq<Candidate>, n: int) -> Seq<Candidate>
    decreases n,
{
    if n <= 0 {
        Seq::empty()
    } else {
        with_reading(by_payload(list, n - 1), list[n - 1])
    }
}

/// Those of the first `n` candidates that were read more than once.
pub open spec fn repeated(list: Seq<Candidate>, n: int) -> Seq<Candidate>
    decreases n,
{
    if n <= 0 {
        Seq::empty()
    } else if list[n - 1].evidence_count >= 2 {
        repeated(list, n - 1).push(list[n - 1])
    } else {
        repeated(list, n - 1)
    }
}

/// What deformed grids show: payloads that neighbouring geometries agree on.
pub open spec fn deformed_found(
    grids: Seq<GridModel>,
    list: Seq<Hypothesis>,
    variant: Variant,
) -> Seq<Candidate> {
    let readings = deformed_readings(grids, list, variant, list.len() as int);
    let unique = by_payload(readings, readings.len() as int);
    repeated(unique, unique.len() as int)
}

/// What a variant gave.
pub ghost struct Decoded {
    pub candidates: Seq<Candidate>,
    pub valid_reads: int,
    pub invalid_reads: int,
    pub attempts: int,
}

/// What listed candidates are worth as the outcome of a variant.
pub open spec fn outcome_of(list: Seq<Candidate>, attempts: int) -> Decoded {
    Decoded {
        candidates: list,
        valid_reads: if list.len() > 0 {
            1
        } else {
            0
        },
        invalid_reads: if list.len() > 0 {
            0
        } else {
            1
        },
        attempts,
    }
}

/// What grids give. Flat ones are searched only where deformed ones agree on
/// nothing.
pub open spec fn decoded(
    grids: Seq<GridModel>,
    variant: Variant,
    max_attempts: int,
    chase_bits: int,
    outcomes: Seq<Vec<Vec<Option<ErasureOutcome>>>>,
) -> Decoded {
    let list = hypotheses(grids, variant.options.ec_level);
    let n = list.len() as int;
    let deformed = deformed_found(grids, list, variant);
    let standard = standard_hypotheses(list, n);
    let found = standard_readings(
        grids,
        standard,
        variant,
        max_attempts,
        chase_bits,
        outcomes,
        standard.len() as int,
    );
    if grids.len() == 0 {
        Decoded { candidates: Seq::empty(), valid_reads: 0, invalid_reads: 0, attempts: 0 }
    } else if deformed.len() > 0 {
        outcome_of(deformed, deformed_count(list, n))
    } else {
        outcome_of(
            by_payload(found.candidates, found.candidates.len() as int),
            deformed_count(list, n) + found.attempts,
        )
    }
}

/// A candidate as it was just read.
spec fn is_fresh(candidate: Candidate) -> bool {
    &&& candidate.evidence_count == 1
    &&& candidate.components.len() <= 8
    &&& summable(candidate.components)
    &&& candidate.score == total_score(candidate.components)
}

/// Whether all candidates are as they were just read.
spec fn all_fresh(list: Seq<Candidate>) -> bool {
    forall|i: int| 0 <= i < list.len() ==> is_fresh(#[trigger] list[i])
}

/// A candidate that was read up to `n` times.
spec fn is_read(candidate: Candidate, n: int) -> bool {
    &&& summable(candidate.components)
    &&& with_component(candidate.components, "deformationGeometry"@, 0).len() <= 9
    &&& candidate.score == total_score(candidate.components)
    &&& 1 <= candidate.evidence_count <= n
}

/// Whether all candidates were read up to `n` times.
spec fn all_read(list: Seq<Candidate>, n: int) -> bool {
    forall|i: int| 0 <= i < list.len() ==> is_read(#[trigger] list[i], n)
}

proof fn lemma_fresh_is_read(candidate: Candidate)
    requires
        is_fresh(candidate),
    ensures
        is_read(candidate, 1),
{
    lemma_with_component(candidate.components, "deformationGeometry"@, 0, 0);
}

proof fn lemma_read_is_countable(candidate: Candidate)
    requires
        is_read(candidate, EVIDENCE_BOUND as int),
    ensures
        is_countable(candidate),
{
    lemma_with_component(candidate.components, "deformationGeometry"@, 0, 0);
    lemma_with_component(candidate.components, "independentEvidence"@, 0, 0);
    lemma_total_bounded(candidate.components);
    let list = candidate.components;
    let n = list.len() as int;
    lemma_signed_again(component_total(list, n - 1) + list[n - 1].value);
}

proof fn lemma_read_again(existing: Candidate, candidate: Candidate, n: int)
    requires
        is_read(existing, n),
        is_fresh(candidate),
        n < EVIDENCE_BOUND,
    ensures
        is_read(read_again(existing, candidate), n + 1),
{
    lemma_fresh_is_read(candidate);
    let evidence = existing.evidence_count + candidate.evidence_count;
    let base = if candidate.score > existing.score {
        candidate
    } else {
        existing
    };
    let points = geometry_points(evidence);
    let next = with_component(base.components, "deformationGeometry"@, points);
    lemma_with_component(base.components, "deformationGeometry"@, points, 0);
    assert(0 <= points <= PART_BOUND);
    lemma_set_summable(base.components, "deformationGeometry"@, points);
}

fn read_twice(existing: RecoveryCandidate, candidate: RecoveryCandidate, Ghost(n): Ghost<int>) -> (
result: RecoveryCandidate)
    requires
        is_read(existing@, n),
        is_fresh(candidate@),
        n < EVIDENCE_BOUND,
    ensures
        result@ == read_again(existing@, candidate@),
        is_read(result@, n + 1),
{
    proof {
        lemma_read_again(existing@, candidate@, n);
    }
    let evidence: u64 = existing.evidence_count + candidate.evidence_count;
    let medium: String = String::from_str("medium");
    let confidence: String = if existing.confidence == medium {
        String::from_str(candidate.confidence.as_str())
    } else {
        String::from_str(existing.confidence.as_str())
    };
    let mut result: RecoveryCandidate = if candidate.score > existing.score {
        candidate
    } else {
        existing
    };
    result.evidence_count = evidence;
    result.confidence = confidence;
    if deformed(&result) {
        let points: i128 = if evidence > 1 {
            (evidence as i128 - 1) * 2 * POINT
        } else {
            0
        };
        set_component(&mut result.score_components, "deformationGeometry", points);
        result.score = sum_components(&result.score_components);
    }
    result
}

proof fn lemma_with_reading_at(list: Seq<Candidate>, candidate: Candidate, at: int)
    requires
        0 <= at <= list.len(),
        at == 0 || comes_before(list[at - 1].payload, candidate.payload),
        forall|i: int|
            at <= i < list.len() ==> !comes_before(
                (#[trigger] list[i]).payload,
                candidate.payload,
            ) && list[i].payload != candidate.payload,
    ensures
        with_reading(list, candidate) == list.insert(at, candidate),
    decreases list.len(),
{
    if at == list.len() {
        assert(list.insert(at, candidate) =~= list.push(candidate));
    } else {
        assert(list.last() == list[list.len() - 1]);
        lemma_with_reading_at(list.drop_last(), candidate, at);
        assert(list.insert(at, candidate) =~= list.drop_last().insert(at, candidate).push(
            list.last(),
        ));
    }
}

proof fn lemma_with_known_reading(list: Seq<Candidate>, candidate: Candidate, at: int)
    requires
        0 <= at < list.len(),
        list[at].payload == candidate.payload,
        forall|i: int|
            at < i < list.len() ==> !comes_before(
                (#[trigger] list[i]).payload,
                candidate.payload,
            ) && list[i].payload != candidate.payload,
    ensures
        with_reading(list, candidate) == list.update(at, read_again(list[at], candidate)),
    decreases list.len(),
{
    assert(list.last() == list[list.len() - 1]);
    if at == list.len() - 1 {
        lemma_before_irreflexive(candidate.payload, 0);
        assert(list.update(at, read_again(list[at], candidate)) =~= list.drop_last().push(
            read_again(list.last(), candidate),
        ));
    } else {
        lemma_with_known_reading(list.drop_last(), candidate, at);
        assert(list.update(at, read_again(list[at], candidate)) =~= list.drop_last().update(
            at,
            read_again(list[at], candidate),
        ).push(list.last()));
    }
}

fn note_reading(list: &mut Vec<RecoveryCandidate>, candidate: RecoveryCandidate, Ghost(n): Ghost<
    int,
>)
    requires
        all_read(candidates(old(list)@), n),
        is_fresh(candidate@),
        0 <= n < EVIDENCE_BOUND,
    ensures
        candidates(final(list)@) == with_reading(candidates(old(list)@), candidate@),
        all_read(candidates(final(list)@), n + 1),
        final(list)@.len() <= old(list)@.len() + 1,
{
    let ghost before = candidates(list@);
    let mut at: usize = list.len();
    while at > 0
        invariant
            list@ == old(list)@,
            before == candidates(list@),
            all_read(before, n),
            is_fresh(candidate@),
            0 <= n < EVIDENCE_BOUND,
            at <= list@.len(),
            forall|i: int|
                at <= i < list@.len() ==> !comes_before(
                    (#[trigger] before[i]).payload,
                    candidate@.payload,
                ) && before[i].payload != candidate@.payload,
        ensures
            list@ == old(list)@,
            at <= list@.len(),
            at == 0 || comes_before(before[at - 1].payload, candidate@.payload),
            forall|i: int|
                at <= i < list@.len() ==> !comes_before(
                    (#[trigger] before[i]).payload,
                    candidate@.payload,
                ) && before[i].payload != candidate@.payload,
        decreases at,
    {
        if byte_string_before(&list[at - 1].payload, &candidate.payload) {
            assert(comes_before(before[at - 1].payload, candidate@.payload));
            break;
        }
        if same_bytes(list[at - 1].payload.as_slice(), candidate.payload.as_slice()) {
            proof {
                lemma_with_known_reading(before, candidate@, at - 1);
                assert(is_read(before[at - 1], n));
            }
            let existing: RecoveryCandidate = list.remove(at - 1);
            assert(existing@ == before[at - 1]);
            let result: RecoveryCandidate = read_twice(existing, candidate, Ghost(n));
            list.insert(at - 1, result);
            proof {
                let after = candidates(list@);
                assert(after =~= before.update(at - 1, result@));
                assert forall|i: int| 0 <= i < after.len() implies is_read(
                    #[trigger] after[i],
                    n + 1,
                ) by {
                    if i != at - 1 {
                        assert(is_read(before[i], n));
                    }
                }
            }
            return;
        }
        at -= 1;
    }
    proof {
        lemma_with_reading_at(before, candidate@, at as int);
        lemma_fresh_is_read(candidate@);
        let after = before.insert(at as int, candidate@);
        assert(candidates(list@.insert(at as int, candidate)) =~= after);
        assert forall|i: int| 0 <= i < after.len() implies is_read(#[trigger] after[i], n + 1) by {
            if i < at {
                assert(is_read(before[i], n));
            } else if i > at {
                assert(is_read(before[i - 1], n));
            }
        }
    }
    list.insert(at, candidate);
}

/// Lists readings payload by payload.
fn list_by_payload(readings: Vec<RecoveryCandidate>) -> (list: Vec<RecoveryCandidate>)
    requires
        all_fresh(candidates(readings@)),
        readings@.len() <= EVIDENCE_BOUND,
    ensures
        candidates(list@) == by_payload(candidates(readings@), readings@.len() as int),
        all_read(candidates(list@), EVIDENCE_BOUND as int),
        list@.len() <= readings@.len(),
        payloads_in_order(candidates(list@)),
        all_verified(candidates(readings@)) ==> all_verified(candidates(list@)),
        all_agree(candidates(readings@)) ==> all_agree(candidates(list@)),
        forall|name: Seq<char>|
            #[trigger] all_named(candidates(readings@), name) ==> all_named(
                candidates(list@),
                name,
            ),
{
    let ghost all = candidates(readings@);
    let mut rest: Vec<RecoveryCandidate> = readings;
    let mut list: Vec<RecoveryCandidate> = Vec::new();
    assert(candidates(list@) =~= Seq::<Candidate>::empty());
    assert(candidates(rest@) =~= all.subrange(0, all.len() as int));
    while rest.len() > 0
        invariant
            rest@.len() <= all.len() <= EVIDENCE_BOUND,
            all_fresh(all),
            candidates(rest@) == all.subrange(all.len() - rest@.len(), all.len() as int),
            candidates(list@) == by_payload(all, all.len() - rest@.len()),
            all_read(candidates(list@), all.len() - rest@.len()),
            list@.len() <= all.len() - rest@.len(),
        decreases rest@.len(),
    {
        let ghost before = rest@;
        let ghost done = all.len() - before.len();
        let candidate: RecoveryCandidate = rest.remove(0);
        proof {
            assert(candidate@ == candidates(before)[0]);
            assert(candidates(before)[0] == all[done]);
            assert(candidates(rest@) =~= candidates(before).subrange(1, before.len() as int));
            assert(candidates(rest@) =~= all.subrange(done + 1, all.len() as int));
        }
        note_reading(&mut list, candidate, Ghost(done));
    }
    proof {
        assert forall|i: int| 0 <= i < list@.len() implies is_read(
            #[trigger] candidates(list@)[i],
            EVIDENCE_BOUND as int,
        ) by {
            assert(is_read(candidates(list@)[i], all.len() as int));
        }
        readings_are_listed_once(all, all.len() as int);
        if all_verified(all) {
            lemma_by_payload_verified(all, all.len() as int);
        }
        if all_agree(all) {
            lemma_by_payload_agrees(all, all.len() as int);
        }
        assert forall|name: Seq<char>| #[trigger] all_named(all, name) implies all_named(
            candidates(list@),
            name,
        ) by {
            lemma_by_payload_named(all, name, all.len() as int);
        }
    }
    list
}

fn part(name: &str, value: i128) -> (component: ScoreComponent)
    ensures
        component@ == (Component { name: name@, value: value as int }),
{
    ScoreComponent { name: String::from_str(name), value }
}

proof fn lemma_share_points(low: int, high: int)
    requires
        0 <= low <= high <= SHARE_UNIT,
    ensures
        0 <= share_points(low) <= share_points(high) <= 20 * POINT,
        0 <= rounded(20 * high, SINGLE as int) <= 20 * SHARE_UNIT,
{
    let single = SINGLE as int;
    let top = 20 * SHARE_UNIT;
    lemma_rounded_monotone(0, 20 * low, single);
    lemma_rounded_monotone(20 * low, 20 * high, single);
    lemma_rounded_monotone(20 * high, top, single);
    reveal_with_fuel(spacing, 26);
    assert(spacing(0, single) == 1);
    assert(spacing(top, single) == 33554432);
    assert(nearest(top, 1, 33554432) == top) by {
        assert(top / (1int * 33554432int) == 10485760 && top % (1int * 33554432int) == 0);
    }
}

/// The points for a share.
fn points_of(share: u64) -> (points: i128)
    requires
        share <= SHARE_UNIT,
    ensures
        points == share_points(share as int),
        0 <= points <= 20 * POINT,
{
    proof {
        lemma_share_points(share as int, share as int);
    }
    let single: u128 = round_to(20 * share as u128, SINGLE);
    256 * single as i128
}

fn plain_parts(hypothesis: &Hypothesis, search_cost: u64, quality: u64, points: i64) -> (parts: Vec<
    ScoreComponent,
>)
    requires
        hypothesis.error <= SHARE_UNIT,
        hypothesis.distance <= 30,
        search_cost <= 100_000,
        -100 <= points <= 100,
    ensures
        components(parts@) == plain_components(
            *hypothesis,
            search_cost as int,
            quality,
            points as int,
        ),
        summable(components(parts@)),
        parts@.len() == 6,
{
    let distance_points: i128 = -(hypothesis.distance as i128 * POINT);
    let cost_points: i128 = -(search_cost as i128 * (POINT / 2));
    let structure_points: i128 = -points_of(hypothesis.error);
    let parts: Vec<ScoreComponent> = vec![
        part("correctionCost", cost_points),
        part("decoder", 100 * POINT),
        part("formatEvidence", distance_points),
        part("imageVariant", quality as i128),
        part("payloadHints", points as i128 * POINT),
        part("structureEvidence", structure_points),
    ];
    assert(components(parts@) =~= plain_components(
        *hypothesis,
        search_cost as int,
        quality,
        points as int,
    ));
    parts
}

fn source_text(variant: &str, how: &str, version: u8) -> (text: String)
    ensures
        text@ == source_name(variant@, how@, version),
{
    let mut text: String = String::from_str("rxing-rust:");
    text.append(variant);
    text.append(how);
    text.append(decimal_text(version as u64).as_str());
    text
}

fn make_candidate(
    payload: Vec<u8>,
    text: String,
    matrix: Vec<u8>,
    corrected_symbols: usize,
    hypothesis: &Hypothesis,
    parts: Vec<ScoreComponent>,
    source: String,
    hard: bool,
) -> (candidate: RecoveryCandidate)
    requires
        text@ == lossy_text(payload@),
        summable(components(parts@)),
        parts@.len() <= 8,
    ensures
        candidate@ == read_candidate(
            payload@,
            matrix@,
            corrected_symbols as int,
            *hypothesis,
            components(parts@),
            source@,
            hard,
        ),
        is_fresh(candidate@),
{
    let score: i128 = sum_components(&parts);
    RecoveryCandidate {
        payload,
        text,
        version: hypothesis.version,
        ec_level: String::from_str(hypothesis.level.name()),
        mask: hypothesis.mask,
        matrix,
        matrix_kind: String::from_str("exact"),
        corrected_symbols,
        score,
        score_components: parts,
        confidence: if hard {
            String::from_str("high")
        } else {
            String::from_str("medium")
        },
        source,
        evidence_count: 1,
    }
}

proof fn lemma_confidence(matrix: Seq<u8>, grid: GridModel, n: int)
    requires
        0 <= n,
    ensures
        0 <= matched_confidence(matrix, grid, n) <= total_confidence(grid, n) <= SINGLE_SUM,
    decreases n,
{
    if n > 0 {
        lemma_confidence(matrix, grid, n - 1);
        let more = grid.confidence[n - 1] as int;
        let (matched, total) = (
            matched_confidence(matrix, grid, n - 1),
            total_confidence(grid, n - 1),
        );
        lemma_weighed(matched, 0);
        lemma_weighed(matched, more);
        lemma_weighed(total, more);
        lemma_rounded_monotone(matched, total + more, SINGLE as int);
        lemma_rounded_monotone(matched + more, total + more, SINGLE as int);
    }
}

/// How much of a grid a symbol agrees with.
fn agreement_of(matrix: &Vec<u8>, grid: &ModuleGrid) -> (agreed: u64)
    requires
        is_grid(grid@),
        matrix@.len() == grid@.modules.len(),
    ensures
        agreed == agreement(matrix@, grid@),
        agreed <= SHARE_UNIT,
{
    let mut matched: u128 = 0;
    let mut total: u128 = 0;
    let mut i: usize = 0;
    while i < grid.modules.len()
        invariant
            is_grid(grid@),
            matrix@.len() == grid@.modules.len(),
            i <= grid@.modules.len(),
            matched == matched_confidence(matrix@, grid@, i as int),
            total == total_confidence(grid@, i as int),
            matched <= SINGLE_SUM,
            total <= SINGLE_SUM,
        decreases grid@.modules.len() - i,
    {
        matched = weigh(
            matched,
            if matrix[i] == grid.modules[i] {
                grid.confidence[i]
            } else {
                0
            },
        );
        total = weigh(total, grid.confidence[i]);
        i += 1;
    }
    proof {
        lemma_confidence(matrix@, grid@, i as int);
    }
    share_of(matched, total)
}

/// What a reading of a variant is scored by.
struct VariantInfo<'a> {
    name: &'a str,
    quality: u64,
    options: &'a RecoveryOptions,
}

/// What is asked of every reading of a variant.
spec fn variant_of(info: VariantInfo) -> Variant {
    Variant { name: info.name@, quality: info.quality, options: *info.options }
}

fn deformed_parts(
    hypothesis: &Hypothesis,
    search_cost: u64,
    info: &VariantInfo,
    points: i64,
    payload: &Vec<u8>,
    agreement: u64,
) -> (parts: Vec<ScoreComponent>)
    requires
        hypothesis.error <= SHARE_UNIT,
        hypothesis.distance <= 30,
        search_cost <= 100_000,
        -100 <= points <= 100,
        agreement <= SHARE_UNIT,
    ensures
        components(parts@) == deformed_components(
            *hypothesis,
            search_cost as int,
            info.quality,
            points as int,
            payload@,
            agreement as int,
        ),
        summable(components(parts@)),
        parts@.len() == 8,
{
    let mut parts: Vec<ScoreComponent> = plain_parts(hypothesis, search_cost, info.quality, points);
    let ghost plain = components(parts@);
    let utf8_points: i128 = if is_utf8(payload.as_slice()) {
        4 * POINT
    } else {
        -4 * POINT
    };
    let utf8: ScoreComponent = part("utf8Evidence", utf8_points);
    let agreeing: ScoreComponent = part("imageAgreement", points_of(agreement));
    parts.insert(3, agreeing);
    parts.push(utf8);
    proof {
        let all = components(parts@);
        assert(all =~= plain.insert(3, agreeing@).push(utf8@));
        assert forall|i: int| 0 <= i < all.len() implies -PART_BOUND <= (#[trigger] all[i]).value
            <= PART_BOUND by {
            if i < 3 {
                assert(all[i] == plain[i]);
            } else if 3 < i < 7 {
                assert(all[i] == plain[i - 1]);
            }
        }
    }
    parts
}

proof fn lemma_differences(a: Seq<u8>, b: Seq<u8>, n: int)
    ensures
        0 <= differences(a, b, n),
        n >= 0 ==> differences(a, b, n) <= n,
    decreases n,
{
    if n > 0 {
        lemma_differences(a, b, n - 1);
    }
}

/// Reads a deformed grid under a hypothesis.
fn read_deformed(grids: &Vec<ModuleGrid>, hypothesis: &Hypothesis, info: &VariantInfo) -> (found:
    Option<RecoveryCandidate>)
    requires
        are_grids(grid_models(grids@)),
        is_about(*hypothesis, grid_models(grids@)),
    ensures
        match deformed_reading(grid_models(grids@), *hypothesis, variant_of(*info)) {
            Some(candidate) => found is Some && found->Some_0@ == candidate && is_fresh(candidate)
                && is_verified(candidate) && agrees(candidate),
            None => found is None,
        },
{
    let ghost models = grid_models(grids@);
    let grid: &ModuleGrid = &grids[hypothesis.grid];
    let ghost model = models[hypothesis.grid as int];
    assert(is_grid(model) && grid@ == model);
    let (version, level, mask): (u8, EcLevel, u8) = (
        hypothesis.version,
        hypothesis.level,
        hypothesis.mask,
    );
    let extracted: ExtractedCodewords = extract_codewords_of(
        grid.modules.as_slice(),
        grid.confidence.as_slice(),
        version,
        level,
        mask,
    );
    let ghost seen = extracted.codewords@;
    proof {
        capacity_bounds(version as int);
    }
    let stream: CorrectedStream = match repair_tail_of(
        extracted.codewords.as_slice(),
        version,
        level,
    ) {
        Some(stream) => stream,
        None => {
            return None;
        },
    };
    proof {
        lemma_differences(seen, stream.codewords@, seen.len() as int);
    }
    let matrix: Vec<u8> = matrix_from_codewords_of(
        stream.codewords.as_slice(),
        version,
        level,
        mask,
    );
    let agreed: u64 = agreement_of(&matrix, grid);
    if agreed < LEAST_AGREEMENT {
        return None;
    }
    let payload: Vec<u8> = match read_symbol(matrix.as_slice(), version, level, mask) {
        Some(payload) => payload,
        None => {
            return None;
        },
    };
    let text: String = read_text(payload.as_slice());
    let points: i64 = hint_score(&payload, &text, version, level, info.options);
    let parts: Vec<ScoreComponent> = deformed_parts(
        hypothesis,
        stream.search_cost,
        info,
        points,
        &payload,
        agreed,
    );
    let ghost shares = components(parts@);
    let candidate: RecoveryCandidate = make_candidate(
        payload,
        text,
        matrix,
        stream.corrected_symbols,
        hypothesis,
        parts,
        source_text(info.name, ":deformed-v", version),
        true,
    );
    proof {
        lemma_drawn_verified(stream.codewords@, candidate@, level);
        lemma_agreement_part(shares);
        lemma_share_points(LEAST_AGREEMENT as int, agreed as int);
    }
    Some(candidate)
}

/// Reads deformed grids under all hypotheses about them.
fn read_all_deformed(grids: &Vec<ModuleGrid>, list: &Vec<Hypothesis>, info: &VariantInfo) -> (found:
    (Vec<RecoveryCandidate>, u64))
    requires
        are_grids(grid_models(grids@)),
        are_about(list@, grid_models(grids@)),
        list@.len() <= EVIDENCE_BOUND,
    ensures
        candidates(found.0@) == deformed_readings(
            grid_models(grids@),
            list@,
            variant_of(*info),
            list@.len() as int,
        ),
        found.1 == deformed_count(list@, list@.len() as int),
        all_fresh(candidates(found.0@)),
        all_verified(candidates(found.0@)),
        all_agree(candidates(found.0@)),
        found.0@.len() <= list@.len(),
        found.1 <= list@.len(),
{
    let ghost models = grid_models(grids@);
    let mut found: Vec<RecoveryCandidate> = Vec::new();
    let mut attempts: u64 = 0;
    let mut i: usize = 0;
    assert(candidates(found@) =~= Seq::<Candidate>::empty());
    while i < list.len()
        invariant
            models == grid_models(grids@),
            are_grids(models),
            are_about(list@, models),
            list@.len() <= EVIDENCE_BOUND,
            i <= list@.len(),
            candidates(found@) == deformed_readings(models, list@, variant_of(*info), i as int),
            attempts == deformed_count(list@, i as int),
            attempts <= i,
            found@.len() <= i,
            all_fresh(candidates(found@)),
            all_verified(candidates(found@)),
            all_agree(candidates(found@)),
        decreases list@.len() - i,
    {
        assert(is_about(list@[i as int], models));
        if list[i].deformed {
            attempts += 1;
            if let Some(candidate) = read_deformed(grids, &list[i], info) {
                let ghost before = candidates(found@);
                found.push(candidate);
                assert(candidates(found@) =~= before.push(candidate@));
            }
        }
        i += 1;
    }
    (found, attempts)
}

/// Reads the streams that a flat grid gives under a hypothesis.
fn read_streams(
    streams: &Vec<CorrectedStream>,
    hypothesis: &Hypothesis,
    info: &VariantInfo,
    hard: bool,
) -> (found: Vec<RecoveryCandidate>)
    requires
        valid_version(hypothesis.version as int),
        hypothesis.mask <= 7,
        hypothesis.distance <= 30,
        hypothesis.error <= SHARE_UNIT,
        forall|i: int|
            0 <= i < streams@.len() ==> stream_sound(
                #[trigger] stream_views(streams@)[i],
                hypothesis.version as int,
                hypothesis.level,
            ),
    ensures
        candidates(found@) == stream_readings(
            stream_views(streams@),
            *hypothesis,
            variant_of(*info),
            hard,
            streams@.len() as int,
        ),
        all_fresh(candidates(found@)),
        all_verified(candidates(found@)),
        all_named(candidates(found@), info.name@),
        found@.len() <= streams@.len(),
{
    let (version, level, mask): (u8, EcLevel, u8) = (
        hypothesis.version,
        hypothesis.level,
        hypothesis.mask,
    );
    let ghost views = stream_views(streams@);
    let mut found: Vec<RecoveryCandidate> = Vec::new();
    assert(candidates(found@) =~= Seq::<Candidate>::empty());
    let mut i: usize = 0;
    while i < streams.len()
        invariant
            version == hypothesis.version,
            level == hypothesis.level,
            mask == hypothesis.mask,
            valid_version(hypothesis.version as int),
            hypothesis.mask <= 7,
            hypothesis.distance <= 30,
            hypothesis.error <= SHARE_UNIT,
            views == stream_views(streams@),
            forall|k: int|
                0 <= k < streams@.len() ==> stream_sound(
                    #[trigger] views[k],
                    hypothesis.version as int,
                    hypothesis.level,
                ),
            i <= streams@.len(),
            candidates(found@) == stream_readings(
                views,
                *hypothesis,
                variant_of(*info),
                hard,
                i as int,
            ),
            all_fresh(candidates(found@)),
            all_verified(candidates(found@)),
            all_named(candidates(found@), info.name@),
            found@.len() <= i,
        decreases streams@.len() - i,
    {
        assert(stream_sound(views[i as int], version as int, level));
        let matrix: Vec<u8> = matrix_from_codewords_of(
            streams[i].codewords.as_slice(),
            version,
            level,
            mask,
        );
        if let Some(payload) = read_symbol(matrix.as_slice(), version, level, mask) {
            let text: String = read_text(payload.as_slice());
            let points: i64 = hint_score(&payload, &text, version, level, info.options);
            let parts: Vec<ScoreComponent> = plain_parts(
                hypothesis,
                streams[i].search_cost,
                info.quality,
                points,
            );
            let candidate: RecoveryCandidate = make_candidate(
                payload,
                text,
                matrix,
                streams[i].corrected_symbols,
                hypothesis,
                parts,
                source_text(info.name, ":resampled-v", version),
                hard,
            );
            proof {
                lemma_drawn_verified(views[i as int].codewords, candidate@, level);
            }
            let ghost before = candidates(found@);
            found.push(candidate);
            assert(candidates(found@) =~= before.push(candidate@));
        }
        i += 1;
    }
    found
}

/// Grids, what deformed ones among them show, and which flat ones are left to be
/// searched.
#[derive(Debug)]
pub struct DecodePlan {
    pub grids: Vec<ModuleGrid>,
    pub candidates: Vec<RecoveryCandidate>,
    pub attempts: u64,
    pub standard: Vec<Hypothesis>,
}

/// Whether a plan can be carried out.
pub closed spec fn is_plan(plan: DecodePlan) -> bool {
    &&& are_grids(grid_models(plan.grids@))
    &&& are_about(plan.standard@, grid_models(plan.grids@))
    &&& plan.standard@.len() <= 8
    &&& all_read(candidates(plan.candidates@), EVIDENCE_BOUND as int)
    &&& all_agree(candidates(plan.candidates@))
    &&& payloads_in_order(candidates(plan.candidates@))
    &&& all_repeated(candidates(plan.candidates@))
    &&& plan.candidates@.len() <= EVIDENCE_BOUND
    &&& plan.attempts <= EVIDENCE_BOUND
}

/// What is left to be searched, once deformed grids were read.
pub open spec fn left_to_search(deformed: Seq<Candidate>, list: Seq<Hypothesis>) -> Seq<
    Hypothesis,
> {
    if deformed.len() > 0 {
        Seq::empty()
    } else {
        standard_hypotheses(list, list.len() as int)
    }
}

/// What carrying out a plan gives.
pub open spec fn carried_out(
    plan: DecodePlan,
    variant: Variant,
    max_attempts: int,
    chase_bits: int,
    outcomes: Seq<Vec<Vec<Option<ErasureOutcome>>>>,
) -> Decoded {
    let found = standard_readings(
        grid_models(plan.grids@),
        plan.standard@,
        variant,
        max_attempts,
        chase_bits,
        outcomes,
        plan.standard@.len() as int,
    );
    let deformed = candidates(plan.candidates@);
    if plan.grids@.len() == 0 {
        Decoded { candidates: Seq::empty(), valid_reads: 0, invalid_reads: 0, attempts: 0 }
    } else if deformed.len() > 0 {
        outcome_of(deformed, plan.attempts as int)
    } else {
        outcome_of(
            by_payload(found.candidates, found.candidates.len() as int),
            plan.attempts + found.attempts,
        )
    }
}

/// Whether a plan is the one for some grids of a variant.
pub open spec fn is_plan_for(plan: DecodePlan, grids: Seq<GridModel>, variant: Variant) -> bool {
    let list = hypotheses(grids, variant.options.ec_level);
    let deformed = deformed_found(grids, list, variant);
    &&& grid_models(plan.grids@) == grids
    &&& candidates(plan.candidates@) == deformed
    &&& plan.attempts == deformed_count(list, list.len() as int)
    &&& plan.standard@ == left_to_search(deformed, list)
}

/// Planning and carrying out the plan reads what grids give.
pub proof fn plans_read_grids(
    plan: DecodePlan,
    grids: Seq<GridModel>,
    variant: Variant,
    max_attempts: int,
    chase_bits: int,
    outcomes: Seq<Vec<Vec<Option<ErasureOutcome>>>>,
)
    requires
        is_plan_for(plan, grids, variant),
    ensures
        carried_out(plan, variant, max_attempts, chase_bits, outcomes) == decoded(
            grids,
            variant,
            max_attempts,
            chase_bits,
            outcomes,
        ),
{
    assert(grid_models(plan.grids@).len() == plan.grids@.len());
}

fn pick_standard(list: &Vec<Hypothesis>, Ghost(models): Ghost<Seq<GridModel>>) -> (standard: Vec<
    Hypothesis,
>)
    requires
        are_about(list@, models),
    ensures
        standard@ == standard_hypotheses(list@, list@.len() as int),
        standard@.len() <= 8,
        are_about(standard@, models),
{
    let mut standard: Vec<Hypothesis> = Vec::new();
    let mut i: usize = 0;
    while i < list.len()
        invariant
            are_about(list@, models),
            i <= list@.len(),
            standard@ == standard_hypotheses(list@, i as int),
            standard@.len() <= 8,
            are_about(standard@, models),
        decreases list@.len() - i,
    {
        assert(is_about(list@[i as int], models));
        if standard.len() < 8 && !list[i].deformed {
            standard.push(list[i]);
        }
        i += 1;
    }
    standard
}

/// Keeps the candidates that were read more than once.
fn keep_repeated(list: Vec<RecoveryCandidate>) -> (kept: Vec<RecoveryCandidate>)
    requires
        all_read(candidates(list@), EVIDENCE_BOUND as int),
    ensures
        candidates(kept@) == repeated(candidates(list@), list@.len() as int),
        kept@.len() <= list@.len(),
        all_read(candidates(kept@), EVIDENCE_BOUND as int),
        all_repeated(candidates(kept@)),
        payloads_in_order(candidates(list@)) ==> payloads_in_order(candidates(kept@)),
        all_verified(candidates(list@)) ==> all_verified(candidates(kept@)),
        all_agree(candidates(list@)) ==> all_agree(candidates(kept@)),
{
    let ghost all = candidates(list@);
    let mut rest: Vec<RecoveryCandidate> = list;
    let mut kept: Vec<RecoveryCandidate> = Vec::new();
    assert(candidates(kept@) =~= Seq::<Candidate>::empty());
    assert(candidates(rest@) =~= all.subrange(0, all.len() as int));
    while rest.len() > 0
        invariant
            rest@.len() <= all.len(),
            all_read(all, EVIDENCE_BOUND as int),
            candidates(rest@) == all.subrange(all.len() - rest@.len(), all.len() as int),
            candidates(kept@) == repeated(all, all.len() - rest@.len()),
            kept@.len() <= all.len() - rest@.len(),
            all_read(candidates(kept@), EVIDENCE_BOUND as int),
            all_repeated(candidates(kept@)),
            all_verified(all) ==> all_verified(candidates(kept@)),
            all_agree(all) ==> all_agree(candidates(kept@)),
        decreases rest@.len(),
    {
        let ghost before = rest@;
        let ghost done = all.len() - before.len();
        let candidate: RecoveryCandidate = rest.remove(0);
        proof {
            assert(candidate@ == candidates(before)[0]);
            assert(candidates(before)[0] == all[done]);
            assert(candidates(rest@) =~= candidates(before).subrange(1, before.len() as int));
            assert(candidates(rest@) =~= all.subrange(done + 1, all.len() as int));
        }
        if candidate.evidence_count >= 2 {
            let ghost earlier = candidates(kept@);
            kept.push(candidate);
            assert(candidates(kept@) =~= earlier.push(candidate@));
        }
    }
    proof {
        if payloads_in_order(all) {
            lemma_repeated_order(all, all.len() as int);
        }
    }
    kept
}

proof fn lemma_repeated_order(list: Seq<Candidate>, n: int)
    requires
        0 <= n <= list.len(),
        payloads_in_order(list),
    ensures
        payloads_in_order(repeated(list, n)),
        forall|i: int|
            0 <= i < repeated(list, n).len() ==> exists|k: int|
                0 <= k < n && #[trigger] repeated(list, n)[i] == #[trigger] list[k],
    decreases n,
{
    if n > 0 {
        lemma_repeated_order(list, n - 1);
        let before = repeated(list, n - 1);
        let after = repeated(list, n);
        assert forall|i: int| 0 <= i < after.len() implies exists|k: int|
            0 <= k < n && #[trigger] after[i] == #[trigger] list[k] by {
            if i < before.len() {
                let k = choose|k: int| 0 <= k < n - 1 && before[i] == #[trigger] list[k];
                assert(after[i] == list[k]);
            } else {
                assert(after[i] == list[n - 1]);
            }
        }
        assert forall|i: int, j: int| 0 <= i < j < after.len() implies comes_before(
            (#[trigger] after[i]).payload,
            (#[trigger] after[j]).payload,
        ) by {
            assert(after[i] == before[i]);
            if j < before.len() {
                assert(after[j] == before[j]);
            } else {
                let k = choose|k: int| 0 <= k < n - 1 && before[i] == #[trigger] list[k];
                assert(comes_before(list[k].payload, list[n - 1].payload));
            }
        }
    }
}

/// Ranks what grids may show and reads the deformed ones.
pub fn plan_decode(
    grids: Vec<ModuleGrid>,
    variant_name: &str,
    quality: u64,
    options: &RecoveryOptions,
) -> (plan: DecodePlan)
    requires
        are_grids(grid_models(grids@)),
        32 * grids@.len() <= EVIDENCE_BOUND,
    ensures
        is_plan(plan),
        all_verified(candidates(plan.candidates@)),
        is_plan_for(
            plan,
            grid_models(grids@),
            (Variant { name: variant_name@, quality, options: *options }),
        ),
{
    let ghost models = grid_models(grids@);
    let info: VariantInfo = VariantInfo { name: variant_name, quality, options };
    let list: Vec<Hypothesis> = rank_hypotheses(&grids, options.ec_level);
    let (readings, attempts): (Vec<RecoveryCandidate>, u64) = read_all_deformed(
        &grids,
        &list,
        &info,
    );
    assert(candidates(readings@).len() == readings@.len());
    let found: Vec<RecoveryCandidate> = keep_repeated(list_by_payload(readings));
    let standard: Vec<Hypothesis> = if found.len() > 0 {
        Vec::new()
    } else {
        pick_standard(&list, Ghost(models))
    };
    assert(candidates(found@).len() == found@.len());
    DecodePlan { grids, candidates: found, attempts, standard }
}

/// Whether requests are for the erasures of what is left to be searched.
pub open spec fn are_requests(requests: Seq<Vec<ErasurePlan>>, plan: DecodePlan) -> bool {
    &&& requests.len() == plan.standard@.len()
    &&& forall|i: int|
        0 <= i < requests.len() ==> {
            let hypothesis = plan.standard@[i];
            let grid = grid_models(plan.grids@)[hypothesis.grid as int];
            let version = hypothesis.version as int;
            are_erasure_plans(
                (#[trigger] requests[i])@,
                shown_codewords(grid.modules, version, hypothesis.mask as int),
                shown_reliability(grid.confidence, version),
                version,
                hypothesis.level,
            )
        }
}

impl DecodePlan {
    fn extract(&self, i: usize) -> (extracted: ExtractedCodewords)
        requires
            is_plan(*self),
            i < self.standard@.len(),
        ensures
            ({
                let hypothesis = self.standard@[i as int];
                let grid = grid_models(self.grids@)[hypothesis.grid as int];
                let version = hypothesis.version as int;
                &&& extracted.codewords@ == shown_codewords(
                    grid.modules,
                    version,
                    hypothesis.mask as int,
                )
                &&& extracted.bit_reliability@ == shown_reliability(grid.confidence, version)
                &&& extracted.codewords@.len() == total_codewords(version)
                &&& extracted.bit_reliability@.len() == 8 * total_codewords(version)
                &&& valid_version(version)
            }),
    {
        let hypothesis: Hypothesis = self.standard[i];
        proof {
            assert(is_about(self.standard@[i as int], grid_models(self.grids@)));
            assert(is_grid(grid_models(self.grids@)[hypothesis.grid as int]));
            capacity_bounds(hypothesis.version as int);
        }
        extract_codewords_of(
            self.grids[hypothesis.grid].modules.as_slice(),
            self.grids[hypothesis.grid].confidence.as_slice(),
            hypothesis.version,
            hypothesis.level,
            hypothesis.mask,
        )
    }

    /// What is to be decoded with which erasures before the plan is carried out.
    pub fn erasure_requests(&self) -> (requests: Vec<Vec<ErasurePlan>>)
        requires
            is_plan(*self),
        ensures
            are_requests(requests@, *self),
    {
        let mut requests: Vec<Vec<ErasurePlan>> = Vec::new();
        let mut i: usize = 0;
        while i < self.standard.len()
            invariant
                is_plan(*self),
                i <= self.standard@.len(),
                requests@.len() == i,
                forall|k: int|
                    0 <= k < i ==> {
                        let hypothesis = self.standard@[k];
                        let grid = grid_models(self.grids@)[hypothesis.grid as int];
                        let version = hypothesis.version as int;
                        are_erasure_plans(
                            (#[trigger] requests@[k])@,
                            shown_codewords(grid.modules, version, hypothesis.mask as int),
                            shown_reliability(grid.confidence, version),
                            version,
                            hypothesis.level,
                        )
                    },
            decreases self.standard@.len() - i,
        {
            let extracted: ExtractedCodewords = self.extract(i);
            requests.push(
                erasure_plans_of(
                    extracted.codewords.as_slice(),
                    extracted.bit_reliability.as_slice(),
                    self.standard[i].version,
                    self.standard[i].level,
                ),
            );
            i += 1;
        }
        requests
    }

    /// Carries out the plan, given the outcomes of decoding with erasures.
    pub fn carry_out(
        self,
        variant_name: &str,
        quality: u64,
        options: &RecoveryOptions,
        max_attempts: usize,
        chase_bits: usize,
        outcomes: &Vec<Vec<Vec<Option<ErasureOutcome>>>>,
    ) -> (outcome: DecodeOutcome)
        requires
            is_plan(self),
        ensures
            outcome@ == carried_out(
                self,
                (Variant { name: variant_name@, quality, options: *options }),
                max_attempts as int,
                chase_bits as int,
                outcomes@,
            ),
            can_be_counted(outcome@),
            outcome@.valid_reads + outcome@.invalid_reads <= 1,
            outcome@.attempts <= EVIDENCE_BOUND + 16_648,
            payloads_in_order(outcome@.candidates),
            all_add_up(outcome@.candidates),
            all_verified(candidates(self.candidates@)) ==> all_verified(outcome@.candidates),
            forall|i: int|
                0 <= i < outcome@.candidates.len() ==> is_supported(
                    #[trigger] outcome@.candidates[i],
                    variant_name@,
                ),
    {
        let ghost models = grid_models(self.grids@);
        let ghost variant = Variant { name: variant_name@, quality, options: *options };
        assert(models.len() == self.grids@.len());
        if self.grids.len() == 0 {
            let list: Vec<RecoveryCandidate> = Vec::new();
            assert(candidates(list@) =~= Seq::<Candidate>::empty());
            return DecodeOutcome {
                candidates: list,
                valid_reads: 0,
                invalid_reads: 0,
                attempts: 0,
            };
        }
        let info: VariantInfo = VariantInfo { name: variant_name, quality, options };
        assert(candidates(self.candidates@).len() == self.candidates@.len());
        if self.candidates.len() > 0 {
            let list: Vec<RecoveryCandidate> = self.candidates;
            proof {
                assert forall|k: int| 0 <= k < list@.len() implies is_countable(
                    #[trigger] candidates(list@)[k],
                ) by {
                    assert(is_read(candidates(list@)[k], EVIDENCE_BOUND as int));
                    lemma_read_is_countable(candidates(list@)[k]);
                }
            }
            return DecodeOutcome {
                candidates: list,
                valid_reads: 1,
                invalid_reads: 0,
                attempts: self.attempts,
            };
        }
        let limit: usize = if max_attempts > 2000 {
            2000
        } else {
            max_attempts
        };
        let none: Vec<Vec<Option<ErasureOutcome>>> = Vec::new();
        let mut found: Vec<RecoveryCandidate> = Vec::new();
        assert(candidates(found@) =~= Seq::<Candidate>::empty());
        let mut attempts: u64 = 0;
        let mut i: usize = 0;
        while i < self.standard.len()
            invariant
                is_plan(self),
                models == grid_models(self.grids@),
                variant == variant_of(info),
                limit == attempt_limit(max_attempts as int),
                limit <= 2000,
                none@ == Seq::<Vec<Option<ErasureOutcome>>>::empty(),
                i <= self.standard@.len() <= 8,
                attempts <= 2081 * i,
                found@.len() <= 8 * i,
                all_fresh(candidates(found@)),
                all_verified(candidates(found@)),
                all_named(candidates(found@), variant_name@),
                info.name@ == variant_name@,
                ({
                    let searched = standard_readings(
                        models,
                        self.standard@,
                        variant,
                        max_attempts as int,
                        chase_bits as int,
                        outcomes@,
                        i as int,
                    );
                    &&& candidates(found@) == searched.candidates
                    &&& attempts == searched.attempts
                }),
            decreases self.standard@.len() - i,
        {
            let hypothesis: Hypothesis = self.standard[i];
            assert(is_about(self.standard@[i as int], models));
            let extracted: ExtractedCodewords = self.extract(i);
            let given: &Vec<Vec<Option<ErasureOutcome>>> = if i < outcomes.len() {
                &outcomes[i]
            } else {
                &none
            };
            let (streams, tried): (Vec<CorrectedStream>, usize) = correct_interleaved_of(
                extracted.codewords.as_slice(),
                extracted.bit_reliability.as_slice(),
                hypothesis.version,
                hypothesis.level,
                chase_bits,
                limit,
                8,
                given,
            );
            let hard: bool = decodes_hard_of(
                extracted.codewords.as_slice(),
                extracted.bit_reliability.as_slice(),
                hypothesis.version,
                hypothesis.level,
            );
            let mut more: Vec<RecoveryCandidate> = read_streams(
                &streams,
                &hypothesis,
                &info,
                hard,
            );
            let ghost (earlier, later) = (candidates(found@), candidates(more@));
            assert(stream_views(streams@).len() == streams@.len());
            found.append(&mut more);
            proof {
                assert(candidates(found@) =~= earlier + later);
                lemma_joined(earlier, later, variant_name@);
            }
            attempts = attempts + tried as u64;
            i += 1;
        }
        let list: Vec<RecoveryCandidate> = list_by_payload(found);
        proof {
            assert forall|k: int| 0 <= k < list@.len() implies is_countable(
                #[trigger] candidates(list@)[k],
            ) by {
                assert(is_read(candidates(list@)[k], EVIDENCE_BOUND as int));
                lemma_read_is_countable(candidates(list@)[k]);
            }
            assert forall|k: int| 0 <= k < list@.len() implies is_supported(
                #[trigger] candidates(list@)[k],
                variant_name@,
            ) by {
                assert(is_named(candidates(list@)[k], variant_name@));
            }
        }
        let read: bool = list.len() > 0;
        assert(candidates(list@).len() == list@.len());
        DecodeOutcome {
            candidates: list,
            valid_reads: if read {
                1
            } else {
                0
            },
            invalid_reads: if read {
                0
            } else {
                1
            },
            attempts: self.attempts + attempts,
        }
    }
}

/// What a variant gave.
#[derive(Debug)]
pub struct DecodeOutcome {
    pub candidates: Vec<RecoveryCandidate>,
    pub valid_reads: u64,
    pub invalid_reads: u64,
    pub attempts: u64,
}

impl View for DecodeOutcome {
    type V = Decoded;

    open spec fn view(&self) -> Decoded {
        Decoded {
            candidates: candidates(self.candidates@),
            valid_reads: self.valid_reads as int,
            invalid_reads: self.invalid_reads as int,
            attempts: self.attempts as int,
        }
    }
}

/// Whether a candidate can be counted with others.
pub open spec fn is_countable(candidate: Candidate) -> bool {
    &&& summable(candidate.components)
    &&& with_component(candidate.components, "independentEvidence"@, 0).len() <= PART_LIMIT
    &&& -READ_SCORE_BOUND <= candidate.score <= READ_SCORE_BOUND
    &&& is_double(candidate.score)
    &&& 1 <= candidate.evidence_count <= EVIDENCE_BOUND
}

/// Whether an outcome is of a read where it has candidates, and these can be
/// counted with others.
pub open spec fn can_be_counted(outcome: Decoded) -> bool {
    &&& outcome.candidates.len() <= EVIDENCE_BOUND
    &&& outcome.candidates.len() > 0 ==> outcome.valid_reads >= 1
    &&& forall|i: int|
        0 <= i < outcome.candidates.len() ==> is_countable(#[trigger] outcome.candidates[i])
}

/// Whether the score of each candidate is the sum of its components.
pub open spec fn all_add_up(list: Seq<Candidate>) -> bool {
    forall|i: int|
        0 <= i < list.len() ==> (#[trigger] list[i]).score == total_score(list[i].components)
}

/// Whether candidates stand in the order of their payloads, none of which stands
/// twice.
pub open spec fn payloads_in_order(list: Seq<Candidate>) -> bool {
    forall|i: int, j: int|
        0 <= i < j < list.len() ==> comes_before(
            (#[trigger] list[i]).payload,
            (#[trigger] list[j]).payload,
        )
}

proof fn lemma_with_reading_order(list: Seq<Candidate>, candidate: Candidate)
    requires
        payloads_in_order(list),
    ensures
        payloads_in_order(with_reading(list, candidate)),
        with_reading(list, candidate).len() > 0,
        with_reading(list, candidate).last().payload == candidate.payload || (list.len() > 0
            && with_reading(list, candidate).last().payload == list.last().payload),
    decreases list.len(),
{
    let next = with_reading(list, candidate);
    let n = list.len() as int;
    if n == 0 || comes_before(list.last().payload, candidate.payload) {
        assert forall|i: int, j: int| 0 <= i < j < next.len() implies comes_before(
            (#[trigger] next[i]).payload,
            (#[trigger] next[j]).payload,
        ) by {
            if j == n && i < n - 1 {
                assert(list[n - 1] == list.last());
                lemma_before_transitive(
                    list[i].payload,
                    list.last().payload,
                    candidate.payload,
                    0,
                );
            }
        }
    } else {
        let rest = list.drop_last();
        assert forall|i: int, j: int| 0 <= i < j < rest.len() implies comes_before(
            (#[trigger] rest[i]).payload,
            (#[trigger] rest[j]).payload,
        ) by {
            assert(rest[i] == list[i] && rest[j] == list[j]);
        }
        if list.last().payload == candidate.payload {
            assert forall|i: int, j: int| 0 <= i < j < next.len() implies comes_before(
                (#[trigger] next[i]).payload,
                (#[trigger] next[j]).payload,
            ) by {
                assert(next[i] == list[i]);
                assert(next[j].payload == list[j].payload);
            }
        } else {
            let inner = with_reading(rest, candidate);
            lemma_with_reading_order(rest, candidate);
            lemma_before_total(list.last().payload, candidate.payload, 0);
            let m = inner.len() as int;
            assert(comes_before(inner.last().payload, list.last().payload)) by {
                if inner.last().payload != candidate.payload {
                    assert(rest.last() == list[n - 2]);
                    assert(list.last() == list[n - 1]);
                }
            }
            assert forall|i: int, j: int| 0 <= i < j < next.len() implies comes_before(
                (#[trigger] next[i]).payload,
                (#[trigger] next[j]).payload,
            ) by {
                if j < m {
                    assert(next[i] == inner[i] && next[j] == inner[j]);
                } else {
                    assert(next[i] == inner[i]);
                    if i < m - 1 {
                        assert(inner.last() == inner[m - 1]);
                        lemma_before_transitive(
                            inner[i].payload,
                            inner.last().payload,
                            list.last().payload,
                            0,
                        );
                    }
                }
            }
        }
    }
}

/// Readings are listed in the order of their payloads, each payload once.
pub proof fn readings_are_listed_once(list: Seq<Candidate>, n: int)
    requires
        0 <= n <= list.len(),
    ensures
        payloads_in_order(by_payload(list, n)),
    decreases n,
{
    if n > 0 {
        readings_are_listed_once(list, n - 1);
        lemma_with_reading_order(by_payload(list, n - 1), list[n - 1]);
    }
}

/// Whether a matrix is a clean symbol: of the right size, with its function
/// modules in place, and made of code words.
pub open spec fn is_clean_symbol(matrix: Seq<u8>, version: int, level: EcLevel, mask: int) -> bool {
    let side = symbol_side(version);
    &&& valid_version(version)
    &&& matrix.len() == side * side
    &&& forall|x: int, y: int|
        0 <= x < side && 0 <= y < side && #[trigger] is_function(version, x, y) ==> matrix[y * side
            + x] == function_matrix(version, level, mask)[y * side + x]
    &&& blocks_are_code_words(shown_codewords(matrix, version, mask), version, level)
}

/// Whether the matrix of a candidate is a clean symbol of the version, level and
/// mask that the candidate names, and an independent decoder reads its payload
/// from it in just these.
pub open spec fn is_verified(candidate: Candidate) -> bool {
    exists|level: EcLevel|
        candidate.ec_level == #[trigger] level_name(level) && is_clean_symbol(
            candidate.matrix,
            candidate.version as int,
            level,
            candidate.mask as int,
        ) && verified_payload(
            candidate.matrix,
            candidate.version as int,
            level,
            candidate.mask as int,
        ) == Some(candidate.payload)
}

/// Whether all candidates are verified.
pub open spec fn all_verified(list: Seq<Candidate>) -> bool {
    forall|i: int| 0 <= i < list.len() ==> is_verified(#[trigger] list[i])
}

proof fn lemma_drawn_verified(codewords: Seq<u8>, candidate: Candidate, level: EcLevel)
    requires
        valid_version(candidate.version as int),
        codewords.len() == total_codewords(candidate.version as int),
        blocks_are_code_words(codewords, candidate.version as int, level),
        candidate.ec_level == level_name(level),
        candidate.matrix == symbol_matrix(
            codewords,
            candidate.version as int,
            level,
            candidate.mask as int,
        ),
        verified_payload(
            candidate.matrix,
            candidate.version as int,
            level,
            candidate.mask as int,
        ) == Some(candidate.payload),
    ensures
        is_verified(candidate),
{
    let (version, mask) = (candidate.version as int, candidate.mask as int);
    reading_undoes_drawing(codewords, version, level, mask);
    assert forall|x: int, y: int|
        0 <= x < symbol_side(version) && 0 <= y < symbol_side(version) && #[trigger] is_function(
            version,
            x,
            y,
        ) implies candidate.matrix[y * symbol_side(version) + x] == function_matrix(
        version,
        level,
        mask,
    )[y * symbol_side(version) + x] by {
        drawing_keeps_functions(codewords, version, level, mask, x, y);
    }
    assert(is_clean_symbol(candidate.matrix, version, level, mask));
    assert(candidate.ec_level == level_name(level));
}

/// The points that a reading of a deformed symbol gets at least for how it agrees
/// with the image.
pub open spec fn least_agreement_points() -> int {
    share_points(LEAST_AGREEMENT as int)
}

/// Whether a candidate agrees with the image as far as is asked.
pub open spec fn agrees(candidate: Candidate) -> bool {
    component_value(candidate.components, "imageAgreement"@) >= least_agreement_points()
}

/// Whether all candidates agree with the image.
pub open spec fn all_agree(list: Seq<Candidate>) -> bool {
    forall|i: int| 0 <= i < list.len() ==> agrees(#[trigger] list[i])
}

/// Whether all candidates were read more than once.
pub open spec fn all_repeated(list: Seq<Candidate>) -> bool {
    forall|i: int| 0 <= i < list.len() ==> (#[trigger] list[i]).evidence_count >= 2
}

/// Whether a candidate was read from a flat grid of a variant.
pub open spec fn is_named(candidate: Candidate, name: Seq<char>) -> bool {
    candidate.source == source_name(name, ":resampled-v"@, candidate.version)
}

/// Whether all candidates were read from flat grids of a variant.
pub open spec fn all_named(list: Seq<Candidate>, name: Seq<char>) -> bool {
    forall|i: int| 0 <= i < list.len() ==> is_named(#[trigger] list[i], name)
}

/// What a candidate of a variant must have: it was read from a flat grid, or
/// several deformed geometries show it and it agrees with the image.
pub open spec fn is_supported(candidate: Candidate, name: Seq<char>) -> bool {
    is_named(candidate, name) || (candidate.evidence_count >= 2 && agrees(candidate))
}

/// Where the agreement with the image stands among the parts of a score.
proof fn lemma_agreement_part(parts: Seq<Component>)
    requires
        parts.len() == 8,
        parts[3].name == "imageAgreement"@,
        parts[4].name == "imageVariant"@,
        parts[5].name == "payloadHints"@,
        parts[6].name == "structureEvidence"@,
        parts[7].name == "utf8Evidence"@,
    ensures
        component_value(parts, "imageAgreement"@) == parts[3].value,
{
    reveal_strlit("imageAgreement");
    reveal_strlit("imageVariant");
    reveal_strlit("payloadHints");
    reveal_strlit("structureEvidence");
    reveal_strlit("utf8Evidence");
    reveal_with_fuel(component_place, 6);
    assert("imageAgreement"@.len() == 14);
    assert("imageVariant"@.len() == 12 && "payloadHints"@.len() == 12);
    assert("structureEvidence"@.len() == 17 && "utf8Evidence"@.len() == 12);
}

proof fn lemma_place_shifted(list: Seq<Component>, new: Component, at: int, name: Seq<char>, n: int)
    requires
        0 <= at <= list.len(),
        0 <= n <= list.len(),
        new.name != name,
    ensures
        n <= at ==> component_place(list.insert(at, new), name, n) == component_place(
            list,
            name,
            n,
        ),
        n >= at ==> component_place(list.insert(at, new), name, n + 1) == (if component_place(
            list,
            name,
            n,
        ) >= at {
            component_place(list, name, n) + 1
        } else {
            component_place(list, name, n)
        }),
    decreases n,
{
    let next = list.insert(at, new);
    if n > 0 {
        lemma_place_shifted(list, new, at, name, n - 1);
        lemma_component_place(list, name, n - 1);
    }
    if n == at {
        assert(next[at] == new);
        if n > 0 {
            assert(next[n - 1] == list[n - 1]);
            lemma_component_place(list, name, n);
        }
    } else if n > at {
        assert(next[n] == list[n - 1]);
    } else if n > 0 {
        assert(next[n - 1] == list[n - 1]);
    }
}

proof fn lemma_component_kept(list: Seq<Component>, value: int)
    ensures
        component_value(
            with_component(list, "deformationGeometry"@, value),
            "imageAgreement"@,
        ) == component_value(list, "imageAgreement"@),
{
    reveal_strlit("deformationGeometry");
    reveal_strlit("imageAgreement");
    let (name, kept) = ("deformationGeometry"@, "imageAgreement"@);
    let next = with_component(list, name, value);
    let n = list.len() as int;
    assert(name.len() != kept.len());
    let at = component_place(list, name, n);
    lemma_component_place(list, name, n);
    lemma_component_place(list, kept, n);
    if at < 0 {
        lemma_name_place(list, name, n);
        let place = name_place(list, name, n);
        lemma_place_shifted(list, Component { name, value }, place, kept, n);
    } else {
        lemma_place_kept(list, next, at, kept, n);
        lemma_component_place(next, kept, next.len() as int);
    }
}

proof fn lemma_component_place(list: Seq<Component>, name: Seq<char>, n: int)
    requires
        0 <= n <= list.len(),
    ensures
        -1 <= component_place(list, name, n),
        component_place(list, name, n) < n || n == 0,
        component_place(list, name, n) >= 0 ==> list[component_place(list, name, n)].name == name,
    decreases n,
{
    if n > 0 {
        lemma_component_place(list, name, n - 1);
    }
}

proof fn lemma_place_kept(
    a: Seq<Component>,
    b: Seq<Component>,
    at: int,
    name: Seq<char>,
    n: int,
)
    requires
        0 <= n <= a.len() <= b.len(),
        forall|i: int| 0 <= i < a.len() && i != at ==> #[trigger] a[i] == b[i],
        0 <= at < a.len() ==> a[at].name != name && b[at].name != name,
    ensures
        component_place(a, name, n) == component_place(b, name, n),
    decreases n,
{
    if n > 0 {
        lemma_place_kept(a, b, at, name, n - 1);
        if n - 1 != at {
            assert(a[n - 1] == b[n - 1]);
        }
    }
}

proof fn lemma_joined(a: Seq<Candidate>, b: Seq<Candidate>, name: Seq<char>)
    requires
        all_fresh(a),
        all_fresh(b),
        all_verified(a),
        all_verified(b),
        all_named(a, name),
        all_named(b, name),
    ensures
        all_fresh(a + b),
        all_verified(a + b),
        all_named(a + b, name),
{
    assert forall|k: int| 0 <= k < (a + b).len() implies is_fresh(#[trigger] (a + b)[k])
        && is_verified((a + b)[k]) && is_named((a + b)[k], name) by {
        if k < a.len() {
            assert((a + b)[k] == a[k]);
        } else {
            assert((a + b)[k] == b[k - a.len()]);
        }
    }
}

proof fn lemma_read_again_agrees(existing: Candidate, candidate: Candidate)
    requires
        agrees(existing),
        agrees(candidate),
    ensures
        agrees(read_again(existing, candidate)),
{
    let evidence = existing.evidence_count + candidate.evidence_count;
    lemma_component_kept(existing.components, geometry_points(evidence));
    lemma_component_kept(candidate.components, geometry_points(evidence));
}

proof fn lemma_with_reading_agrees(list: Seq<Candidate>, candidate: Candidate)
    requires
        all_agree(list),
        agrees(candidate),
    ensures
        all_agree(with_reading(list, candidate)),
    decreases list.len(),
{
    let n = list.len() as int;
    if n > 0 && !comes_before(list.last().payload, candidate.payload) {
        assert(agrees(list[n - 1]));
        let rest = list.drop_last();
        assert forall|i: int| 0 <= i < rest.len() implies agrees(#[trigger] rest[i]) by {
            assert(agrees(list[i]));
        }
        lemma_with_reading_agrees(rest, candidate);
        lemma_read_again_agrees(list.last(), candidate);
        let next = with_reading(list, candidate);
        let inner = with_reading(rest, candidate);
        assert forall|i: int| 0 <= i < next.len() implies agrees(#[trigger] next[i]) by {
            if list.last().payload == candidate.payload {
                if i < n - 1 {
                    assert(next[i] == rest[i]);
                }
            } else if i < inner.len() {
                assert(next[i] == inner[i]);
            }
        }
    }
}

proof fn lemma_by_payload_agrees(list: Seq<Candidate>, n: int)
    requires
        0 <= n <= list.len(),
        all_agree(list),
    ensures
        all_agree(by_payload(list, n)),
    decreases n,
{
    if n > 0 {
        lemma_by_payload_agrees(list, n - 1);
        assert(agrees(list[n - 1]));
        lemma_with_reading_agrees(by_payload(list, n - 1), list[n - 1]);
    }
}

proof fn lemma_with_reading_named(list: Seq<Candidate>, candidate: Candidate, name: Seq<char>)
    requires
        all_named(list, name),
        is_named(candidate, name),
    ensures
        all_named(with_reading(list, candidate), name),
    decreases list.len(),
{
    let n = list.len() as int;
    if n > 0 && !comes_before(list.last().payload, candidate.payload) {
        assert(is_named(list[n - 1], name));
        let rest = list.drop_last();
        assert forall|i: int| 0 <= i < rest.len() implies is_named(#[trigger] rest[i], name) by {
            assert(is_named(list[i], name));
        }
        lemma_with_reading_named(rest, candidate, name);
        let next = with_reading(list, candidate);
        let inner = with_reading(rest, candidate);
        assert forall|i: int| 0 <= i < next.len() implies is_named(#[trigger] next[i], name) by {
            if list.last().payload == candidate.payload {
                if i < n - 1 {
                    assert(next[i] == rest[i]);
                }
            } else if i < inner.len() {
                assert(next[i] == inner[i]);
            }
        }
    }
}

proof fn lemma_by_payload_named(list: Seq<Candidate>, name: Seq<char>, n: int)
    requires
        0 <= n <= list.len(),
        all_named(list, name),
    ensures
        all_named(by_payload(list, n), name),
    decreases n,
{
    if n > 0 {
        lemma_by_payload_named(list, name, n - 1);
        assert(is_named(list[n - 1], name));
        lemma_with_reading_named(by_payload(list, n - 1), list[n - 1], name);
    }
}

proof fn lemma_with_reading_verified(list: Seq<Candidate>, candidate: Candidate)
    requires
        all_verified(list),
        is_verified(candidate),
    ensures
        all_verified(with_reading(list, candidate)),
    decreases list.len(),
{
    let next = with_reading(list, candidate);
    let n = list.len() as int;
    if n == 0 || comes_before(list.last().payload, candidate.payload) {
        assert forall|i: int| 0 <= i < next.len() implies is_verified(#[trigger] next[i]) by {
            if i < n {
                assert(is_verified(list[i]));
            }
        }
    } else {
        assert(is_verified(list[n - 1]));
        if list.last().payload == candidate.payload {
            lemma_read_again_verified(list.last(), candidate);
            assert forall|i: int| 0 <= i < next.len() implies is_verified(#[trigger] next[i]) by {
                if i < n - 1 {
                    assert(is_verified(list[i]));
                }
            }
        } else {
            let rest = list.drop_last();
            assert forall|i: int| 0 <= i < rest.len() implies is_verified(#[trigger] rest[i]) by {
                assert(is_verified(list[i]));
            }
            lemma_with_reading_verified(rest, candidate);
            let inner = with_reading(rest, candidate);
            assert forall|i: int| 0 <= i < next.len() implies is_verified(#[trigger] next[i]) by {
                if i < inner.len() {
                    assert(is_verified(inner[i]));
                }
            }
        }
    }
}

proof fn lemma_read_again_verified(existing: Candidate, candidate: Candidate)
    requires
        is_verified(existing),
        is_verified(candidate),
    ensures
        is_verified(read_again(existing, candidate)),
{
    let base = if candidate.score > existing.score {
        candidate
    } else {
        existing
    };
    keeping_the_symbol_keeps_it_verified(base, read_again(existing, candidate));
}

/// Only what a candidate holds of its symbol matters for whether it is verified.
pub proof fn keeping_the_symbol_keeps_it_verified(a: Candidate, b: Candidate)
    requires
        is_verified(a),
        a.payload == b.payload,
        a.version == b.version,
        a.ec_level == b.ec_level,
        a.mask == b.mask,
        a.matrix == b.matrix,
    ensures
        is_verified(b),
{
    let level = choose|level: EcLevel|
        a.ec_level == #[trigger] level_name(level) && is_clean_symbol(
            a.matrix,
            a.version as int,
            level,
            a.mask as int,
        ) && verified_payload(a.matrix, a.version as int, level, a.mask as int) == Some(a.payload);
    assert(b.ec_level == level_name(level));
}

proof fn lemma_by_payload_verified(list: Seq<Candidate>, n: int)
    requires
        0 <= n <= list.len(),
        all_verified(list),
    ensures
        all_verified(by_payload(list, n)),
    decreases n,
{
    if n > 0 {
        lemma_by_payload_verified(list, n - 1);
        assert(is_verified(list[n - 1]));
        lemma_with_reading_verified(by_payload(list, n - 1), list[n - 1]);
    }
}

/// Whether two candidates hold the same payload on the same evidence.
pub open spec fn same_payload(a: Candidate, b: Candidate) -> bool {
    a.payload == b.payload && a.evidence_count == b.evidence_count
}

/// Whether two lists hold the same payloads in the same order, on the same
/// evidence.
pub open spec fn same_payloads(a: Seq<Candidate>, b: Seq<Candidate>) -> bool {
    &&& a.len() == b.len()
    &&& forall|i: int| 0 <= i < a.len() ==> same_payload(#[trigger] a[i], #[trigger] b[i])
}

proof fn lemma_same_deformed(
    grids: Seq<GridModel>,
    list: Seq<Hypothesis>,
    a: Variant,
    b: Variant,
    n: int,
)
    ensures
        same_payloads(
            deformed_readings(grids, list, a, n),
            deformed_readings(grids, list, b, n),
        ),
    decreases n,
{
    if n > 0 {
        lemma_same_deformed(grids, list, a, b, n - 1);
    }
}

proof fn lemma_same_streams(
    streams: Seq<Corrected>,
    hypothesis: Hypothesis,
    a: Variant,
    b: Variant,
    hard: bool,
    n: int,
)
    ensures
        same_payloads(
            stream_readings(streams, hypothesis, a, hard, n),
            stream_readings(streams, hypothesis, b, hard, n),
        ),
    decreases n,
{
    if n > 0 {
        lemma_same_streams(streams, hypothesis, a, b, hard, n - 1);
    }
}

proof fn lemma_same_joined(
    a: Seq<Candidate>,
    b: Seq<Candidate>,
    c: Seq<Candidate>,
    d: Seq<Candidate>,
)
    requires
        same_payloads(a, b),
        same_payloads(c, d),
    ensures
        same_payloads(a + c, b + d),
{
    assert forall|i: int| 0 <= i < (a + c).len() implies same_payload(
        #[trigger] (a + c)[i],
        #[trigger] (b + d)[i],
    ) by {
        if i < a.len() {
            assert(same_payload(a[i], b[i]));
        } else {
            assert(same_payload(c[i - a.len()], d[i - a.len()]));
        }
    }
}

proof fn lemma_same_standard(
    grids: Seq<GridModel>,
    list: Seq<Hypothesis>,
    a: Variant,
    b: Variant,
    max_attempts: int,
    chase_bits: int,
    outcomes: Seq<Vec<Vec<Option<ErasureOutcome>>>>,
    n: int,
)
    ensures
        same_payloads(
            standard_readings(grids, list, a, max_attempts, chase_bits, outcomes, n).candidates,
            standard_readings(grids, list, b, max_attempts, chase_bits, outcomes, n).candidates,
        ),
        standard_readings(grids, list, a, max_attempts, chase_bits, outcomes, n).attempts
            == standard_readings(grids, list, b, max_attempts, chase_bits, outcomes, n).attempts,
    decreases n,
{
    if n > 0 {
        lemma_same_standard(grids, list, a, b, max_attempts, chase_bits, outcomes, n - 1);
        let (streams, attempts) = hypothesis_streams(
            grids,
            list[n - 1],
            max_attempts,
            chase_bits,
            outcomes_at(outcomes, n - 1),
        );
        let m = streams.len() as int;
        let hard = hypothesis_hard(grids, list[n - 1]);
        lemma_same_streams(streams, list[n - 1], a, b, hard, m);
        lemma_same_joined(
            standard_readings(
                grids,
                list,
                a,
                max_attempts,
                chase_bits,
                outcomes,
                n - 1,
            ).candidates,
            standard_readings(
                grids,
                list,
                b,
                max_attempts,
                chase_bits,
                outcomes,
                n - 1,
            ).candidates,
            stream_readings(streams, list[n - 1], a, hard, m),
            stream_readings(streams, list[n - 1], b, hard, m),
        );
    }
}

proof fn lemma_same_with_reading(
    a: Seq<Candidate>,
    b: Seq<Candidate>,
    c: Candidate,
    d: Candidate,
)
    requires
        same_payloads(a, b),
        same_payload(c, d),
    ensures
        same_payloads(with_reading(a, c), with_reading(b, d)),
    decreases a.len(),
{
    let n = a.len() as int;
    if n > 0 {
        assert(same_payload(a[n - 1], b[n - 1]));
        let (rest_a, rest_b) = (a.drop_last(), b.drop_last());
        assert forall|i: int| 0 <= i < rest_a.len() implies same_payload(
            #[trigger] rest_a[i],
            #[trigger] rest_b[i],
        ) by {
            assert(same_payload(a[i], b[i]));
        }
        lemma_same_with_reading(rest_a, rest_b, c, d);
        let (next_a, next_b) = (with_reading(a, c), with_reading(b, d));
        let (inner_a, inner_b) = (with_reading(rest_a, c), with_reading(rest_b, d));
        assert forall|i: int| 0 <= i < next_a.len() implies same_payload(
            #[trigger] next_a[i],
            #[trigger] next_b[i],
        ) by {
            if comes_before(a.last().payload, c.payload) {
                if i < n {
                    assert(same_payload(a[i], b[i]));
                }
            } else if a.last().payload == c.payload {
                if i < n - 1 {
                    assert(same_payload(rest_a[i], rest_b[i]));
                }
            } else if i < inner_a.len() {
                assert(same_payload(inner_a[i], inner_b[i]));
            }
        }
    }
}

proof fn lemma_same_by_payload(a: Seq<Candidate>, b: Seq<Candidate>, n: int)
    requires
        same_payloads(a, b),
        0 <= n <= a.len(),
    ensures
        same_payloads(by_payload(a, n), by_payload(b, n)),
    decreases n,
{
    if n > 0 {
        lemma_same_by_payload(a, b, n - 1);
        assert(same_payload(a[n - 1], b[n - 1]));
        lemma_same_with_reading(by_payload(a, n - 1), by_payload(b, n - 1), a[n - 1], b[n - 1]);
    }
}

proof fn lemma_same_repeated(a: Seq<Candidate>, b: Seq<Candidate>, n: int)
    requires
        same_payloads(a, b),
        0 <= n <= a.len(),
    ensures
        same_payloads(repeated(a, n), repeated(b, n)),
    decreases n,
{
    if n > 0 {
        lemma_same_repeated(a, b, n - 1);
        assert(same_payload(a[n - 1], b[n - 1]));
    }
}

/// Hints on the payload rank candidates and no more: whatever is hinted, the same
/// payloads are read on the same evidence, and the same work is counted.
pub proof fn hints_only_rank_candidates(
    grids: Seq<GridModel>,
    a: Variant,
    b: Variant,
    max_attempts: int,
    chase_bits: int,
    outcomes: Seq<Vec<Vec<Option<ErasureOutcome>>>>,
)
    requires
        a.options.ec_level == b.options.ec_level,
    ensures
        ({
            let with_a = decoded(grids, a, max_attempts, chase_bits, outcomes);
            let with_b = decoded(grids, b, max_attempts, chase_bits, outcomes);
            &&& same_payloads(with_a.candidates, with_b.candidates)
            &&& with_a.valid_reads == with_b.valid_reads
            &&& with_a.invalid_reads == with_b.invalid_reads
            &&& with_a.attempts == with_b.attempts
        }),
{
    let list = hypotheses(grids, a.options.ec_level);
    let n = list.len() as int;
    let standard = standard_hypotheses(list, n);
    let m = standard.len() as int;
    lemma_same_deformed(grids, list, a, b, n);
    lemma_same_standard(grids, standard, a, b, max_attempts, chase_bits, outcomes, m);
    let (first_a, first_b) = (
        deformed_readings(grids, list, a, n),
        deformed_readings(grids, list, b, n),
    );
    let second_a = standard_readings(
        grids,
        standard,
        a,
        max_attempts,
        chase_bits,
        outcomes,
        m,
    ).candidates;
    let second_b = standard_readings(
        grids,
        standard,
        b,
        max_attempts,
        chase_bits,
        outcomes,
        m,
    ).candidates;
    lemma_same_by_payload(first_a, first_b, first_a.len() as int);
    lemma_same_by_payload(second_a, second_b, second_a.len() as int);
    let (once_a, once_b) = (
        by_payload(first_a, first_a.len() as int),
        by_payload(first_b, first_b.len() as int),
    );
    lemma_same_repeated(once_a, once_b, once_a.len() as int);
}

/// A conclusion from verified candidates reports no others.
pub proof fn conclusions_stay_verified(
    list: Seq<Candidate>,
    previews: Seq<PreviewNote>,
    conflicting: bool,
)
    requires
        all_verified(list),
    ensures
        all_verified(concluded(list, previews, conflicting).candidates),
{
    conclusions_are_ordered(list, previews, conflicting);
    let shown = concluded(list, previews, conflicting).candidates;
    assert forall|i: int| 0 <= i < shown.len() implies is_verified(#[trigger] shown[i]) by {
        assert(is_one_of(shown[i], list));
        let k = choose|k: int|
            0 <= k < list.len() && same_but_confidence(shown[i], #[trigger] list[k]);
        assert(is_verified(list[k]));
        keeping_the_symbol_keeps_it_verified(list[k], shown[i]);
    }
}

} // verus!
