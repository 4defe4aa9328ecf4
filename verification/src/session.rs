//! The course of a recovery: which variants are worth trying, what their
//! outcomes add up to, and when the search may end.

use vstd::prelude::*;

use crate::effort::{confirmation_reads, confirmation_window, effort_profile, Effort, EffortProfile};
use crate::merge::{distinct_payloads, reads};
use crate::options::{RecoveryError, RecoveryOptions, Refusal};
use crate::order::{copy_bytes, same_bytes};
use crate::phrases::{contains_part, has_part};
use crate::plan::{build_variant_plan, recipe_name, variant_plan, VariantSpec};
use crate::reading::{
    all_verified, can_be_counted, conclusions_stay_verified, is_countable, is_verified,
    keeping_the_symbol_keeps_it_verified, DecodeOutcome, Decoded,
};
use crate::recovery_result::{
    agree, agreed, candidate_place, candidates, conclude, concluded, conclusions_are_ordered,
    copy_preview, deformed, find_candidate, is_deformed, lemma_score_bound, lemma_score_grows,
    lemma_set_summable, lemma_with_component, offer_preview, ordered, ordering_is_sorted,
    preview_notes, preview_place, set_component, summable, with_component, with_preview, Candidate,
    Diagnosis, Preview, PreviewEntry, PreviewImage, PreviewNote, RecoveryCandidate,
    RecoveryDiagnostics, RecoveryResult, Report, Settlement, EVIDENCE_BOUND, PART_LIMIT, POINT,
    RUNTIME, SCORE_BOUND,
};
use crate::rounding::{
    is_double, lemma_signed_again, lemma_signed_monotone, lemma_signed_within, round_signed,
    rounded_signed,
};

verus! {

/// Why a search ended before all variants were tried.
#[derive(Clone, Copy, Debug, PartialEq, Eq, Structural)]
pub enum TerminationReason {
    TimeLimit,
    ConfidenceLimit,
}

/// The name of a reason.
pub open spec fn reason_name(reason: TerminationReason) -> Seq<char> {
    match reason {
        TerminationReason::TimeLimit => "time_limit"@,
        TerminationReason::ConfidenceLimit => "confidence_limit"@,
    }
}

impl TerminationReason {
    /// The name of the reason.
    pub fn name(&self) -> (name: &'static str)
        ensures
            name@ == reason_name(*self),
    {
        match self {
            TerminationReason::TimeLimit => "time_limit",
            TerminationReason::ConfidenceLimit => "confidence_limit",
        }
    }
}

/// A payload that was read in a frame.
#[derive(Debug)]
pub struct FrameRead {
    pub frame: usize,
    pub payload: Vec<u8>,
}

/// In how many variants a payload was read.
#[derive(Debug)]
pub struct PayloadHits {
    pub payload: Vec<u8>,
    pub count: u64,
}

/// The course of a recovery so far.
#[derive(Debug)]
pub struct RecoverySession {
    pub input_count: usize,
    pub batch_count: usize,
    pub effort: Effort,
    pub examined_variants: u64,
    pub valid_reads: u64,
    pub invalid_reads: u64,
    pub soft_decode_attempts: u64,
    pub candidates: Vec<RecoveryCandidate>,
    pub reads: Vec<FrameRead>,
    pub hits: Vec<PayloadHits>,
    pub previews: Vec<PreviewEntry>,
    pub first_verified_at: Option<u64>,
    pub termination_reason: Option<TerminationReason>,
}

/// A payload that was read in a frame.
pub ghost struct Sighting {
    pub frame: int,
    pub payload: Seq<u8>,
}

/// In how many variants a payload was read.
pub ghost struct Hits {
    pub payload: Seq<u8>,
    pub count: int,
}

/// The course of a recovery so far.
pub ghost struct Session {
    pub input_count: int,
    pub batch_count: int,
    pub effort: Effort,
    pub examined_variants: int,
    pub valid_reads: int,
    pub invalid_reads: int,
    pub soft_decode_attempts: int,
    pub candidates: Seq<Candidate>,
    pub reads: Seq<Sighting>,
    pub hits: Seq<Hits>,
    pub previews: Seq<PreviewNote>,
    pub first_verified_at: Option<int>,
    pub termination_reason: Option<TerminationReason>,
}

/// What a list of reads holds.
pub open spec fn sightings(list: Seq<FrameRead>) -> Seq<Sighting> {
    Seq::new(
        list.len(),
        |i: int| Sighting { frame: list[i].frame as int, payload: list[i].payload@ },
    )
}

/// What a list of counts holds.
pub open spec fn hit_counts(list: Seq<PayloadHits>) -> Seq<Hits> {
    Seq::new(
        list.len(),
        |i: int| Hits { payload: list[i].payload@, count: list[i].count as int },
    )
}

impl View for RecoverySession {
    type V = Session;

    open spec fn view(&self) -> Session {
        Session {
            input_count: self.input_count as int,
            batch_count: self.batch_count as int,
            effort: self.effort,
            examined_variants: self.examined_variants as int,
            valid_reads: self.valid_reads as int,
            invalid_reads: self.invalid_reads as int,
            soft_decode_attempts: self.soft_decode_attempts as int,
            candidates: candidates(self.candidates@),
            reads: sightings(self.reads@),
            hits: hit_counts(self.hits@),
            previews: preview_notes(self.previews@),
            first_verified_at: match self.first_verified_at {
                Some(at) => Some(at as int),
                None => None,
            },
            termination_reason: self.termination_reason,
        }
    }
}

/// The effort with which a variant is decoded: a thorough search decodes what a
/// balanced one would have tried as a balanced one.
pub open spec fn decoding_effort(effort: Effort, name: Seq<char>) -> Effort {
    if effort == Effort::Thorough && exists|i: int|
        0 <= i < variant_plan(Effort::Balanced).len() && recipe_name(
            (#[trigger] variant_plan(Effort::Balanced)[i]).recipe,
        ) == name {
        Effort::Balanced
    } else {
        effort
    }
}

/// The effort with which a variant is decoded.
pub fn variant_effort(effort: Effort, name: &str) -> (result: Effort)
    ensures
        result == decoding_effort(effort, name@),
{
    if effort != Effort::Thorough {
        return effort;
    }
    let plan: Vec<VariantSpec> = build_variant_plan(Effort::Balanced);
    let wanted: String = String::from_str(name);
    let mut i: usize = 0;
    while i < plan.len()
        invariant
            wanted@ == name@,
            effort == Effort::Thorough,
            plan@ == variant_plan(Effort::Balanced),
            i <= plan@.len(),
            forall|k: int| 0 <= k < i ==> recipe_name((#[trigger] plan@[k]).recipe) != name@,
        decreases plan@.len() - i,
    {
        if plan[i].name() == wanted {
            assert(recipe_name(variant_plan(Effort::Balanced)[i as int].recipe) == name@);
            return Effort::Balanced;
        }
        i += 1;
    }
    effort
}

/// A payload that was read before is read once more: four points for each read,
/// on top of the better score, and the confidence of agreement.
pub open spec fn seen_again(existing: Candidate, candidate: Candidate) -> Candidate {
    let evidence = existing.evidence_count + 1;
    Candidate {
        evidence_count: evidence,
        components: with_component(
            existing.components,
            "independentEvidence"@,
            evidence * 4 * POINT,
        ),
        score: rounded_signed(
            (if existing.score >= candidate.score {
                existing.score
            } else {
                candidate.score
            }) + 4 * POINT,
        ),
        confidence: agreed(existing.confidence),
        ..existing
    }
}

/// The candidates after another one was read.
pub open spec fn with_seen(list: Seq<Candidate>, candidate: Candidate) -> Seq<Candidate> {
    let at = candidate_place(list, candidate.payload, list.len() as int);
    if at < 0 {
        list.push(candidate)
    } else {
        list.update(at, seen_again(list[at], candidate))
    }
}

/// The candidates after the first `n` of others were read.
pub open spec fn all_seen(list: Seq<Candidate>, others: Seq<Candidate>, n: int) -> Seq<Candidate>
    decreases n,
{
    if n <= 0 {
        list
    } else {
        with_seen(all_seen(list, others, n - 1), others[n - 1])
    }
}

/// The previews after the first `n` candidates of a variant offered theirs.
pub open spec fn all_offered(
    list: Seq<PreviewNote>,
    others: Seq<Candidate>,
    preview: Preview,
    name: Seq<char>,
    n: int,
) -> Seq<PreviewNote>
    decreases n,
{
    if n <= 0 {
        list
    } else {
        with_preview(
            all_offered(list, others, preview, name, n - 1),
            PreviewNote {
                payload: others[n - 1].payload,
                score: others[n - 1].score,
                preview,
                name,
            },
        )
    }
}

/// The reads after one in a frame, each once.
pub open spec fn with_sighting(list: Seq<Sighting>, sighting: Sighting) -> Seq<Sighting> {
    if list.contains(sighting) {
        list
    } else {
        list.push(sighting)
    }
}

/// The reads after the first `n` candidates were read in a frame.
pub open spec fn all_sighted(
    list: Seq<Sighting>,
    frame: int,
    others: Seq<Candidate>,
    n: int,
) -> Seq<Sighting>
    decreases n,
{
    if n <= 0 {
        list
    } else {
        with_sighting(
            all_sighted(list, frame, others, n - 1),
            Sighting { frame, payload: others[n - 1].payload },
        )
    }
}

/// The place of a payload among the first `n` counts, or -1.
pub open spec fn hit_place(list: Seq<Hits>, payload: Seq<u8>, n: int) -> int
    decreases n,
{
    if n <= 0 {
        -1
    } else if list[n - 1].payload == payload {
        n - 1
    } else {
        hit_place(list, payload, n - 1)
    }
}

/// The counts after a payload was read in another variant.
pub open spec fn with_hit(list: Seq<Hits>, payload: Seq<u8>) -> Seq<Hits> {
    let at = hit_place(list, payload, list.len() as int);
    if at < 0 {
        list.push(Hits { payload, count: 1 })
    } else {
        list.update(at, Hits { payload, count: list[at].count + 1 })
    }
}

/// The counts after the first `n` candidates of a variant; a payload counts once
/// in a variant.
pub open spec fn all_hit(list: Seq<Hits>, others: Seq<Candidate>, n: int) -> Seq<Hits>
    decreases n,
{
    if n <= 0 {
        list
    } else if candidate_place(others, others[n - 1].payload, n - 1) >= 0 {
        all_hit(list, others, n - 1)
    } else {
        with_hit(all_hit(list, others, n - 1), others[n - 1].payload)
    }
}

/// In how many variants a payload was read.
pub open spec fn hits_of(list: Seq<Hits>, payload: Seq<u8>) -> int {
    let at = hit_place(list, payload, list.len() as int);
    if at < 0 {
        0
    } else {
        list[at].count
    }
}

/// Whether a variant is worth trying: once a deformed symbol was read, only
/// variants that may read it again are.
pub open spec fn is_wanted(session: Session, name: Seq<char>) -> bool {
    contains_part(name, "otsu"@) || !exists|i: int|
        0 <= i < session.candidates.len() && is_deformed(#[trigger] session.candidates[i])
}

/// The variant at which something was first read, once something was. It matters
/// only where one batch searches one frame.
pub open spec fn first_read(session: Session) -> Option<int> {
    if session.batch_count == 1 && session.input_count == 1 && session.candidates.len() > 0
        && session.first_verified_at is None {
        Some(session.examined_variants)
    } else {
        session.first_verified_at
    }
}

/// Whether the search may end. One of several batches ends once it has a
/// candidate. A single search of one frame ends once enough variants agree on
/// the only candidate and enough variants were tried after the first read.
pub open spec fn may_end(session: Session) -> bool {
    session.candidates.len() > 0 && (session.batch_count > 1 || (session.batch_count == 1
        && session.input_count == 1 && session.candidates.len() == 1
        && session.first_verified_at is Some && hits_of(
        session.hits,
        session.candidates[0].payload,
    ) >= confirmation_reads(session.effort) && session.examined_variants
        >= session.first_verified_at->Some_0 + confirmation_window(session.effort)))
}

/// A session after a variant of a frame was decoded, before it is asked whether
/// the search may end.
pub open spec fn noted(
    session: Session,
    frame: int,
    name: Seq<char>,
    outcome: Decoded,
    preview: Preview,
) -> Session {
    let n = outcome.candidates.len() as int;
    let after = Session {
        examined_variants: session.examined_variants + 1,
        valid_reads: session.valid_reads + outcome.valid_reads,
        invalid_reads: session.invalid_reads + outcome.invalid_reads,
        soft_decode_attempts: session.soft_decode_attempts + outcome.attempts,
        candidates: all_seen(session.candidates, outcome.candidates, n),
        reads: all_sighted(session.reads, frame, outcome.candidates, n),
        hits: all_hit(session.hits, outcome.candidates, n),
        previews: all_offered(session.previews, outcome.candidates, preview, name, n),
        ..session
    };
    Session { first_verified_at: first_read(after), ..after }
}

/// A session after a variant of a frame was decoded.
pub open spec fn recorded(
    session: Session,
    frame: int,
    name: Seq<char>,
    outcome: Decoded,
    preview: Preview,
) -> Session {
    let after = noted(session, frame, name, outcome, preview);
    if may_end(after) {
        Session { termination_reason: Some(TerminationReason::ConfidenceLimit), ..after }
    } else {
        after
    }
}

/// A candidate read from several frames fused into one: as good as a read of
/// each.
pub open spec fn fused(candidate: Candidate, inputs: int) -> Candidate {
    Candidate {
        evidence_count: inputs,
        components: with_component(
            candidate.components,
            "independentEvidence"@,
            inputs * 4 * POINT,
        ),
        score: rounded_signed(candidate.score + inputs * 4 * POINT),
        ..candidate
    }
}

/// The candidates read from fused frames.
pub open spec fn all_fused(list: Seq<Candidate>, inputs: int) -> Seq<Candidate> {
    Seq::new(list.len(), |i: int| fused(list[i], inputs))
}

/// A session after a variant of fused frames was decoded.
pub open spec fn fusion_recorded(
    session: Session,
    name: Seq<char>,
    outcome: Decoded,
    preview: Preview,
) -> Session {
    let n = outcome.candidates.len() as int;
    Session {
        examined_variants: session.examined_variants + 1,
        valid_reads: session.valid_reads + outcome.valid_reads,
        invalid_reads: session.invalid_reads + outcome.invalid_reads,
        soft_decode_attempts: session.soft_decode_attempts + outcome.attempts,
        candidates: all_seen(
            session.candidates,
            all_fused(outcome.candidates, session.input_count),
            n,
        ),
        previews: all_offered(session.previews, outcome.candidates, preview, name, n),
        ..session
    }
}

/// Whether a payload was read in a frame.
pub open spec fn read_in(reads: Seq<Sighting>, frame: int, payload: Seq<u8>) -> bool {
    reads.contains(Sighting { frame, payload })
}

/// Whether a payload was read in every frame in which anything was read.
pub open spec fn read_everywhere(reads: Seq<Sighting>, payload: Seq<u8>) -> bool {
    forall|j: int| 0 <= j < reads.len() ==> read_in(reads, (#[trigger] reads[j]).frame, payload)
}

/// Whether frames contradict each other: something was read in two of them, and
/// nothing in all.
pub open spec fn conflicting(reads: Seq<Sighting>) -> bool {
    &&& exists|j: int| 0 <= j < reads.len() && (#[trigger] reads[j]).frame != reads[0].frame
    &&& forall|k: int|
        0 <= k < reads.len() ==> !read_everywhere(reads, (#[trigger] reads[k]).payload)
}

/// The report of a session.
pub open spec fn finished(session: Session, elapsed_micros: int) -> Report {
    let conclusion = concluded(
        session.candidates,
        session.previews,
        conflicting(session.reads),
    );
    Report {
        status: conclusion.status,
        candidates: conclusion.candidates,
        diagnostics: Diagnosis {
            examined_variants: session.examined_variants,
            valid_reads: session.valid_reads,
            invalid_reads: session.invalid_reads,
            soft_decode_attempts: session.soft_decode_attempts,
            elapsed_micros,
            input_count: session.input_count,
            runtime: RUNTIME@,
        },
        discarded_frames: Seq::empty(),
        termination_reason: match session.termination_reason {
            Some(reason) => Some(reason_name(reason)),
            None => None,
        },
        best_variant: match conclusion.best {
            Some((preview, name)) => Some(preview),
            None => None,
        },
        best_variant_name: match conclusion.best {
            Some((preview, name)) => Some(name),
            None => None,
        },
    }
}

/// A candidate that was read up to `limit` times.
pub open spec fn is_counted(candidate: Candidate, limit: int) -> bool {
    &&& summable(candidate.components)
    &&& 0 <= candidate.evidence_count <= limit
    &&& with_component(candidate.components, "independentEvidence"@, 0).len() <= PART_LIMIT
    &&& -SCORE_BOUND <= candidate.score <= SCORE_BOUND
    &&& is_double(candidate.score)
}

/// Whether all candidates were read up to `limit` times.
pub open spec fn all_counted(list: Seq<Candidate>, limit: int) -> bool {
    forall|i: int| 0 <= i < list.len() ==> is_counted(#[trigger] list[i], limit)
}

/// Whether a session is one that recording has led to.
pub open spec fn is_session(session: Session) -> bool {
    &&& 1 <= session.input_count <= EVIDENCE_BOUND
    &&& all_counted(session.candidates, EVIDENCE_BOUND as int)
    &&& forall|i: int|
        0 <= i < session.hits.len() ==> (#[trigger] session.hits[i]).count
            <= session.examined_variants
    &&& session.first_verified_at is Some ==> session.first_verified_at->Some_0
        <= session.examined_variants
    &&& distinct_payloads(session.candidates)
    &&& all_shown(session.candidates, session.previews)
    &&& is_backed(session.hits, session.candidates, session.valid_reads)
}

/// The evidence for a payload, none if it is no candidate.
pub open spec fn evidence_of(list: Seq<Candidate>, payload: Seq<u8>) -> int {
    let at = candidate_place(list, payload, list.len() as int);
    if at < 0 {
        0
    } else {
        list[at].evidence_count
    }
}

/// Whether each variant in which a payload was read counts as evidence for it and
/// as a read.
pub open spec fn is_backed(hits: Seq<Hits>, list: Seq<Candidate>, valid_reads: int) -> bool {
    forall|payload: Seq<u8>|
        (#[trigger] hits_of(hits, payload)) <= evidence_of(list, payload) && hits_of(hits, payload)
            <= valid_reads
}

/// Whether a payload has a preview.
pub open spec fn is_shown(payload: Seq<u8>, previews: Seq<PreviewNote>) -> bool {
    exists|i: int| 0 <= i < previews.len() && (#[trigger] previews[i]).payload == payload
}

/// Whether every candidate has a preview.
pub open spec fn all_shown(list: Seq<Candidate>, previews: Seq<PreviewNote>) -> bool {
    forall|i: int| 0 <= i < list.len() ==> is_shown((#[trigger] list[i]).payload, previews)
}

proof fn lemma_with_preview(list: Seq<PreviewNote>, note: PreviewNote, payload: Seq<u8>)
    requires
        is_shown(payload, list) || payload == note.payload,
    ensures
        is_shown(payload, with_preview(list, note)),
{
    let next = with_preview(list, note);
    let n = list.len() as int;
    let at = preview_place(list, note.payload, n);
    lemma_preview_place(list, note.payload, n);
    if payload == note.payload {
        if at < 0 {
            assert(next[n].payload == payload);
        } else {
            assert(next[at].payload == payload);
        }
    } else {
        let i = choose|i: int| 0 <= i < list.len() && (#[trigger] list[i]).payload == payload;
        assert(next[i].payload == payload);
    }
}

proof fn lemma_preview_place(list: Seq<PreviewNote>, payload: Seq<u8>, n: int)
    requires
        0 <= n <= list.len(),
    ensures
        preview_place(list, payload, n) < n || n == 0,
        preview_place(list, payload, n) >= 0 ==> list[preview_place(list, payload, n)].payload
            == payload,
    decreases n,
{
    if n > 0 {
        lemma_preview_place(list, payload, n - 1);
    }
}

proof fn lemma_offered(
    list: Seq<PreviewNote>,
    others: Seq<Candidate>,
    preview: Preview,
    name: Seq<char>,
    n: int,
    payload: Seq<u8>,
)
    requires
        0 <= n <= others.len(),
        is_shown(payload, list) || exists|k: int|
            0 <= k < n && (#[trigger] others[k]).payload == payload,
    ensures
        is_shown(payload, all_offered(list, others, preview, name, n)),
    decreases n,
{
    if n > 0 {
        let before = all_offered(list, others, preview, name, n - 1);
        if others[n - 1].payload != payload {
            lemma_offered(list, others, preview, name, n - 1, payload);
        }
        lemma_with_preview(
            before,
            PreviewNote {
                payload: others[n - 1].payload,
                score: others[n - 1].score,
                preview,
                name,
            },
            payload,
        );
    }
}

/// Recording keeps the payloads of a session apart, and takes them from what was
/// there and what was read.
proof fn lemma_seen_payloads(list: Seq<Candidate>, others: Seq<Candidate>, n: int)
    requires
        0 <= n <= others.len(),
        distinct_payloads(list),
    ensures
        distinct_payloads(all_seen(list, others, n)),
        forall|i: int|
            0 <= i < all_seen(list, others, n).len() ==> reads(
                list,
                (#[trigger] all_seen(list, others, n)[i]).payload,
            ) || exists|k: int|
                0 <= k < n && (#[trigger] others[k]).payload == all_seen(
                    list,
                    others,
                    n,
                )[i].payload,
    decreases n,
{
    if n > 0 {
        lemma_seen_payloads(list, others, n - 1);
        let before = all_seen(list, others, n - 1);
        let after = all_seen(list, others, n);
        let m = before.len() as int;
        let payload = others[n - 1].payload;
        let at = candidate_place(before, payload, m);
        lemma_place_payload(before, payload, m);
        if at < 0 {
            lemma_no_place(before, payload, m);
        }
        assert forall|i: int| 0 <= i < after.len() implies reads(
            list,
            (#[trigger] after[i]).payload,
        ) || exists|k: int| 0 <= k < n && (#[trigger] others[k]).payload == after[i].payload by {
            if i < m {
                assert(after[i].payload == before[i].payload);
                if !reads(list, before[i].payload) {
                    let k = choose|k: int|
                        0 <= k < n - 1 && (#[trigger] others[k]).payload == before[i].payload;
                    assert(others[k].payload == after[i].payload);
                }
            } else {
                assert(others[n - 1].payload == after[i].payload);
            }
        }
        assert(distinct_payloads(after)) by {
            assert forall|i: int, j: int| 0 <= i < j < after.len() implies (
            #[trigger] after[i]).payload != (#[trigger] after[j]).payload by {
                assert(after[i].payload == before[i].payload);
                if j < m {
                    assert(after[j].payload == before[j].payload);
                    assert(before[i].payload != before[j].payload);
                } else {
                    assert(before[i].payload != payload);
                }
            }
        }
    } else {
        assert forall|i: int| 0 <= i < list.len() implies reads(
            list,
            (#[trigger] list[i]).payload,
        ) by {}
    }
}

proof fn lemma_no_place(list: Seq<Candidate>, payload: Seq<u8>, n: int)
    requires
        0 <= n <= list.len(),
        candidate_place(list, payload, n) < 0,
    ensures
        forall|i: int| 0 <= i < n ==> (#[trigger] list[i]).payload != payload,
    decreases n,
{
    if n > 0 {
        lemma_no_place(list, payload, n - 1);
    }
}

proof fn lemma_recorded_shown(
    list: Seq<Candidate>,
    previews: Seq<PreviewNote>,
    read: Seq<Candidate>,
    others: Seq<Candidate>,
    preview: Preview,
    name: Seq<char>,
)
    requires
        distinct_payloads(list),
        all_shown(list, previews),
        read.len() == others.len(),
        forall|i: int|
            0 <= i < read.len() ==> (#[trigger] read[i]).payload == (#[trigger] others[i]).payload,
    ensures
        distinct_payloads(all_seen(list, others, others.len() as int)),
        all_shown(
            all_seen(list, others, others.len() as int),
            all_offered(previews, read, preview, name, read.len() as int),
        ),
{
    let n = others.len() as int;
    let after = all_seen(list, others, n);
    lemma_seen_payloads(list, others, n);
    assert forall|i: int| 0 <= i < after.len() implies is_shown(
        (#[trigger] after[i]).payload,
        all_offered(previews, read, preview, name, n),
    ) by {
        let payload = after[i].payload;
        if reads(list, payload) {
            let k = choose|k: int| 0 <= k < list.len() && (#[trigger] list[k]).payload == payload;
            assert(is_shown(list[k].payload, previews));
        } else {
            let k = choose|k: int| 0 <= k < n && (#[trigger] others[k]).payload == payload;
            assert(read[k].payload == payload);
        }
        lemma_offered(previews, read, preview, name, n, payload);
    }
}

proof fn lemma_hit_alike(a: Seq<Hits>, b: Seq<Hits>, payload: Seq<u8>, n: int)
    requires
        n <= a.len(),
        n <= b.len(),
        forall|i: int| 0 <= i < n ==> (#[trigger] a[i]).payload == b[i].payload,
    ensures
        hit_place(a, payload, n) == hit_place(b, payload, n),
        hit_place(a, payload, n) < n || n <= 0,
        hit_place(a, payload, n) >= 0 ==> a[hit_place(a, payload, n)].payload == payload,
    decreases n,
{
    if n > 0 {
        assert(a[n - 1].payload == b[n - 1].payload);
        lemma_hit_alike(a, b, payload, n - 1);
    }
}

proof fn lemma_place_alike(a: Seq<Candidate>, b: Seq<Candidate>, payload: Seq<u8>, n: int)
    requires
        n <= a.len(),
        n <= b.len(),
        forall|i: int| 0 <= i < n ==> (#[trigger] a[i]).payload == b[i].payload,
    ensures
        candidate_place(a, payload, n) == candidate_place(b, payload, n),
        candidate_place(a, payload, n) < n || n <= 0,
        candidate_place(a, payload, n) >= 0 ==> a[candidate_place(a, payload, n)].payload
            == payload,
    decreases n,
{
    if n > 0 {
        assert(a[n - 1].payload == b[n - 1].payload);
        lemma_place_alike(a, b, payload, n - 1);
    }
}

/// Reading a payload adds to its count and to no other.
proof fn lemma_with_hit(list: Seq<Hits>, read: Seq<u8>, payload: Seq<u8>)
    ensures
        hits_of(with_hit(list, read), payload) == hits_of(list, payload) + if read == payload {
            1int
        } else {
            0
        },
{
    let n = list.len() as int;
    let next = with_hit(list, read);
    lemma_hit_alike(list, list, read, n);
    lemma_hit_alike(list, next, payload, n);
}

/// Reading a payload adds to its evidence and takes none away.
proof fn lemma_with_seen(list: Seq<Candidate>, candidate: Candidate, payload: Seq<u8>)
    requires
        candidate.evidence_count >= 1,
    ensures
        evidence_of(with_seen(list, candidate), payload) >= evidence_of(list, payload) + if (
        candidate.payload == payload) {
            1int
        } else {
            0
        },
{
    let n = list.len() as int;
    let next = with_seen(list, candidate);
    lemma_place_alike(list, list, candidate.payload, n);
    lemma_place_alike(list, next, payload, n);
}

proof fn lemma_hits_and_evidence(
    hits: Seq<Hits>,
    list: Seq<Candidate>,
    others: Seq<Candidate>,
    payload: Seq<u8>,
    n: int,
)
    requires
        0 <= n <= others.len(),
        forall|i: int| 0 <= i < others.len() ==> (#[trigger] others[i]).evidence_count >= 1,
    ensures
        ({
            let read: int = if candidate_place(others, payload, n) >= 0 {
                1
            } else {
                0
            };
            &&& hits_of(all_hit(hits, others, n), payload) == hits_of(hits, payload) + read
            &&& evidence_of(all_seen(list, others, n), payload) >= evidence_of(list, payload)
                + read
        }),
    decreases n,
{
    if n > 0 {
        lemma_hits_and_evidence(hits, list, others, payload, n - 1);
        let other = others[n - 1];
        lemma_with_hit(all_hit(hits, others, n - 1), other.payload, payload);
        lemma_with_seen(all_seen(list, others, n - 1), other, payload);
    }
}

/// Recording what was read keeps every count backed.
proof fn lemma_recorded_backed(
    hits: Seq<Hits>,
    list: Seq<Candidate>,
    valid_reads: int,
    seen: Seq<Candidate>,
    read: int,
)
    requires
        is_backed(hits, list, valid_reads),
        0 <= read,
        seen.len() > 0 ==> read >= 1,
        forall|i: int| 0 <= i < seen.len() ==> (#[trigger] seen[i]).evidence_count >= 1,
    ensures
        is_backed(hits, all_seen(list, seen, seen.len() as int), valid_reads + read),
        is_backed(
            all_hit(hits, seen, seen.len() as int),
            all_seen(list, seen, seen.len() as int),
            valid_reads + read,
        ),
{
    let n = seen.len() as int;
    let after = all_seen(list, seen, n);
    assert forall|payload: Seq<u8>| (#[trigger] hits_of(hits, payload)) <= evidence_of(
        after,
        payload,
    ) && hits_of(hits, payload) <= valid_reads + read by {
        lemma_hits_and_evidence(hits, list, seen, payload, n);
    }
    assert forall|payload: Seq<u8>|
        (#[trigger] hits_of(all_hit(hits, seen, n), payload)) <= evidence_of(after, payload)
            && hits_of(all_hit(hits, seen, n), payload) <= valid_reads + read by {
        assert(hits_of(hits, payload) <= valid_reads);
        lemma_hits_and_evidence(hits, list, seen, payload, n);
    }
}

/// Whether a session can count another outcome.
pub open spec fn has_room(session: Session, outcome: Decoded) -> bool {
    &&& all_counted(session.candidates, EVIDENCE_BOUND - outcome.candidates.len())
    &&& forall|i: int|
        0 <= i < outcome.candidates.len() ==> (#[trigger] outcome.candidates[i]).evidence_count
            + outcome.candidates.len() <= EVIDENCE_BOUND
    &&& session.input_count + outcome.candidates.len() <= EVIDENCE_BOUND
    &&& session.examined_variants < u64::MAX
    &&& session.valid_reads + outcome.valid_reads <= u64::MAX
    &&& session.invalid_reads + outcome.invalid_reads <= u64::MAX
    &&& session.soft_decode_attempts + outcome.attempts <= u64::MAX
}

proof fn lemma_seen_again(existing: Candidate, candidate: Candidate, limit: int)
    requires
        is_counted(existing, limit),
        is_counted(candidate, EVIDENCE_BOUND as int),
        limit < EVIDENCE_BOUND,
    ensures
        is_counted(seen_again(existing, candidate), limit + 1),
{
    let evidence = existing.evidence_count + 1;
    let points = evidence * 4 * POINT;
    lemma_with_component(existing.components, "independentEvidence"@, points, 0);
    lemma_set_summable(existing.components, "independentEvidence"@, points);
    lemma_score_grows(existing.score);
    lemma_score_grows(candidate.score);
    lemma_signed_again(existing.score + 4 * POINT);
    lemma_signed_again(candidate.score + 4 * POINT);
}

/// Adds what was read to the candidates.
fn see(list: &mut Vec<RecoveryCandidate>, candidate: RecoveryCandidate, Ghost(limit): Ghost<int>)
    requires
        all_counted(candidates(old(list)@), limit),
        is_counted(candidate@, limit),
        limit < EVIDENCE_BOUND,
    ensures
        candidates(final(list)@) == with_seen(candidates(old(list)@), candidate@),
        all_counted(candidates(final(list)@), limit + 1),
{
    let ghost before = candidates(list@);
    match find_candidate(list, &candidate.payload) {
        Some(at) => {
            proof {
                lemma_place_payload(before, candidate@.payload, before.len() as int);
                assert(is_counted(before[at as int], limit));
                lemma_seen_again(before[at as int], candidate@, limit);
            }
            let mut existing: RecoveryCandidate = list.remove(at);
            assert(existing@ == before[at as int]);
            existing.evidence_count = existing.evidence_count + 1;
            let points: i128 = existing.evidence_count as i128 * 4 * POINT;
            set_component(&mut existing.score_components, "independentEvidence", points);
            if candidate.score > existing.score {
                existing.score = candidate.score;
            }
            existing.score = round_signed(existing.score + 4 * POINT);
            agree(&mut existing.confidence);
            list.insert(at, existing);
            proof {
                let after = candidates(list@);
                assert(existing@ == seen_again(before[at as int], candidate@));
                assert(after =~= before.update(at as int, existing@));
                assert forall|i: int| 0 <= i < after.len() implies is_counted(
                    #[trigger] after[i],
                    limit + 1,
                ) by {
                    if i != at {
                        assert(is_counted(before[i], limit));
                    }
                }
            }
        },
        None => {
            list.push(candidate);
            proof {
                let after = candidates(list@);
                assert(after =~= before.push(candidate@));
                assert forall|i: int| 0 <= i < after.len() implies is_counted(
                    #[trigger] after[i],
                    limit + 1,
                ) by {
                    if i < before.len() {
                        assert(is_counted(before[i], limit));
                    }
                }
            }
        },
    }
}

proof fn lemma_place_payload(list: Seq<Candidate>, payload: Seq<u8>, n: int)
    requires
        0 <= n <= list.len(),
    ensures
        candidate_place(list, payload, n) < n || n == 0,
        candidate_place(list, payload, n) >= 0 ==> list[candidate_place(
            list,
            payload,
            n,
        )].payload == payload,
    decreases n,
{
    if n > 0 {
        lemma_place_payload(list, payload, n - 1);
    }
}

/// Adds what a variant gave to the candidates.
fn see_all(
    list: &mut Vec<RecoveryCandidate>,
    others: Vec<RecoveryCandidate>,
    Ghost(limit): Ghost<int>,
)
    requires
        all_counted(candidates(old(list)@), limit),
        all_counted(candidates(others@), limit),
        limit + others@.len() <= EVIDENCE_BOUND,
    ensures
        candidates(final(list)@) == all_seen(
            candidates(old(list)@),
            candidates(others@),
            others@.len() as int,
        ),
        all_counted(candidates(final(list)@), limit + others@.len()),
{
    let ghost start = candidates(list@);
    let ghost all = candidates(others@);
    let ghost total = all.len() as int;
    let mut rest: Vec<RecoveryCandidate> = others;
    assert(candidates(rest@) =~= all.subrange(0, total));
    while rest.len() > 0
        invariant
            total == all.len(),
            rest@.len() <= total,
            limit + total <= EVIDENCE_BOUND,
            all_counted(all, limit),
            candidates(rest@) == all.subrange(total - rest@.len(), total),
            candidates(list@) == all_seen(start, all, total - rest@.len()),
            all_counted(candidates(list@), limit + total - rest@.len()),
        decreases rest@.len(),
    {
        let ghost before = rest@;
        let ghost done = total - before.len();
        let candidate: RecoveryCandidate = rest.remove(0);
        proof {
            assert(candidate@ == candidates(before)[0]);
            assert(candidates(before)[0] == all[done]);
            assert(candidates(rest@) =~= candidates(before).subrange(1, before.len() as int));
            assert(candidates(rest@) =~= all.subrange(done + 1, total));
            assert(is_counted(all[done], limit));
        }
        see(list, candidate, Ghost(limit + done));
    }
}

/// Offers the preview of a variant for all that was read in it.
fn offer_all(
    previews: &mut Vec<PreviewEntry>,
    others: &Vec<RecoveryCandidate>,
    preview: &PreviewImage,
    name: &str,
)
    ensures
        preview_notes(final(previews)@) == all_offered(
            preview_notes(old(previews)@),
            candidates(others@),
            preview@,
            name@,
            others@.len() as int,
        ),
{
    let ghost all = candidates(others@);
    let mut i: usize = 0;
    while i < others.len()
        invariant
            all == candidates(others@),
            i <= others@.len(),
            preview_notes(previews@) == all_offered(
                preview_notes(old(previews)@),
                all,
                preview@,
                name@,
                i as int,
            ),
        decreases others@.len() - i,
    {
        let entry: PreviewEntry = PreviewEntry {
            payload: copy_bytes(others[i].payload.as_slice()),
            score: others[i].score,
            preview: copy_preview(preview),
            name: String::from_str(name),
        };
        assert(entry@ == (PreviewNote {
            payload: all[i as int].payload,
            score: all[i as int].score,
            preview: preview@,
            name: name@,
        }));
        offer_preview(previews, entry);
        i += 1;
    }
}

fn sighted(list: &Vec<FrameRead>, frame: usize, payload: &Vec<u8>) -> (known: bool)
    ensures
        known == read_in(sightings(list@), frame as int, payload@),
{
    let ghost sighting = Sighting { frame: frame as int, payload: payload@ };
    let mut i: usize = 0;
    while i < list.len()
        invariant
            sighting == (Sighting { frame: frame as int, payload: payload@ }),
            i <= list@.len(),
            forall|k: int| 0 <= k < i ==> #[trigger] sightings(list@)[k] != sighting,
        decreases list@.len() - i,
    {
        if list[i].frame == frame && same_bytes(list[i].payload.as_slice(), payload.as_slice()) {
            assert(sightings(list@)[i as int] == sighting);
            return true;
        }
        i += 1;
    }
    false
}

/// Notes what was read in a frame.
fn sight_all(list: &mut Vec<FrameRead>, frame: usize, others: &Vec<RecoveryCandidate>)
    ensures
        sightings(final(list)@) == all_sighted(
            sightings(old(list)@),
            frame as int,
            candidates(others@),
            others@.len() as int,
        ),
{
    let ghost all = candidates(others@);
    let mut i: usize = 0;
    while i < others.len()
        invariant
            all == candidates(others@),
            i <= others@.len(),
            sightings(list@) == all_sighted(sightings(old(list)@), frame as int, all, i as int),
        decreases others@.len() - i,
    {
        if !sighted(list, frame, &others[i].payload) {
            let ghost before = sightings(list@);
            let read: FrameRead = FrameRead {
                frame,
                payload: copy_bytes(others[i].payload.as_slice()),
            };
            list.push(read);
            assert(sightings(list@) =~= before.push(
                Sighting { frame: frame as int, payload: all[i as int].payload },
            ));
        }
        i += 1;
    }
}

fn find_hits(list: &Vec<PayloadHits>, payload: &Vec<u8>) -> (place: Option<usize>)
    ensures
        match place {
            Some(at) => at == hit_place(hit_counts(list@), payload@, list@.len() as int) && at
                < list@.len(),
            None => hit_place(hit_counts(list@), payload@, list@.len() as int) == -1,
        },
{
    let mut n: usize = list.len();
    while n > 0
        invariant
            n <= list@.len(),
            hit_place(hit_counts(list@), payload@, list@.len() as int) == hit_place(
                hit_counts(list@),
                payload@,
                n as int,
            ),
        decreases n,
    {
        if same_bytes(list[n - 1].payload.as_slice(), payload.as_slice()) {
            return Some(n - 1);
        }
        n -= 1;
    }
    None
}

fn known_before(others: &Vec<RecoveryCandidate>, i: usize) -> (known: bool)
    requires
        i < others@.len(),
    ensures
        known == (candidate_place(
            candidates(others@),
            candidates(others@)[i as int].payload,
            i as int,
        ) >= 0),
{
    let ghost payload = candidates(others@)[i as int].payload;
    let mut n: usize = i;
    while n > 0
        invariant
            n <= i < others@.len(),
            payload == candidates(others@)[i as int].payload,
            candidate_place(candidates(others@), payload, i as int) == candidate_place(
                candidates(others@),
                payload,
                n as int,
            ),
        decreases n,
    {
        if same_bytes(others[n - 1].payload.as_slice(), others[i].payload.as_slice()) {
            return true;
        }
        n -= 1;
    }
    false
}

/// Counts the variant for every payload that was read in it.
fn hit_all(list: &mut Vec<PayloadHits>, others: &Vec<RecoveryCandidate>, Ghost(limit): Ghost<int>)
    requires
        forall|i: int|
            0 <= i < old(list)@.len() ==> (#[trigger] hit_counts(old(list)@)[i]).count <= limit,
        0 <= limit < u64::MAX,
    ensures
        hit_counts(final(list)@) == all_hit(
            hit_counts(old(list)@),
            candidates(others@),
            others@.len() as int,
        ),
        forall|i: int|
            0 <= i < final(list)@.len() ==> (#[trigger] hit_counts(final(list)@)[i]).count <= limit
                + 1,
{
    let ghost all = candidates(others@);
    let ghost start = hit_counts(list@);
    let mut i: usize = 0;
    while i < others.len()
        invariant
            all == candidates(others@),
            i <= others@.len(),
            0 <= limit < u64::MAX,
            hit_counts(list@) == all_hit(start, all, i as int),
            forall|k: int|
                0 <= k < list@.len() ==> (#[trigger] hit_counts(list@)[k]).count <= limit + 1,
            forall|k: int|
                0 <= k < list@.len() && candidate_place(
                    all,
                    (#[trigger] hit_counts(list@)[k]).payload,
                    i as int,
                ) < 0 ==> hit_counts(list@)[k].count <= limit,
        decreases others@.len() - i,
    {
        let ghost before = hit_counts(list@);
        let ghost payload = all[i as int].payload;
        if !known_before(others, i) {
            proof {
                lemma_hit_place(before, payload, before.len() as int);
            }
            match find_hits(list, &others[i].payload) {
                Some(at) => {
                    assert(before[at as int].payload == payload);
                    assert(before[at as int].count <= limit);
                    let count: u64 = list[at].count + 1;
                    let hits: PayloadHits = PayloadHits {
                        payload: copy_bytes(others[i].payload.as_slice()),
                        count,
                    };
                    list.set(at, hits);
                    assert(hit_counts(list@) =~= before.update(
                        at as int,
                        Hits { payload, count: count as int },
                    ));
                },
                None => {
                    let hits: PayloadHits = PayloadHits {
                        payload: copy_bytes(others[i].payload.as_slice()),
                        count: 1,
                    };
                    list.push(hits);
                    assert(hit_counts(list@) =~= before.push(Hits { payload, count: 1 }));
                },
            }
        }
        i += 1;
    }
}

proof fn lemma_hit_place(list: Seq<Hits>, payload: Seq<u8>, n: int)
    requires
        0 <= n <= list.len(),
    ensures
        hit_place(list, payload, n) < n || n == 0,
        hit_place(list, payload, n) >= 0 ==> list[hit_place(list, payload, n)].payload == payload,
    decreases n,
{
    if n > 0 {
        lemma_hit_place(list, payload, n - 1);
    }
}

/// Whether a payload was read in every frame in which anything was read.
fn everywhere(reads: &Vec<FrameRead>, payload: &Vec<u8>) -> (result: bool)
    ensures
        result == read_everywhere(sightings(reads@), payload@),
{
    let ghost all = sightings(reads@);
    let mut j: usize = 0;
    while j < reads.len()
        invariant
            all == sightings(reads@),
            j <= reads@.len(),
            forall|k: int| 0 <= k < j ==> read_in(all, (#[trigger] all[k]).frame, payload@),
        decreases reads@.len() - j,
    {
        if !sighted(reads, reads[j].frame, payload) {
            assert(!read_in(all, all[j as int].frame, payload@));
            return false;
        }
        j += 1;
    }
    true
}

/// Whether frames contradict each other.
fn frames_conflict(reads: &Vec<FrameRead>) -> (result: bool)
    ensures
        result == conflicting(sightings(reads@)),
{
    let ghost all = sightings(reads@);
    let mut several: bool = false;
    let mut i: usize = 0;
    while i < reads.len()
        invariant
            all == sightings(reads@),
            i <= reads@.len(),
            several == exists|j: int| 0 <= j < i && (#[trigger] all[j]).frame != all[0].frame,
            forall|k: int| 0 <= k < i ==> !read_everywhere(all, (#[trigger] all[k]).payload),
        decreases reads@.len() - i,
    {
        if everywhere(reads, &reads[i].payload) {
            assert(read_everywhere(all, all[i as int].payload));
            return false;
        }
        if reads[i].frame != reads[0].frame {
            assert(all[i as int].frame != all[0].frame);
            several = true;
        }
        i += 1;
    }
    several
}

impl RecoverySession {
    /// Begins a recovery from so many frames.
    pub fn new(input_count: usize, options: &RecoveryOptions) -> (begun: Result<
        RecoverySession,
        RecoveryError,
    >)
        requires
            input_count <= EVIDENCE_BOUND,
        ensures
            if input_count == 0 {
                begun is Err && begun->Err_0@ == Refusal::NoObservation
            } else {
                begun is Ok && begun->Ok_0@ == (Session {
                    input_count: input_count as int,
                    batch_count: options.batch_count as int,
                    effort: options.effort,
                    examined_variants: 0,
                    valid_reads: 0,
                    invalid_reads: 0,
                    soft_decode_attempts: 0,
                    candidates: Seq::empty(),
                    reads: Seq::empty(),
                    hits: Seq::empty(),
                    previews: Seq::empty(),
                    first_verified_at: None,
                    termination_reason: None,
                }) && is_session(begun->Ok_0@)
            },
    {
        if input_count == 0 {
            return Err(RecoveryError::NoObservation);
        }
        let session: RecoverySession = RecoverySession {
            input_count,
            batch_count: options.batch_count,
            effort: options.effort,
            examined_variants: 0,
            valid_reads: 0,
            invalid_reads: 0,
            soft_decode_attempts: 0,
            candidates: Vec::new(),
            reads: Vec::new(),
            hits: Vec::new(),
            previews: Vec::new(),
            first_verified_at: None,
            termination_reason: None,
        };
        proof {
            assert(session@.candidates =~= Seq::<Candidate>::empty());
            assert(session@.reads =~= Seq::<Sighting>::empty());
            assert(session@.hits =~= Seq::<Hits>::empty());
            assert(session@.previews =~= Seq::<PreviewNote>::empty());
        }
        Ok(session)
    }

    /// Whether a variant is worth trying.
    pub fn wants(&self, name: &str) -> (wanted: bool)
        ensures
            wanted == is_wanted(self@, name@),
    {
        if has_part(name, "otsu") {
            return true;
        }
        let mut i: usize = 0;
        while i < self.candidates.len()
            invariant
                !contains_part(name@, "otsu"@),
                i <= self.candidates@.len(),
                forall|k: int| 0 <= k < i ==> !is_deformed(#[trigger] self@.candidates[k]),
            decreases self.candidates@.len() - i,
        {
            if deformed(&self.candidates[i]) {
                assert(is_deformed(self@.candidates[i as int]));
                return false;
            }
            i += 1;
        }
        true
    }

    /// Ends the search if the time is up.
    pub fn check_time(&mut self, elapsed_micros: u64, max_micros: u64) -> (up: bool)
        ensures
            up == (elapsed_micros >= max_micros),
            final(self)@ == (Session {
                termination_reason: if up {
                    Some(TerminationReason::TimeLimit)
                } else {
                    old(self)@.termination_reason
                },
                ..old(self)@
            }),
    {
        if elapsed_micros >= max_micros {
            self.termination_reason = Some(TerminationReason::TimeLimit);
            return true;
        }
        false
    }

    fn count_outcome(&mut self, outcome: &DecodeOutcome)
        requires
            has_room(old(self)@, outcome@),
        ensures
            final(self)@ == (Session {
                examined_variants: old(self)@.examined_variants + 1,
                valid_reads: old(self)@.valid_reads + outcome@.valid_reads,
                invalid_reads: old(self)@.invalid_reads + outcome@.invalid_reads,
                soft_decode_attempts: old(self)@.soft_decode_attempts + outcome@.attempts,
                ..old(self)@
            }),
            final(self).candidates == old(self).candidates,
            final(self).reads == old(self).reads,
            final(self).hits == old(self).hits,
            final(self).previews == old(self).previews,
    {
        self.examined_variants = self.examined_variants + 1;
        self.valid_reads = self.valid_reads + outcome.valid_reads;
        self.invalid_reads = self.invalid_reads + outcome.invalid_reads;
        self.soft_decode_attempts = self.soft_decode_attempts + outcome.attempts;
    }

    fn may_stop(&self) -> (stop: bool)
        requires
            is_session(self@),
        ensures
            stop == may_end(self@),
    {
        if self.candidates.len() == 0 {
            return false;
        }
        if self.batch_count > 1 {
            return true;
        }
        if self.batch_count != 1 || self.input_count != 1 || self.candidates.len() != 1 {
            return false;
        }
        let profile: EffortProfile = effort_profile(self.effort);
        let first: u64 = match self.first_verified_at {
            Some(first) => first,
            None => {
                return false;
            },
        };
        assert(self@.candidates[0].payload == self.candidates@[0].payload@);
        let hits: u64 = match find_hits(&self.hits, &self.candidates[0].payload) {
            Some(at) => self.hits[at].count,
            None => 0,
        };
        assert(hits == hits_of(self@.hits, self@.candidates[0].payload));
        hits >= profile.confirmation_reads as u64 && self.examined_variants - first
            >= profile.confirmation_window as u64
    }

    /// Records what a variant of a frame gave, and says whether the search may
    /// end.
    pub fn record(
        &mut self,
        frame: usize,
        name: &str,
        outcome: DecodeOutcome,
        preview: &PreviewImage,
    ) -> (stop: bool)
        requires
            is_session(old(self)@),
            can_be_counted(outcome@),
            has_room(old(self)@, outcome@),
        ensures
            final(self)@ == recorded(old(self)@, frame as int, name@, outcome@, preview@),
            stop == may_end(noted(old(self)@, frame as int, name@, outcome@, preview@)),
            is_session(final(self)@),
    {
        let ghost start = self@;
        let ghost n = outcome@.candidates.len() as int;
        self.count_outcome(&outcome);
        offer_all(&mut self.previews, &outcome.candidates, preview, name);
        sight_all(&mut self.reads, frame, &outcome.candidates);
        hit_all(&mut self.hits, &outcome.candidates, Ghost(start.examined_variants));
        proof {
            let limit = EVIDENCE_BOUND - n;
            assert forall|i: int| 0 <= i < n implies is_counted(
                #[trigger] candidates(outcome.candidates@)[i],
                limit,
            ) by {
                assert(is_countable(outcome@.candidates[i]));
            }
        }
        proof {
            lemma_recorded_shown(
                start.candidates,
                start.previews,
                outcome@.candidates,
                outcome@.candidates,
                preview@,
                name@,
            );
        }
        see_all(&mut self.candidates, outcome.candidates, Ghost(EVIDENCE_BOUND - n));
        if self.batch_count == 1 && self.input_count == 1 && self.candidates.len() > 0
            && self.first_verified_at.is_none() {
            self.first_verified_at = Some(self.examined_variants);
        }
        assert(self@ == noted(start, frame as int, name@, outcome@, preview@));
        proof {
            assert forall|i: int| 0 <= i < n implies (
            #[trigger] outcome@.candidates[i]).evidence_count >= 1 by {
                assert(is_countable(outcome@.candidates[i]));
            }
            lemma_recorded_backed(
                start.hits,
                start.candidates,
                start.valid_reads,
                outcome@.candidates,
                outcome@.valid_reads,
            );
        }
        let stop: bool = self.may_stop();
        if stop {
            self.termination_reason = Some(TerminationReason::ConfidenceLimit);
        }
        stop
    }

    /// Whether the frames are worth fusing.
    pub fn wants_fusion(&self, elapsed_micros: u64, max_micros: u64) -> (wanted: bool)
        ensures
            wanted == (self@.candidates.len() == 0 && self@.input_count > 1 && elapsed_micros
                < max_micros),
    {
        self.candidates.len() == 0 && self.input_count > 1 && elapsed_micros < max_micros
    }

    /// Records what a variant of the fused frames gave.
    pub fn record_fused(&mut self, name: &str, outcome: DecodeOutcome, preview: &PreviewImage)
        requires
            is_session(old(self)@),
            can_be_counted(outcome@),
            has_room(old(self)@, outcome@),
        ensures
            final(self)@ == fusion_recorded(old(self)@, name@, outcome@, preview@),
            is_session(final(self)@),
    {
        let ghost start = self@;
        let ghost n = outcome@.candidates.len() as int;
        let ghost limit = EVIDENCE_BOUND - n;
        let ghost read = outcome@.candidates;
        self.count_outcome(&outcome);
        offer_all(&mut self.previews, &outcome.candidates, preview, name);
        let list: Vec<RecoveryCandidate> = fuse_all(outcome.candidates, self.input_count);
        proof {
            assert forall|i: int| 0 <= i < n implies is_counted(
                #[trigger] candidates(list@)[i],
                limit,
            ) by {
                assert(is_counted(candidates(list@)[i], self.input_count as int));
            }
            assert(candidates(list@).len() == list@.len());
            lemma_recorded_shown(
                start.candidates,
                start.previews,
                read,
                candidates(list@),
                preview@,
                name@,
            );
        }
        see_all(&mut self.candidates, list, Ghost(limit));
        assert(self@ == fusion_recorded(start, name@, outcome@, preview@));
        proof {
            lemma_recorded_backed(
                start.hits,
                start.candidates,
                start.valid_reads,
                all_fused(read, start.input_count),
                outcome@.valid_reads,
            );
        }
    }

    /// Ends the recovery with its report.
    pub fn finish(self, elapsed_micros: u64) -> (result: RecoveryResult)
        requires
            is_session(self@),
        ensures
            result@ == finished(self@, elapsed_micros as int),
    {
        let conflict: bool = frames_conflict(&self.reads);
        let settled: Settlement = conclude(self.candidates, self.previews, conflict);
        let (best_variant, best_variant_name): (Option<PreviewImage>, Option<String>) =
            match settled.best {
            Some((preview, name)) => (Some(preview), Some(name)),
            None => (None, None),
        };
        let result: RecoveryResult = RecoveryResult {
            status: settled.status,
            candidates: settled.candidates,
            diagnostics: RecoveryDiagnostics {
                examined_variants: self.examined_variants,
                valid_reads: self.valid_reads,
                invalid_reads: self.invalid_reads,
                soft_decode_attempts: self.soft_decode_attempts,
                elapsed_micros,
                input_count: self.input_count as u64,
                runtime: String::from_str(RUNTIME),
            },
            discarded_frames: Vec::new(),
            termination_reason: match self.termination_reason {
                Some(reason) => Some(String::from_str(reason.name())),
                None => None,
            },
            best_variant,
            best_variant_name,
        };
        assert(result@.discarded_frames =~= Seq::<Seq<char>>::empty());
        result
    }
}

proof fn lemma_fused(candidate: Candidate, inputs: int)
    requires
        is_countable(candidate),
        1 <= inputs <= EVIDENCE_BOUND,
    ensures
        is_counted(fused(candidate, inputs), inputs),
{
    let points = inputs * 4 * POINT;
    lemma_with_component(candidate.components, "independentEvidence"@, points, 0);
    lemma_set_summable(candidate.components, "independentEvidence"@, points);
    lemma_score_bound();
    lemma_signed_within(candidate.score + points, SCORE_BOUND as int);
    lemma_signed_again(candidate.score + points);
}

/// Counts what was read from fused frames as read from each.
fn fuse_all(list: Vec<RecoveryCandidate>, inputs: usize) -> (result: Vec<RecoveryCandidate>)
    requires
        1 <= inputs <= EVIDENCE_BOUND,
        forall|i: int| 0 <= i < list@.len() ==> is_countable(#[trigger] candidates(list@)[i]),
    ensures
        candidates(result@) == all_fused(candidates(list@), inputs as int),
        all_counted(candidates(result@), inputs as int),
{
    let ghost all = candidates(list@);
    let ghost total = all.len() as int;
    let mut rest: Vec<RecoveryCandidate> = list;
    let mut result: Vec<RecoveryCandidate> = Vec::new();
    assert(candidates(rest@) =~= all.subrange(0, total));
    while rest.len() > 0
        invariant
            1 <= inputs <= EVIDENCE_BOUND,
            total == all.len(),
            forall|i: int| 0 <= i < total ==> is_countable(#[trigger] all[i]),
            rest@.len() + result@.len() == total,
            candidates(rest@) == all.subrange(result@.len() as int, total),
            forall|i: int|
                0 <= i < result@.len() ==> {
                    &&& #[trigger] candidates(result@)[i] == fused(all[i], inputs as int)
                    &&& is_counted(candidates(result@)[i], inputs as int)
                },
        decreases rest@.len(),
    {
        let ghost before = rest@;
        let ghost done = result@.len() as int;
        let ghost earlier = candidates(result@);
        let mut candidate: RecoveryCandidate = rest.remove(0);
        proof {
            assert(candidate@ == candidates(before)[0]);
            assert(candidates(before)[0] == all[done]);
            assert(candidates(rest@) =~= candidates(before).subrange(1, before.len() as int));
            assert(candidates(rest@) =~= all.subrange(done + 1, total));
            assert(is_countable(all[done]));
            lemma_fused(all[done], inputs as int);
        }
        let points: i128 = inputs as i128 * 4 * POINT;
        candidate.evidence_count = inputs as u64;
        set_component(&mut candidate.score_components, "independentEvidence", points);
        candidate.score = round_signed(candidate.score + points);
        result.push(candidate);
        proof {
            let after = candidates(result@);
            assert(candidate@ == fused(all[done], inputs as int));
            assert(after =~= earlier.push(candidate@));
            assert forall|i: int| 0 <= i < result@.len() implies {
                &&& #[trigger] after[i] == fused(all[i], inputs as int)
                &&& is_counted(after[i], inputs as int)
            } by {
                if i < done {
                    assert(after[i] == earlier[i]);
                }
            }
        }
    }
    assert(candidates(result@) =~= all_fused(all, inputs as int));
    result
}

/// What was read in one frame only is no contradiction.
pub proof fn one_frame_is_no_conflict(reads: Seq<Sighting>, frame: int)
    requires
        forall|i: int| 0 <= i < reads.len() ==> (#[trigger] reads[i]).frame == frame,
    ensures
        !conflicting(reads),
{
}

/// Frames that share a payload do not contradict each other, whatever else was
/// read in them.
pub proof fn a_shared_payload_is_no_conflict(reads: Seq<Sighting>, payload: Seq<u8>)
    requires
        reads.len() > 0,
        read_everywhere(reads, payload),
    ensures
        !conflicting(reads),
{
    assert(read_in(reads, reads[0].frame, payload));
    let k = reads.index_of(Sighting { frame: reads[0].frame, payload });
    assert(reads[k].payload == payload);
}

/// Recording takes nothing back: every payload keeps its place, and neither its
/// score nor its evidence falls.
pub proof fn recording_keeps_candidates(
    list: Seq<Candidate>,
    others: Seq<Candidate>,
    n: int,
    i: int,
)
    requires
        0 <= n <= others.len(),
        0 <= i < list.len(),
        is_double(list[i].score),
    ensures
        all_seen(list, others, n).len() >= list.len(),
        all_seen(list, others, n)[i].payload == list[i].payload,
        all_seen(list, others, n)[i].score >= list[i].score,
        all_seen(list, others, n)[i].evidence_count >= list[i].evidence_count,
    decreases n,
{
    if n > 0 {
        recording_keeps_candidates(list, others, n - 1, i);
        let before = all_seen(list, others, n - 1);
        lemma_place_payload(before, others[n - 1].payload, before.len() as int);
        lemma_signed_monotone(list[i].score, before[i].score + 4 * POINT);
        if others[n - 1].score >= before[i].score {
            lemma_signed_monotone(list[i].score, others[n - 1].score + 4 * POINT);
        }
    }
}

/// Recording adds every payload that was read.
pub proof fn recording_adds_payloads(
    list: Seq<Candidate>,
    others: Seq<Candidate>,
    n: int,
    k: int,
)
    requires
        0 <= k < n <= others.len(),
    ensures
        reads(all_seen(list, others, n), others[k].payload),
    decreases n,
{
    let before = all_seen(list, others, n - 1);
    let after = all_seen(list, others, n);
    let m = before.len() as int;
    lemma_place_payload(before, others[n - 1].payload, m);
    let at = candidate_place(before, others[n - 1].payload, m);
    if k == n - 1 {
        if at < 0 {
            assert(after[m].payload == others[k].payload);
        } else {
            assert(after[at].payload == others[k].payload);
        }
    } else {
        recording_adds_payloads(list, others, n - 1, k);
        let i = choose|i: int|
            0 <= i < before.len() && (#[trigger] before[i]).payload == others[k].payload;
        assert(after[i].payload == others[k].payload);
    }
}

/// A search by one batch ends early only on one frame with one candidate, once
/// as many variants as its effort asks for have read that payload and as many
/// have been tried after the first read. The candidate has at least so much
/// evidence, and the session at least so many valid reads.
pub proof fn searches_end_confirmed(session: Session)
    requires
        is_session(session),
        may_end(session),
        session.batch_count == 1,
    ensures
        session.input_count == 1,
        session.candidates.len() == 1,
        hits_of(session.hits, session.candidates[0].payload) >= confirmation_reads(session.effort),
        session.candidates[0].evidence_count >= confirmation_reads(session.effort),
        session.valid_reads >= confirmation_reads(session.effort),
        session.examined_variants >= session.first_verified_at->Some_0 + confirmation_window(
            session.effort,
        ),
{
    assert(evidence_of(session.candidates, session.candidates[0].payload)
        == session.candidates[0].evidence_count);
}

/// Whoever reports a candidate shows a picture in which the best one was read.
pub proof fn candidates_are_shown(session: Session, elapsed_micros: int)
    requires
        is_session(session),
        session.candidates.len() > 0,
    ensures
        finished(session, elapsed_micros).candidates.len() > 0,
        finished(session, elapsed_micros).best_variant is Some,
        finished(session, elapsed_micros).best_variant_name is Some,
{
    let list = session.candidates;
    let n = list.len() as int;
    conclusions_are_ordered(list, session.previews, conflicting(session.reads));
    ordering_is_sorted(list, n);
    let first = ordered(list, n)[0];
    let k = list.index_of(first);
    assert(list[k] == first);
    assert(is_shown(list[k].payload, session.previews));
    let i = choose|i: int|
        0 <= i < session.previews.len() && (#[trigger] session.previews[i]).payload
            == first.payload;
    lemma_some_preview(session.previews, first.payload, session.previews.len() as int, i);
}

proof fn lemma_some_preview(list: Seq<PreviewNote>, payload: Seq<u8>, n: int, i: int)
    requires
        0 <= i < n <= list.len(),
        list[i].payload == payload,
    ensures
        preview_place(list, payload, n) >= 0,
    decreases n,
{
    if i < n - 1 {
        lemma_some_preview(list, payload, n - 1, i);
    }
}

/// A thorough search decodes every variant of the balanced plan as a balanced
/// search would.
pub proof fn thorough_decodes_balanced_alike(i: int)
    requires
        0 <= i < variant_plan(Effort::Balanced).len(),
    ensures
        decoding_effort(
            Effort::Thorough,
            recipe_name(variant_plan(Effort::Balanced)[i].recipe),
        ) == decoding_effort(
            Effort::Balanced,
            recipe_name(variant_plan(Effort::Balanced)[i].recipe),
        ),
{
}

proof fn lemma_seen_verified(list: Seq<Candidate>, others: Seq<Candidate>, n: int)
    requires
        0 <= n <= others.len(),
        all_verified(list),
        all_verified(others),
    ensures
        all_verified(all_seen(list, others, n)),
    decreases n,
{
    if n > 0 {
        lemma_seen_verified(list, others, n - 1);
        let before = all_seen(list, others, n - 1);
        let after = all_seen(list, others, n);
        let other = others[n - 1];
        let at = candidate_place(before, other.payload, before.len() as int);
        lemma_place_payload(before, other.payload, before.len() as int);
        assert(is_verified(other));
        assert forall|i: int| 0 <= i < after.len() implies is_verified(#[trigger] after[i]) by {
            if i < before.len() {
                assert(is_verified(before[i]));
                if i == at {
                    keeping_the_symbol_keeps_it_verified(before[i], after[i]);
                }
            }
        }
    }
}

/// A search that was handed only verified candidates holds and reports no others.
pub proof fn searches_stay_verified(
    session: Session,
    frame: int,
    name: Seq<char>,
    outcome: Decoded,
    preview: Preview,
    elapsed_micros: int,
)
    requires
        all_verified(session.candidates),
        all_verified(outcome.candidates),
    ensures
        all_verified(recorded(session, frame, name, outcome, preview).candidates),
        all_verified(fusion_recorded(session, name, outcome, preview).candidates),
        all_verified(finished(session, elapsed_micros).candidates),
{
    let found = outcome.candidates;
    lemma_seen_verified(session.candidates, found, found.len() as int);
    let fusions = all_fused(found, session.input_count);
    assert forall|i: int| 0 <= i < fusions.len() implies is_verified(#[trigger] fusions[i]) by {
        assert(is_verified(found[i]));
        keeping_the_symbol_keeps_it_verified(found[i], fusions[i]);
    }
    lemma_seen_verified(session.candidates, fusions, found.len() as int);
    conclusions_stay_verified(
        session.candidates,
        session.previews,
        conflicting(session.reads),
    );
}

} // verus!
