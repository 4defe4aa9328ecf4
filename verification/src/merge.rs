//! Merging the results of batches that worked on the same inputs.

use vstd::prelude::*;

use crate::options::{RecoveryError, Refusal};
use crate::order::copy_bytes;
use crate::phrases::{
    comes_before_text, lemma_text_before_total, lemma_text_before_transitive, text_before,
};
use crate::reading::{
    all_verified, conclusions_stay_verified, is_verified, keeping_the_symbol_keeps_it_verified,
};
use crate::recovery_result::{
    agree, agreed, candidate_place, candidates, component_value, conclude, concluded,
    conclusions_are_ordered, find_candidate, is_one_of, is_ordered, judged, leads,
    lemma_set_summable, lemma_total_bounded, lemma_value_bounded, lemma_with_component,
    offer_preview, ordered, ordering_is_sorted, preview_notes, preview_place, same_but_confidence,
    set_component, settled_status, sum_components, summable, text_of, texts, total_score, value_of,
    with_component, with_led, with_preview, Candidate, Diagnosis, PreviewEntry, PreviewImage,
    PreviewNote, RecoveryCandidate, RecoveryDiagnostics, RecoveryResult, Report, Settlement,
    EVIDENCE_BOUND, PART_LIMIT, POINT, RUNTIME, SCORE_BOUND,
};
use crate::rounding::{round_signed, rounded_signed};

verus! {

/// A score without what other reads of the payload added to it.
pub open spec fn independent_score(candidate: Candidate) -> int {
    rounded_signed(
        candidate.score - component_value(candidate.components, "independentEvidence"@),
    )
}

/// Points for evidence beyond the first read: four for each.
pub open spec fn evidence_points(evidence: int) -> int {
    if evidence > 1 {
        (evidence - 1) * 4 * POINT
    } else {
        0
    }
}

/// Two candidates with one payload become one: the evidence is added up, the
/// rest is taken from the one with the better score of its own, and the confidence
/// is that of agreement.
pub open spec fn combined(existing: Candidate, candidate: Candidate) -> Candidate {
    let evidence = existing.evidence_count + candidate.evidence_count;
    let base = if independent_score(candidate) > independent_score(existing) {
        candidate
    } else {
        existing
    };
    let components = with_component(
        base.components,
        "independentEvidence"@,
        evidence_points(evidence),
    );
    Candidate {
        evidence_count: evidence,
        components,
        score: total_score(components),
        confidence: agreed(base.confidence),
        ..base
    }
}

/// The candidates after another one was pooled.
pub open spec fn with_pooled(list: Seq<Candidate>, candidate: Candidate) -> Seq<Candidate> {
    let at = candidate_place(list, candidate.payload, list.len() as int);
    if at < 0 {
        list.push(candidate)
    } else {
        list.update(at, combined(list[at], candidate))
    }
}

/// The candidates after the first `n` of others were pooled.
pub open spec fn pooled(list: Seq<Candidate>, others: Seq<Candidate>, n: int) -> Seq<Candidate>
    decreases n,
{
    if n <= 0 {
        list
    } else {
        with_pooled(pooled(list, others, n - 1), others[n - 1])
    }
}

/// The candidates of the first `n` reports, pooled.
pub open spec fn pool(reports: Seq<Report>, n: int) -> Seq<Candidate>
    decreases n,
{
    if n <= 0 {
        Seq::empty()
    } else {
        let others = reports[n - 1].candidates;
        pooled(pool(reports, n - 1), others, others.len() as int)
    }
}

/// The evidence for the first `n` candidates.
pub open spec fn total_evidence(list: Seq<Candidate>, n: int) -> int
    decreases n,
{
    if n <= 0 {
        0
    } else {
        total_evidence(list, n - 1) + list[n - 1].evidence_count
    }
}

/// The evidence in the first `n` reports.
pub open spec fn reported_evidence(reports: Seq<Report>, n: int) -> int
    decreases n,
{
    if n <= 0 {
        0
    } else {
        reported_evidence(reports, n - 1) + total_evidence(
            reports[n - 1].candidates,
            reports[n - 1].candidates.len() as int,
        )
    }
}

/// What the first `n` reports did, taken together: the batches ran side by side,
/// so the longest time counts.
pub open spec fn tally(reports: Seq<Report>, n: int) -> Diagnosis
    decreases n,
{
    if n <= 0 {
        Diagnosis {
            examined_variants: 0,
            valid_reads: 0,
            invalid_reads: 0,
            soft_decode_attempts: 0,
            elapsed_micros: 0,
            input_count: reports[0].diagnostics.input_count,
            runtime: RUNTIME@,
        }
    } else {
        let before = tally(reports, n - 1);
        let next = reports[n - 1].diagnostics;
        Diagnosis {
            examined_variants: before.examined_variants + next.examined_variants,
            valid_reads: before.valid_reads + next.valid_reads,
            invalid_reads: before.invalid_reads + next.invalid_reads,
            soft_decode_attempts: before.soft_decode_attempts + next.soft_decode_attempts,
            elapsed_micros: if next.elapsed_micros > before.elapsed_micros {
                next.elapsed_micros
            } else {
                before.elapsed_micros
            },
            ..before
        }
    }
}

/// The preview that a report offers: of its first candidate.
pub open spec fn offered(list: Seq<PreviewNote>, report: Report) -> Seq<PreviewNote> {
    if report.candidates.len() > 0 && report.best_variant is Some
        && report.best_variant_name is Some {
        with_preview(
            list,
            PreviewNote {
                payload: report.candidates[0].payload,
                score: report.candidates[0].score,
                preview: report.best_variant->Some_0,
                name: report.best_variant_name->Some_0,
            },
        )
    } else {
        list
    }
}

/// The previews that the first `n` reports offer.
pub open spec fn offers(reports: Seq<Report>, n: int) -> Seq<PreviewNote>
    decreases n,
{
    if n <= 0 {
        Seq::empty()
    } else {
        offered(offers(reports, n - 1), reports[n - 1])
    }
}

/// A sorted list of names with one more.
pub open spec fn with_name(list: Seq<Seq<char>>, name: Seq<char>) -> Seq<Seq<char>>
    decreases list.len(),
{
    if list.len() == 0 || text_before(list.last(), name) {
        list.push(name)
    } else if list.last() == name {
        list
    } else {
        with_name(list.drop_last(), name).push(list.last())
    }
}

/// A sorted list of names with the first `n` of others.
pub open spec fn with_names(list: Seq<Seq<char>>, names: Seq<Seq<char>>, n: int) -> Seq<Seq<char>>
    decreases n,
{
    if n <= 0 {
        list
    } else {
        with_name(with_names(list, names, n - 1), names[n - 1])
    }
}

/// The names of all frames that the first `n` reports discarded.
pub open spec fn discarded(reports: Seq<Report>, n: int) -> Seq<Seq<char>>
    decreases n,
{
    if n <= 0 {
        Seq::empty()
    } else {
        let names = reports[n - 1].discarded_frames;
        with_names(discarded(reports, n - 1), names, names.len() as int)
    }
}

/// Whether one of the first `n` reports ran out of time.
pub open spec fn out_of_time(reports: Seq<Report>, n: int) -> bool {
    exists|i: int|
        0 <= i < n && (#[trigger] reports[i]).termination_reason == Some("time_limit"@)
}

/// The report that several reports add up to.
pub open spec fn merged(reports: Seq<Report>) -> Report {
    let n = reports.len() as int;
    let conclusion = concluded(pool(reports, n), offers(reports, n), false);
    Report {
        status: conclusion.status,
        candidates: conclusion.candidates,
        diagnostics: tally(reports, n),
        discarded_frames: discarded(reports, n),
        termination_reason: if out_of_time(reports, n) {
            Some("time_limit"@)
        } else {
            None
        },
        best_variant: match conclusion.best {
            Some((preview, name)) => Some(preview),
            None => None,
        },
        best_variant_name: match conclusion.best {
            Some((preview, name)) => Some(name),
            None => None,
        },
    }
}

/// Why reports cannot be merged, if they cannot.
pub open spec fn merge_refusal(reports: Seq<Report>) -> Option<Refusal> {
    if reports.len() == 0 {
        Some(Refusal::NoBatchResult)
    } else if exists|i: int|
        0 <= i < reports.len() && (#[trigger] reports[i]).diagnostics.input_count
            != reports[0].diagnostics.input_count {
        Some(Refusal::InputCounts)
    } else {
        None
    }
}

/// What the reports of some results are.
pub open spec fn reports(results: Seq<RecoveryResult>) -> Seq<Report> {
    Seq::new(results.len(), |i: int| results[i]@)
}

/// A candidate whose numbers can be added up, evidence from elsewhere included.
pub open spec fn is_bounded(candidate: Candidate, evidence: int) -> bool {
    &&& summable(candidate.components)
    &&& with_component(candidate.components, "independentEvidence"@, 0).len() <= PART_LIMIT
    &&& -SCORE_BOUND <= candidate.score <= SCORE_BOUND
    &&& 0 <= candidate.evidence_count <= evidence
}

/// Whether the numbers in reports can be added up.
pub open spec fn countable(reports: Seq<Report>) -> bool {
    let whole = tally(reports, reports.len() as int);
    &&& forall|i: int, j: int|
        0 <= i < reports.len() && 0 <= j < reports[i].candidates.len() ==> is_bounded(
            #[trigger] reports[i].candidates[j],
            EVIDENCE_BOUND as int,
        )
    &&& reported_evidence(reports, reports.len() as int) <= EVIDENCE_BOUND
    &&& whole.examined_variants <= u64::MAX
    &&& whole.valid_reads <= u64::MAX
    &&& whole.invalid_reads <= u64::MAX
    &&& whole.soft_decode_attempts <= u64::MAX
}

pub(crate) proof fn lemma_candidate_place(list: Seq<Candidate>, payload: Seq<u8>, n: int)
    requires
        0 <= n <= list.len(),
    ensures
        -1 <= candidate_place(list, payload, n) < n || n == 0,
        candidate_place(list, payload, n) >= 0 ==> list[candidate_place(
            list,
            payload,
            n,
        )].payload == payload,
        candidate_place(list, payload, n) < 0 ==> forall|i: int|
            0 <= i < n ==> (#[trigger] list[i]).payload != payload,
    decreases n,
{
    if n > 0 {
        lemma_candidate_place(list, payload, n - 1);
    }
}

proof fn lemma_evidence_prefix(a: Seq<Candidate>, b: Seq<Candidate>, n: int)
    requires
        0 <= n <= a.len(),
        n <= b.len(),
        forall|i: int| 0 <= i < n ==> a[i] == b[i],
    ensures
        total_evidence(a, n) == total_evidence(b, n),
    decreases n,
{
    if n > 0 {
        lemma_evidence_prefix(a, b, n - 1);
    }
}

proof fn lemma_evidence_update(list: Seq<Candidate>, at: int, candidate: Candidate, n: int)
    requires
        0 <= at < n <= list.len(),
    ensures
        total_evidence(list.update(at, candidate), n) == total_evidence(list, n)
            - list[at].evidence_count + candidate.evidence_count,
    decreases n,
{
    let next = list.update(at, candidate);
    if at == n - 1 {
        lemma_evidence_prefix(list, next, n - 1);
    } else {
        lemma_evidence_update(list, at, candidate, n - 1);
        assert(next[n - 1] == list[n - 1]);
    }
}

/// Pooling a candidate adds its evidence to the whole.
proof fn lemma_pooled_evidence(list: Seq<Candidate>, candidate: Candidate)
    ensures
        total_evidence(
            with_pooled(list, candidate),
            with_pooled(list, candidate).len() as int,
        ) == total_evidence(list, list.len() as int) + candidate.evidence_count,
{
    let n = list.len() as int;
    lemma_candidate_place(list, candidate.payload, n);
    let at = candidate_place(list, candidate.payload, n);
    if at < 0 {
        lemma_evidence_prefix(list, list.push(candidate), n);
    } else {
        lemma_evidence_update(list, at, combined(list[at], candidate), n);
    }
}

proof fn lemma_pooled_all_evidence(list: Seq<Candidate>, others: Seq<Candidate>, n: int)
    requires
        0 <= n <= others.len(),
    ensures
        total_evidence(pooled(list, others, n), pooled(list, others, n).len() as int)
            == total_evidence(list, list.len() as int) + total_evidence(others, n),
    decreases n,
{
    if n > 0 {
        lemma_pooled_all_evidence(list, others, n - 1);
        lemma_pooled_evidence(pooled(list, others, n - 1), others[n - 1]);
    }
}

/// Merging loses no evidence and makes none up: the pooled candidates have as
/// much as all reports together.
pub proof fn merging_keeps_evidence(reports: Seq<Report>, n: int)
    requires
        0 <= n <= reports.len(),
    ensures
        total_evidence(pool(reports, n), pool(reports, n).len() as int) == reported_evidence(
            reports,
            n,
        ),
    decreases n,
{
    if n > 0 {
        merging_keeps_evidence(reports, n - 1);
        let others = reports[n - 1].candidates;
        lemma_pooled_all_evidence(pool(reports, n - 1), others, others.len() as int);
    }
}

/// Whether no payload stands in a list twice.
pub open spec fn distinct_payloads(list: Seq<Candidate>) -> bool {
    forall|i: int, j: int|
        0 <= i < j < list.len() ==> (#[trigger] list[i]).payload != (#[trigger] list[j]).payload
}

/// Whether a payload was read.
pub open spec fn reads(list: Seq<Candidate>, payload: Seq<u8>) -> bool {
    exists|i: int| 0 <= i < list.len() && (#[trigger] list[i]).payload == payload
}

proof fn lemma_with_pooled_payloads(list: Seq<Candidate>, candidate: Candidate, payload: Seq<u8>)
    requires
        distinct_payloads(list),
    ensures
        distinct_payloads(with_pooled(list, candidate)),
        reads(with_pooled(list, candidate), payload) <==> reads(list, payload)
            || candidate.payload == payload,
{
    let n = list.len() as int;
    lemma_candidate_place(list, candidate.payload, n);
    let at = candidate_place(list, candidate.payload, n);
    let next = with_pooled(list, candidate);
    assert forall|i: int| 0 <= i < n implies (#[trigger] next[i]).payload == list[i].payload by {}
    if at < 0 {
        assert(next[n].payload == candidate.payload);
    } else {
        assert(next[at].payload == candidate.payload);
    }
    if reads(list, payload) {
        let i = choose|i: int| 0 <= i < list.len() && (#[trigger] list[i]).payload == payload;
        assert(next[i].payload == payload);
    }
    if reads(next, payload) {
        let i = choose|i: int| 0 <= i < next.len() && (#[trigger] next[i]).payload == payload;
        if i < n {
            assert(list[i].payload == payload);
        }
    }
}

proof fn lemma_pooled_payloads(
    list: Seq<Candidate>,
    others: Seq<Candidate>,
    n: int,
    payload: Seq<u8>,
)
    requires
        distinct_payloads(list),
        0 <= n <= others.len(),
    ensures
        distinct_payloads(pooled(list, others, n)),
        reads(pooled(list, others, n), payload) <==> reads(list, payload) || exists|i: int|
            0 <= i < n && (#[trigger] others[i]).payload == payload,
    decreases n,
{
    if n > 0 {
        lemma_pooled_payloads(list, others, n - 1, payload);
        lemma_with_pooled_payloads(pooled(list, others, n - 1), others[n - 1], payload);
    }
}

/// Every payload that some report read stands among the pooled candidates, once,
/// and no other does.
pub proof fn merging_keeps_payloads(reports: Seq<Report>, n: int, payload: Seq<u8>)
    requires
        0 <= n <= reports.len(),
    ensures
        distinct_payloads(pool(reports, n)),
        reads(pool(reports, n), payload) <==> exists|i: int|
            0 <= i < n && reads((#[trigger] reports[i]).candidates, payload),
    decreases n,
{
    if n > 0 {
        merging_keeps_payloads(reports, n - 1, payload);
        let others = reports[n - 1].candidates;
        lemma_pooled_payloads(pool(reports, n - 1), others, others.len() as int, payload);
        if reads(others, payload) {
            assert(reads(reports[n - 1].candidates, payload));
        }
    }
}

proof fn lemma_pooled_verified(list: Seq<Candidate>, others: Seq<Candidate>, n: int)
    requires
        0 <= n <= others.len(),
        all_verified(list),
        all_verified(others),
    ensures
        all_verified(pooled(list, others, n)),
    decreases n,
{
    if n > 0 {
        lemma_pooled_verified(list, others, n - 1);
        let before = pooled(list, others, n - 1);
        let after = pooled(list, others, n);
        let other = others[n - 1];
        let at = candidate_place(before, other.payload, before.len() as int);
        lemma_candidate_place(before, other.payload, before.len() as int);
        assert(is_verified(other));
        assert forall|i: int| 0 <= i < after.len() implies is_verified(#[trigger] after[i]) by {
            if i < before.len() {
                assert(is_verified(before[i]));
                if i == at {
                    let base = if independent_score(other) > independent_score(before[i]) {
                        other
                    } else {
                        before[i]
                    };
                    keeping_the_symbol_keeps_it_verified(base, after[i]);
                }
            }
        }
    }
}

proof fn lemma_pool_verified(reports: Seq<Report>, n: int)
    requires
        0 <= n <= reports.len(),
        forall|i: int| 0 <= i < n ==> all_verified((#[trigger] reports[i]).candidates),
    ensures
        all_verified(pool(reports, n)),
    decreases n,
{
    if n > 0 {
        lemma_pool_verified(reports, n - 1);
        let others = reports[n - 1].candidates;
        lemma_pooled_verified(pool(reports, n - 1), others, others.len() as int);
    }
}

/// Merging reports of verified candidates reports no others.
pub proof fn merging_stays_verified(reports: Seq<Report>)
    requires
        forall|i: int|
            0 <= i < reports.len() ==> all_verified((#[trigger] reports[i]).candidates),
    ensures
        all_verified(merged(reports).candidates),
{
    let n = reports.len() as int;
    lemma_pool_verified(reports, n);
    conclusions_stay_verified(pool(reports, n), offers(reports, n), false);
}

/// Whether names stand in order and none stands twice.
pub open spec fn sorted_names(list: Seq<Seq<char>>) -> bool {
    forall|i: int, j: int|
        0 <= i < j < list.len() ==> text_before(#[trigger] list[i], #[trigger] list[j])
}

proof fn lemma_with_name(list: Seq<Seq<char>>, name: Seq<char>, other: Seq<char>)
    requires
        sorted_names(list),
    ensures
        sorted_names(with_name(list, name)),
        with_name(list, name).contains(other) <==> list.contains(other) || other == name,
        with_name(list, name).len() > 0,
        with_name(list, name).last() == name || (list.len() > 0 && with_name(list, name).last()
            == list.last()),
    decreases list.len(),
{
    let next = with_name(list, name);
    if list.len() == 0 || text_before(list.last(), name) {
        let n = list.len() as int;
        assert(next[n] == name);
        assert forall|i: int, j: int| 0 <= i < j < next.len() implies text_before(
            #[trigger] next[i],
            #[trigger] next[j],
        ) by {
            if j == n && i < n - 1 {
                assert(list[n - 1] == list.last());
                lemma_text_before_transitive(list[i], list.last(), name, 0);
            }
        }
        if list.contains(other) {
            let k = list.index_of(other);
            assert(next[k] == other);
        }
        if next.contains(other) && other != name {
            let k = next.index_of(other);
            assert(list[k] == other);
        }
    } else if list.last() == name {
        assert(list[list.len() - 1] == name);
    } else {
        let rest = list.drop_last();
        let inner = with_name(rest, name);
        assert forall|i: int, j: int| 0 <= i < j < rest.len() implies text_before(
            #[trigger] rest[i],
            #[trigger] rest[j],
        ) by {
            assert(rest[i] == list[i] && rest[j] == list[j]);
        }
        lemma_with_name(rest, name, other);
        lemma_text_before_total(list.last(), name, 0);
        let n = inner.len() as int;
        assert(next[n] == list.last());
        assert(text_before(inner.last(), list.last())) by {
            if inner.last() != name {
                assert(rest.last() == list[rest.len() - 1]);
                assert(list.last() == list[list.len() - 1]);
            }
        }
        assert forall|i: int, j: int| 0 <= i < j < next.len() implies text_before(
            #[trigger] next[i],
            #[trigger] next[j],
        ) by {
            if j < n {
                assert(next[i] == inner[i] && next[j] == inner[j]);
            } else {
                assert(next[i] == inner[i]);
                if i < n - 1 {
                    assert(inner.last() == inner[n - 1]);
                    lemma_text_before_transitive(inner[i], inner.last(), list.last(), 0);
                }
            }
        }
        if list.contains(other) && other != list.last() {
            let k = list.index_of(other);
            assert(rest[k] == other);
        }
        if rest.contains(other) {
            let k = rest.index_of(other);
            assert(list[k] == other);
        }
        if inner.contains(other) {
            let k = inner.index_of(other);
            assert(next[k] == other);
        }
        if next.contains(other) && other != list.last() {
            let k = next.index_of(other);
            assert(inner[k] == other);
        }
        assert(list[list.len() - 1] == list.last());
        if other == list.last() {
            assert(next[n] == other);
        }
    }
}

proof fn lemma_with_names(list: Seq<Seq<char>>, names: Seq<Seq<char>>, n: int, other: Seq<char>)
    requires
        sorted_names(list),
        0 <= n <= names.len(),
    ensures
        sorted_names(with_names(list, names, n)),
        with_names(list, names, n).contains(other) <==> list.contains(other) || exists|i: int|
            0 <= i < n && #[trigger] names[i] == other,
    decreases n,
{
    if n > 0 {
        lemma_with_names(list, names, n - 1, other);
        lemma_with_name(with_names(list, names, n - 1), names[n - 1], other);
    }
}

/// A merged report names every frame that was discarded somewhere, in order and
/// once, and no other.
pub proof fn merging_keeps_discarded_frames(reports: Seq<Report>, n: int, name: Seq<char>)
    requires
        0 <= n <= reports.len(),
    ensures
        sorted_names(discarded(reports, n)),
        discarded(reports, n).contains(name) <==> exists|i: int|
            0 <= i < n && (#[trigger] reports[i]).discarded_frames.contains(name),
    decreases n,
{
    if n > 0 {
        merging_keeps_discarded_frames(reports, n - 1, name);
        let names = reports[n - 1].discarded_frames;
        lemma_with_names(discarded(reports, n - 1), names, names.len() as int, name);
        if names.contains(name) {
            assert(names[names.index_of(name)] == name);
            assert(reports[n - 1].discarded_frames.contains(name));
        }
    }
}

proof fn lemma_with_name_at(list: Seq<Seq<char>>, name: Seq<char>, at: int)
    requires
        0 <= at <= list.len(),
        at == 0 || text_before(list[at - 1], name),
        forall|i: int|
            at <= i < list.len() ==> !text_before(#[trigger] list[i], name) && list[i] != name,
    ensures
        with_name(list, name) == list.insert(at, name),
    decreases list.len(),
{
    if at == list.len() {
        assert(list.insert(at, name) =~= list.push(name));
    } else {
        assert(list.last() == list[list.len() - 1]);
        lemma_with_name_at(list.drop_last(), name, at);
        assert(list.insert(at, name) =~= list.drop_last().insert(at, name).push(list.last()));
    }
}

proof fn lemma_with_known_name(list: Seq<Seq<char>>, name: Seq<char>, at: int)
    requires
        0 <= at < list.len(),
        list[at] == name,
        forall|i: int|
            at < i < list.len() ==> !text_before(#[trigger] list[i], name) && list[i] != name,
    ensures
        with_name(list, name) == list,
    decreases list.len(),
{
    assert(list.last() == list[list.len() - 1]);
    if at == list.len() - 1 {
        lemma_text_before_total(name, name, 0);
    } else {
        lemma_with_known_name(list.drop_last(), name, at);
        assert(list.drop_last().push(list.last()) =~= list);
    }
}

fn note_name(names: &mut Vec<String>, name: String)
    ensures
        texts(final(names)@) == with_name(texts(old(names)@), name@),
{
    let mut at: usize = names.len();
    while at > 0
        invariant
            names@ == old(names)@,
            at <= names@.len(),
            forall|i: int|
                at <= i < names@.len() ==> !text_before(#[trigger] texts(names@)[i], name@)
                    && texts(names@)[i] != name@,
        ensures
            names@ == old(names)@,
            at <= names@.len(),
            at == 0 || text_before(texts(names@)[at - 1], name@),
            forall|i: int|
                at <= i < names@.len() ==> !text_before(#[trigger] texts(names@)[i], name@)
                    && texts(names@)[i] != name@,
        decreases at,
    {
        if comes_before_text(&names[at - 1], &name) {
            break;
        }
        if names[at - 1] == name {
            proof {
                lemma_with_known_name(texts(names@), name@, at - 1);
            }
            return;
        }
        at -= 1;
    }
    proof {
        lemma_with_name_at(texts(names@), name@, at as int);
        assert(texts(names@.insert(at as int, name)) =~= texts(names@).insert(at as int, name@));
    }
    names.insert(at, name);
}

fn note_names(names: &mut Vec<String>, others: Vec<String>)
    ensures
        texts(final(names)@) == with_names(
            texts(old(names)@),
            texts(others@),
            others@.len() as int,
        ),
{
    let ghost all = texts(others@);
    let mut others: Vec<String> = others;
    assert(texts(others@) =~= all.subrange(0, all.len() as int));
    while others.len() > 0
        invariant
            others@.len() <= all.len(),
            texts(others@) == all.subrange(all.len() - others@.len(), all.len() as int),
            texts(names@) == with_names(texts(old(names)@), all, all.len() - others@.len()),
        decreases others@.len(),
    {
        let ghost before = others@;
        let name: String = others.remove(0);
        proof {
            assert(name@ == texts(before)[0]);
            assert(texts(others@) =~= texts(before).subrange(1, before.len() as int));
            assert(texts(others@) =~= all.subrange(all.len() - others@.len(), all.len() as int));
        }
        note_name(names, name);
    }
}

proof fn lemma_combined_bounded(existing: Candidate, candidate: Candidate)
    requires
        is_bounded(existing, EVIDENCE_BOUND as int),
        is_bounded(candidate, EVIDENCE_BOUND as int),
        existing.evidence_count + candidate.evidence_count <= EVIDENCE_BOUND,
    ensures
        is_bounded(combined(existing, candidate), EVIDENCE_BOUND as int),
{
    let points = evidence_points(existing.evidence_count + candidate.evidence_count);
    let base = if independent_score(candidate) > independent_score(existing) {
        candidate
    } else {
        existing
    };
    let next = with_component(base.components, "independentEvidence"@, points);
    lemma_with_component(base.components, "independentEvidence"@, points, 0);
    lemma_set_summable(base.components, "independentEvidence"@, points);
    lemma_total_bounded(next);
}

fn own_score(candidate: &RecoveryCandidate) -> (score: i128)
    requires
        is_bounded(candidate@, EVIDENCE_BOUND as int),
    ensures
        score == independent_score(candidate@),
{
    proof {
        lemma_value_bounded(candidate@.components, "independentEvidence"@);
    }
    round_signed(candidate.score - value_of(&candidate.score_components, "independentEvidence"))
}

fn combine(existing: RecoveryCandidate, candidate: RecoveryCandidate) -> (result: RecoveryCandidate)
    requires
        is_bounded(existing@, EVIDENCE_BOUND as int),
        is_bounded(candidate@, EVIDENCE_BOUND as int),
        existing@.evidence_count + candidate@.evidence_count <= EVIDENCE_BOUND,
    ensures
        result@ == combined(existing@, candidate@),
        is_bounded(result@, EVIDENCE_BOUND as int),
{
    proof {
        lemma_combined_bounded(existing@, candidate@);
    }
    let evidence: u64 = existing.evidence_count + candidate.evidence_count;
    let mut result: RecoveryCandidate = if own_score(&candidate) > own_score(&existing) {
        candidate
    } else {
        existing
    };
    result.evidence_count = evidence;
    let points: i128 = if evidence > 1 {
        (evidence as i128 - 1) * 4 * POINT
    } else {
        0
    };
    set_component(&mut result.score_components, "independentEvidence", points);
    result.score = sum_components(&result.score_components);
    agree(&mut result.confidence);
    result
}

/// Whether every candidate of a list is within bounds.
spec fn all_bounded(list: Seq<Candidate>, limit: int) -> bool {
    forall|i: int| 0 <= i < list.len() ==> is_bounded(#[trigger] list[i], limit)
}

proof fn lemma_evidence_share(list: Seq<Candidate>, at: int, n: int)
    requires
        0 <= n <= list.len(),
        forall|i: int| 0 <= i < list.len() ==> 0 <= (#[trigger] list[i]).evidence_count,
    ensures
        0 <= total_evidence(list, n),
        0 <= at < n ==> list[at].evidence_count <= total_evidence(list, n),
    decreases n,
{
    if n > 0 {
        lemma_evidence_share(list, at, n - 1);
        assert(0 <= list[n - 1].evidence_count);
    }
}

/// Pools one candidate.
fn pool_candidate(list: &mut Vec<RecoveryCandidate>, candidate: RecoveryCandidate)
    requires
        all_bounded(candidates(old(list)@), EVIDENCE_BOUND as int),
        is_bounded(candidate@, EVIDENCE_BOUND as int),
        total_evidence(candidates(old(list)@), old(list)@.len() as int)
            + candidate@.evidence_count <= EVIDENCE_BOUND,
    ensures
        candidates(final(list)@) == with_pooled(candidates(old(list)@), candidate@),
        all_bounded(candidates(final(list)@), EVIDENCE_BOUND as int),
{
    let ghost before = candidates(list@);
    match find_candidate(list, &candidate.payload) {
        Some(at) => {
            proof {
                assert(is_bounded(before[at as int], EVIDENCE_BOUND as int));
                lemma_evidence_share(before, at as int, before.len() as int);
            }
            let existing: RecoveryCandidate = list.remove(at);
            assert(existing@ == before[at as int]);
            let result: RecoveryCandidate = combine(existing, candidate);
            list.insert(at, result);
            assert(candidates(list@) =~= before.update(at as int, result@));
        },
        None => {
            list.push(candidate);
            assert(candidates(list@) =~= before.push(candidate@));
        },
    }
}

/// Pools the candidates of one result.
fn pool_candidates(list: &mut Vec<RecoveryCandidate>, others: Vec<RecoveryCandidate>)
    requires
        all_bounded(candidates(old(list)@), EVIDENCE_BOUND as int),
        all_bounded(candidates(others@), EVIDENCE_BOUND as int),
        total_evidence(candidates(old(list)@), old(list)@.len() as int) + total_evidence(
            candidates(others@),
            others@.len() as int,
        ) <= EVIDENCE_BOUND,
    ensures
        candidates(final(list)@) == pooled(
            candidates(old(list)@),
            candidates(others@),
            others@.len() as int,
        ),
        all_bounded(candidates(final(list)@), EVIDENCE_BOUND as int),
{
    let ghost start = candidates(list@);
    let ghost all = candidates(others@);
    let mut others: Vec<RecoveryCandidate> = others;
    assert(candidates(others@) =~= all.subrange(0, all.len() as int));
    while others.len() > 0
        invariant
            others@.len() <= all.len(),
            all_bounded(all, EVIDENCE_BOUND as int),
            candidates(others@) == all.subrange(all.len() - others@.len(), all.len() as int),
            candidates(list@) == pooled(start, all, all.len() - others@.len()),
            all_bounded(candidates(list@), EVIDENCE_BOUND as int),
            total_evidence(start, start.len() as int) + total_evidence(all, all.len() as int)
                <= EVIDENCE_BOUND,
        decreases others@.len(),
    {
        let ghost before = others@;
        let ghost done = all.len() - before.len();
        let candidate: RecoveryCandidate = others.remove(0);
        proof {
            assert(candidate@ == candidates(before)[0]);
            assert(candidates(before)[0] == all[done]);
            assert(candidates(others@) =~= candidates(before).subrange(1, before.len() as int));
            assert(candidates(others@) =~= all.subrange(done + 1, all.len() as int));
            lemma_pooled_all_evidence(start, all, done);
            lemma_evidence_grows(all, done + 1, all.len() as int);
        }
        pool_candidate(list, candidate);
    }
}

proof fn lemma_evidence_grows(list: Seq<Candidate>, a: int, b: int)
    requires
        0 <= a <= b <= list.len(),
        forall|i: int| 0 <= i < list.len() ==> 0 <= (#[trigger] list[i]).evidence_count,
    ensures
        total_evidence(list, a) <= total_evidence(list, b),
    decreases b - a,
{
    if a < b {
        lemma_evidence_grows(list, a, b - 1);
        assert(0 <= list[b - 1].evidence_count);
    }
}

proof fn lemma_reported_evidence(reports: Seq<Report>, a: int, b: int)
    requires
        0 <= a <= b <= reports.len(),
        forall|i: int, j: int|
            0 <= i < reports.len() && 0 <= j < reports[i].candidates.len() ==> is_bounded(
                #[trigger] reports[i].candidates[j],
                EVIDENCE_BOUND as int,
            ),
    ensures
        reported_evidence(reports, a) <= reported_evidence(reports, b),
    decreases b - a,
{
    if a < b {
        lemma_reported_evidence(reports, a, b - 1);
        let list = reports[b - 1].candidates;
        assert forall|i: int| 0 <= i < list.len() implies 0 <= (
        #[trigger] list[i]).evidence_count by {
            assert(is_bounded(reports[b - 1].candidates[i], EVIDENCE_BOUND as int));
        }
        lemma_evidence_share(list, 0, list.len() as int);
    }
}

proof fn lemma_tally_grows(reports: Seq<Report>, a: int, b: int)
    requires
        0 <= a <= b <= reports.len(),
        forall|i: int| 0 <= i < reports.len() ==> is_tally((#[trigger] reports[i]).diagnostics),
    ensures
        tally(reports, a).examined_variants <= tally(reports, b).examined_variants,
        tally(reports, a).valid_reads <= tally(reports, b).valid_reads,
        tally(reports, a).invalid_reads <= tally(reports, b).invalid_reads,
        tally(reports, a).soft_decode_attempts <= tally(reports, b).soft_decode_attempts,
    decreases b - a,
{
    if a < b {
        lemma_tally_grows(reports, a, b - 1);
        assert(is_tally(reports[b - 1].diagnostics));
    }
}

/// Whether nothing was counted below zero.
spec fn is_tally(diagnosis: Diagnosis) -> bool {
    &&& 0 <= diagnosis.examined_variants
    &&& 0 <= diagnosis.valid_reads
    &&& 0 <= diagnosis.invalid_reads
    &&& 0 <= diagnosis.soft_decode_attempts
}

fn add_diagnostics(whole: &mut RecoveryDiagnostics, part: &RecoveryDiagnostics)
    requires
        old(whole)@.examined_variants + part@.examined_variants <= u64::MAX,
        old(whole)@.valid_reads + part@.valid_reads <= u64::MAX,
        old(whole)@.invalid_reads + part@.invalid_reads <= u64::MAX,
        old(whole)@.soft_decode_attempts + part@.soft_decode_attempts <= u64::MAX,
    ensures
        final(whole)@ == (Diagnosis {
            examined_variants: old(whole)@.examined_variants + part@.examined_variants,
            valid_reads: old(whole)@.valid_reads + part@.valid_reads,
            invalid_reads: old(whole)@.invalid_reads + part@.invalid_reads,
            soft_decode_attempts: old(whole)@.soft_decode_attempts + part@.soft_decode_attempts,
            elapsed_micros: if part@.elapsed_micros > old(whole)@.elapsed_micros {
                part@.elapsed_micros
            } else {
                old(whole)@.elapsed_micros
            },
            ..old(whole)@
        }),
{
    whole.examined_variants = whole.examined_variants + part.examined_variants;
    whole.valid_reads = whole.valid_reads + part.valid_reads;
    whole.invalid_reads = whole.invalid_reads + part.invalid_reads;
    whole.soft_decode_attempts = whole.soft_decode_attempts + part.soft_decode_attempts;
    if part.elapsed_micros > whole.elapsed_micros {
        whole.elapsed_micros = part.elapsed_micros;
    }
}

fn ran_out_of_time(reason: &Option<String>) -> (result: bool)
    ensures
        result == (text_of(*reason) == Some("time_limit"@)),
{
    match reason {
        Some(text) => *text == String::from_str("time_limit"),
        None => false,
    }
}

/// Offers the preview of a result.
fn offer_result(
    previews: &mut Vec<PreviewEntry>,
    list: &Vec<RecoveryCandidate>,
    preview: Option<PreviewImage>,
    name: Option<String>,
)
    ensures
        preview_notes(final(previews)@) == (if list@.len() > 0 && preview is Some && name is Some {
            with_preview(
                preview_notes(old(previews)@),
                PreviewNote {
                    payload: candidates(list@)[0].payload,
                    score: candidates(list@)[0].score,
                    preview: preview->Some_0@,
                    name: name->Some_0@,
                },
            )
        } else {
            preview_notes(old(previews)@)
        }),
{
    if list.len() > 0 {
        if let Some(preview) = preview {
            if let Some(name) = name {
                offer_preview(
                    previews,
                    PreviewEntry {
                        payload: copy_bytes(list[0].payload.as_slice()),
                        score: list[0].score,
                        preview,
                        name,
                    },
                );
            }
        }
    }
}

/// Merges the results of batches that worked on the same inputs.
pub fn merge_recovery_results_native(partials: Vec<RecoveryResult>) -> (result: Result<
    RecoveryResult,
    RecoveryError,
>)
    requires
        countable(reports(partials@)),
    ensures
        match merge_refusal(reports(partials@)) {
            Some(refusal) => result is Err && result->Err_0@ == refusal,
            None => result is Ok && result->Ok_0@ == merged(reports(partials@)) && countable(
                seq![result->Ok_0@],
            ),
        },
{
    let ghost all = reports(partials@);
    let ghost total = all.len() as int;
    if partials.len() == 0 {
        return Err(RecoveryError::NoBatchResult);
    }
    let inputs: u64 = partials[0].diagnostics.input_count;
    let mut i: usize = 0;
    while i < partials.len()
        invariant
            i <= partials@.len(),
            partials@.len() > 0,
            all == reports(partials@),
            inputs == all[0].diagnostics.input_count,
            forall|k: int|
                0 <= k < i ==> (#[trigger] all[k]).diagnostics.input_count
                    == all[0].diagnostics.input_count,
        decreases partials@.len() - i,
    {
        if partials[i].diagnostics.input_count != inputs {
            assert(all[i as int].diagnostics.input_count != all[0].diagnostics.input_count);
            return Err(RecoveryError::InputCounts);
        }
        i += 1;
    }
    let mut list: Vec<RecoveryCandidate> = Vec::new();
    let mut previews: Vec<PreviewEntry> = Vec::new();
    let mut names: Vec<String> = Vec::new();
    let mut time_limited: bool = false;
    let mut diagnostics: RecoveryDiagnostics = RecoveryDiagnostics {
        examined_variants: 0,
        valid_reads: 0,
        invalid_reads: 0,
        soft_decode_attempts: 0,
        elapsed_micros: 0,
        input_count: inputs,
        runtime: String::from_str(RUNTIME),
    };
    let mut rest: Vec<RecoveryResult> = partials;
    proof {
        assert(candidates(list@) =~= Seq::<Candidate>::empty());
        assert(preview_notes(previews@) =~= Seq::<PreviewNote>::empty());
        assert(texts(names@) =~= Seq::<Seq<char>>::empty());
        assert(reports(rest@) =~= all.subrange(0, total));
        assert forall|k: int| 0 <= k < all.len() implies is_tally(
            (#[trigger] all[k]).diagnostics,
        ) by {}
    }
    while rest.len() > 0
        invariant
            total == all.len(),
            countable(all),
            forall|k: int| 0 <= k < all.len() ==> is_tally((#[trigger] all[k]).diagnostics),
            rest@.len() <= total,
            reports(rest@) == all.subrange(total - rest@.len(), total),
            candidates(list@) == pool(all, total - rest@.len()),
            all_bounded(candidates(list@), EVIDENCE_BOUND as int),
            preview_notes(previews@) == offers(all, total - rest@.len()),
            texts(names@) == discarded(all, total - rest@.len()),
            diagnostics@ == tally(all, total - rest@.len()),
            time_limited == out_of_time(all, total - rest@.len()),
        decreases rest@.len(),
    {
        let ghost before = rest@;
        let ghost done = total - before.len();
        let ghost was_limited = time_limited;
        let partial: RecoveryResult = rest.remove(0);
        proof {
            assert(partial@ == reports(before)[0]);
            assert(reports(before)[0] == all[done]);
            assert(reports(rest@) =~= reports(before).subrange(1, before.len() as int));
            assert(reports(rest@) =~= all.subrange(done + 1, total));
            lemma_tally_grows(all, done + 1, total);
            merging_keeps_evidence(all, done);
            lemma_reported_evidence(all, done + 1, total);
            assert forall|j: int| 0 <= j < all[done].candidates.len() implies is_bounded(
                #[trigger] candidates(partial.candidates@)[j],
                EVIDENCE_BOUND as int,
            ) by {
                assert(is_bounded(all[done].candidates[j], EVIDENCE_BOUND as int));
            }
        }
        add_diagnostics(&mut diagnostics, &partial.diagnostics);
        if ran_out_of_time(&partial.termination_reason) {
            time_limited = true;
            assert(all[done].termination_reason == Some("time_limit"@));
        }
        proof {
            if out_of_time(all, done + 1) && !(all[done].termination_reason == Some(
                "time_limit"@,
            )) {
                let k = choose|k: int|
                    0 <= k < done + 1 && (#[trigger] all[k]).termination_reason == Some(
                        "time_limit"@,
                    );
                assert(out_of_time(all, done)) by {
                    assert(0 <= k < done);
                }
            }
        }
        note_names(&mut names, partial.discarded_frames);
        offer_result(
            &mut previews,
            &partial.candidates,
            partial.best_variant,
            partial.best_variant_name,
        );
        pool_candidates(&mut list, partial.candidates);
    }
    proof {
        merging_keeps_evidence(all, total);
        lemma_merged_countable(all);
    }
    let settled: Settlement = conclude(list, previews, false);
    let (best_variant, best_variant_name): (Option<PreviewImage>, Option<String>) =
        match settled.best {
        Some((preview, name)) => (Some(preview), Some(name)),
        None => (None, None),
    };
    let result: RecoveryResult = RecoveryResult {
        status: settled.status,
        candidates: settled.candidates,
        diagnostics,
        discarded_frames: names,
        termination_reason: if time_limited {
            Some(String::from_str("time_limit"))
        } else {
            None
        },
        best_variant,
        best_variant_name,
    };
    Ok(result)
}

/// The evidence for one payload among the first `n` candidates.
pub open spec fn evidence_for(list: Seq<Candidate>, payload: Seq<u8>, n: int) -> int
    decreases n,
{
    if n <= 0 {
        0
    } else {
        evidence_for(list, payload, n - 1) + (if list[n - 1].payload == payload {
            list[n - 1].evidence_count
        } else {
            0
        })
    }
}

/// The evidence for one payload in the first `n` reports.
pub open spec fn reported_for(reports: Seq<Report>, payload: Seq<u8>, n: int) -> int
    decreases n,
{
    if n <= 0 {
        0
    } else {
        let list = reports[n - 1].candidates;
        reported_for(reports, payload, n - 1) + evidence_for(list, payload, list.len() as int)
    }
}

proof fn lemma_evidence_for_prefix(
    a: Seq<Candidate>,
    b: Seq<Candidate>,
    payload: Seq<u8>,
    n: int,
)
    requires
        0 <= n <= a.len(),
        n <= b.len(),
        forall|i: int| 0 <= i < n ==> a[i] == b[i],
    ensures
        evidence_for(a, payload, n) == evidence_for(b, payload, n),
    decreases n,
{
    if n > 0 {
        lemma_evidence_for_prefix(a, b, payload, n - 1);
    }
}

proof fn lemma_evidence_for_update(
    list: Seq<Candidate>,
    at: int,
    candidate: Candidate,
    payload: Seq<u8>,
    n: int,
)
    requires
        0 <= at < n <= list.len(),
        list[at].payload == candidate.payload,
    ensures
        evidence_for(list.update(at, candidate), payload, n) == evidence_for(list, payload, n) + (
        if candidate.payload == payload {
            candidate.evidence_count - list[at].evidence_count
        } else {
            0
        }),
    decreases n,
{
    let next = list.update(at, candidate);
    if at == n - 1 {
        lemma_evidence_for_prefix(list, next, payload, n - 1);
    } else {
        lemma_evidence_for_update(list, at, candidate, payload, n - 1);
        assert(next[n - 1] == list[n - 1]);
    }
}

proof fn lemma_pooled_for(
    list: Seq<Candidate>,
    others: Seq<Candidate>,
    payload: Seq<u8>,
    n: int,
)
    requires
        0 <= n <= others.len(),
    ensures
        evidence_for(pooled(list, others, n), payload, pooled(list, others, n).len() as int)
            == evidence_for(list, payload, list.len() as int) + evidence_for(others, payload, n),
    decreases n,
{
    if n > 0 {
        lemma_pooled_for(list, others, payload, n - 1);
        let before = pooled(list, others, n - 1);
        let other = others[n - 1];
        let m = before.len() as int;
        let at = candidate_place(before, other.payload, m);
        lemma_candidate_place(before, other.payload, m);
        if at < 0 {
            lemma_evidence_for_prefix(before, before.push(other), payload, m);
        } else {
            lemma_evidence_for_update(before, at, combined(before[at], other), payload, m);
        }
    }
}

proof fn lemma_pool_for(reports: Seq<Report>, payload: Seq<u8>, n: int)
    requires
        0 <= n <= reports.len(),
    ensures
        evidence_for(pool(reports, n), payload, pool(reports, n).len() as int) == reported_for(
            reports,
            payload,
            n,
        ),
    decreases n,
{
    if n > 0 {
        lemma_pool_for(reports, payload, n - 1);
        let others = reports[n - 1].candidates;
        lemma_pooled_for(pool(reports, n - 1), others, payload, others.len() as int);
    }
}

proof fn lemma_evidence_of_one(list: Seq<Candidate>, at: int, n: int)
    requires
        distinct_payloads(list),
        0 <= n <= list.len(),
        0 <= at < list.len(),
    ensures
        evidence_for(list, list[at].payload, n) == (if at < n {
            list[at].evidence_count
        } else {
            0
        }),
    decreases n,
{
    if n > 0 {
        lemma_evidence_of_one(list, at, n - 1);
        if n - 1 != at {
            assert(list[n - 1].payload != list[at].payload);
        }
    }
}

/// The evidence for a merged candidate is what all reports have for its payload.
pub proof fn merging_adds_up_evidence(reports: Seq<Report>, i: int)
    requires
        0 <= i < merged(reports).candidates.len(),
    ensures
        merged(reports).candidates[i].evidence_count == reported_for(
            reports,
            merged(reports).candidates[i].payload,
            reports.len() as int,
        ),
{
    let n = reports.len() as int;
    let list = pool(reports, n);
    let found = merged(reports).candidates[i];
    conclusions_are_ordered(list, offers(reports, n), false);
    assert(is_one_of(found, list));
    let k = choose|k: int| 0 <= k < list.len() && same_but_confidence(found, #[trigger] list[k]);
    merging_keeps_payloads(reports, n, found.payload);
    lemma_pool_for(reports, found.payload, n);
    lemma_evidence_of_one(list, k, list.len() as int);
}

proof fn lemma_led(list: Seq<Candidate>, candidate: Candidate, payload: Seq<u8>)
    ensures
        with_led(list, candidate).len() == list.len() + 1,
        reads(with_led(list, candidate), payload) <==> reads(list, payload) || candidate.payload
            == payload,
        total_evidence(with_led(list, candidate), (list.len() + 1) as int) == total_evidence(
            list,
            list.len() as int,
        ) + candidate.evidence_count,
    decreases list.len(),
{
    let next = with_led(list, candidate);
    let n = list.len() as int;
    if n == 0 || !leads(candidate, list.last()) {
        lemma_evidence_prefix(list, next, n);
        if reads(list, payload) {
            let k = choose|k: int| 0 <= k < n && (#[trigger] list[k]).payload == payload;
            assert(next[k].payload == payload);
        }
        if candidate.payload == payload {
            assert(next[n].payload == payload);
        }
        if reads(next, payload) {
            let k = choose|k: int| 0 <= k < n + 1 && (#[trigger] next[k]).payload == payload;
            if k < n {
                assert(list[k].payload == payload);
            }
        }
    } else {
        let rest = list.drop_last();
        lemma_led(rest, candidate, payload);
        let inner = with_led(rest, candidate);
        lemma_evidence_prefix(inner, next, n);
        lemma_evidence_prefix(rest, list, n - 1);
        if reads(list, payload) {
            let k = choose|k: int| 0 <= k < n && (#[trigger] list[k]).payload == payload;
            if k < n - 1 {
                assert(rest[k].payload == payload);
            } else {
                assert(next[n].payload == payload);
            }
        }
        if reads(inner, payload) {
            let k = choose|k: int| 0 <= k < n && (#[trigger] inner[k]).payload == payload;
            assert(next[k].payload == payload);
        }
        if reads(next, payload) {
            let k = choose|k: int| 0 <= k < n + 1 && (#[trigger] next[k]).payload == payload;
            if k < n {
                assert(inner[k].payload == payload);
            } else {
                assert(list[n - 1].payload == payload);
            }
        }
        if reads(rest, payload) {
            let k = choose|k: int| 0 <= k < n - 1 && (#[trigger] rest[k]).payload == payload;
            assert(list[k].payload == payload);
        }
    }
}

proof fn lemma_led_distinct(list: Seq<Candidate>, candidate: Candidate)
    requires
        distinct_payloads(list),
        !reads(list, candidate.payload),
    ensures
        distinct_payloads(with_led(list, candidate)),
    decreases list.len(),
{
    let next = with_led(list, candidate);
    let n = list.len() as int;
    if n == 0 || !leads(candidate, list.last()) {
        assert forall|i: int, j: int| 0 <= i < j < next.len() implies (#[trigger] next[i]).payload
            != (#[trigger] next[j]).payload by {
            if j < n {
                assert(list[i].payload != list[j].payload);
            } else {
                assert(list[i].payload != candidate.payload);
            }
        }
    } else {
        let rest = list.drop_last();
        let last = list[n - 1];
        assert forall|i: int, j: int| 0 <= i < j < rest.len() implies (#[trigger] rest[i]).payload
            != (#[trigger] rest[j]).payload by {
            assert(list[i].payload != list[j].payload);
        }
        if reads(rest, candidate.payload) {
            let k = choose|k: int|
                0 <= k < n - 1 && (#[trigger] rest[k]).payload == candidate.payload;
            assert(list[k].payload == candidate.payload);
        }
        lemma_led_distinct(rest, candidate);
        lemma_led(rest, candidate, last.payload);
        assert(!reads(rest, last.payload)) by {
            if reads(rest, last.payload) {
                let k = choose|k: int|
                    0 <= k < n - 1 && (#[trigger] rest[k]).payload == last.payload;
                assert(list[k].payload != list[n - 1].payload);
            }
        }
        assert(last.payload != candidate.payload);
        let inner = with_led(rest, candidate);
        assert forall|i: int, j: int| 0 <= i < j < next.len() implies (#[trigger] next[i]).payload
            != (#[trigger] next[j]).payload by {
            assert(next[i] == inner[i]);
            if j < n {
                assert(next[j] == inner[j]);
            } else if inner[i].payload == last.payload {
                assert(reads(inner, last.payload));
            }
        }
    }
}

proof fn lemma_ordered_keeps(list: Seq<Candidate>, n: int)
    requires
        distinct_payloads(list),
        0 <= n <= list.len(),
    ensures
        distinct_payloads(ordered(list, n)),
        ordered(list, n).len() == n,
        total_evidence(ordered(list, n), n) == total_evidence(list, n),
        forall|payload: Seq<u8>| #[trigger] reads(ordered(list, n), payload) ==> exists|k: int|
            0 <= k < n && (#[trigger] list[k]).payload == payload,
    decreases n,
{
    if n > 0 {
        lemma_ordered_keeps(list, n - 1);
        let before = ordered(list, n - 1);
        let candidate = list[n - 1];
        if reads(before, candidate.payload) {
            let k = choose|k: int|
                0 <= k < n - 1 && (#[trigger] list[k]).payload == candidate.payload;
            assert(list[k].payload != list[n - 1].payload);
        }
        lemma_led_distinct(before, candidate);
        lemma_led(before, candidate, candidate.payload);
        assert forall|payload: Seq<u8>| #[trigger] reads(ordered(list, n), payload) implies exists|
            k: int,
        |
            0 <= k < n && (#[trigger] list[k]).payload == payload by {
            lemma_led(before, candidate, payload);
            if candidate.payload == payload {
                assert(list[n - 1].payload == payload);
            } else {
                let k = choose|k: int|
                    0 <= k < n - 1 && (#[trigger] list[k]).payload == payload;
                assert(list[k].payload == payload);
            }
        }
    }
}

/// What is in order is not put into another one.
proof fn lemma_ordered_stays(list: Seq<Candidate>, n: int)
    requires
        is_ordered(list),
        0 <= n <= list.len(),
    ensures
        ordered(list, n) == list.take(n),
    decreases n,
{
    if n > 0 {
        lemma_ordered_stays(list, n - 1);
        let before = list.take(n - 1);
        if n > 1 {
            assert(before.last() == list[n - 2]);
            assert(!leads(list[n - 1], list[n - 2]));
        }
        assert(list.take(n) =~= before.push(list[n - 1]));
    } else {
        assert(list.take(0) =~= Seq::<Candidate>::empty());
    }
}

/// Pooling distinct payloads changes nothing.
proof fn lemma_pooled_stays(list: Seq<Candidate>, n: int)
    requires
        distinct_payloads(list),
        0 <= n <= list.len(),
    ensures
        pooled(Seq::empty(), list, n) == list.take(n),
    decreases n,
{
    if n > 0 {
        lemma_pooled_stays(list, n - 1);
        let before = list.take(n - 1);
        let payload = list[n - 1].payload;
        lemma_candidate_place(before, payload, n - 1);
        let at = candidate_place(before, payload, n - 1);
        if at >= 0 {
            assert(before[at] == list[at]);
            assert(list[at].payload != list[n - 1].payload);
        }
        assert(list.take(n) =~= before.push(list[n - 1]));
    } else {
        assert(list.take(0) =~= Seq::<Candidate>::empty());
    }
}

proof fn lemma_names_stay(names: Seq<Seq<char>>, n: int)
    requires
        sorted_names(names),
        0 <= n <= names.len(),
    ensures
        with_names(Seq::empty(), names, n) == names.take(n),
    decreases n,
{
    if n > 0 {
        lemma_names_stay(names, n - 1);
        let before = names.take(n - 1);
        if n > 1 {
            assert(before.last() == names[n - 2]);
            assert(text_before(names[n - 2], names[n - 1]));
        }
        assert(names.take(n) =~= before.push(names[n - 1]));
    } else {
        assert(names.take(0) =~= Seq::<Seq<char>>::empty());
    }
}

proof fn lemma_tally_time(reports: Seq<Report>, n: int)
    requires
        0 <= n <= reports.len(),
    ensures
        tally(reports, n).elapsed_micros >= 0,
        tally(reports, n).runtime == RUNTIME@,
    decreases n,
{
    if n > 0 {
        lemma_tally_time(reports, n - 1);
    }
}

proof fn lemma_concluded_again(list: Seq<Candidate>, previews: Seq<PreviewNote>)
    requires
        distinct_payloads(list),
    ensures
        ({
            let first = concluded(list, previews, false);
            let again = first.candidates;
            &&& distinct_payloads(again)
            &&& ordered(again, again.len() as int) == again
            &&& settled_status(again, false) == first.status
            &&& first.best is Some ==> again.len() > 0
            &&& forall|i: int|
                0 <= i < again.len() ==> judged(#[trigger] again[i], first.status) == again[i]
        }),
{
    let n = list.len() as int;
    let sorted = ordered(list, n);
    let first = concluded(list, previews, false);
    let again = first.candidates;
    lemma_ordered_keeps(list, n);
    conclusions_are_ordered(list, previews, false);
    lemma_ordered_stays(again, again.len() as int);
    assert(again.take(again.len() as int) =~= again);
    assert forall|i: int, j: int| 0 <= i < j < again.len() implies (#[trigger] again[i]).payload
        != (#[trigger] again[j]).payload by {
        assert(sorted[i].payload != sorted[j].payload);
    }
    assert forall|i: int| 0 <= i < again.len() implies (#[trigger] again[i]).score
        == sorted[i].score && again[i].source == sorted[i].source && again[i].evidence_count
        == sorted[i].evidence_count by {}
}

/// Merging what was merged changes nothing.
pub proof fn merging_again_changes_nothing(reports: Seq<Report>)
    requires
        reports.len() > 0,
    ensures
        merge_refusal(seq![merged(reports)]) is None,
        merged(seq![merged(reports)]) == merged(reports),
{
    let n = reports.len() as int;
    let m = merged(reports);
    let one = seq![m];
    let list = pool(reports, n);
    let previews = offers(reports, n);
    let first = concluded(list, previews, false);
    merging_keeps_payloads(reports, n, Seq::empty());
    merging_keeps_discarded_frames(reports, n, Seq::empty());
    lemma_tally_time(reports, n);
    lemma_concluded_again(list, previews);
    lemma_pooled_stays(m.candidates, m.candidates.len() as int);
    lemma_names_stay(m.discarded_frames, m.discarded_frames.len() as int);
    assert(m.candidates.take(m.candidates.len() as int) =~= m.candidates);
    assert(m.discarded_frames.take(m.discarded_frames.len() as int) =~= m.discarded_frames);
    assert(pool(one, 0) =~= Seq::<Candidate>::empty());
    assert(pool(one, 1) == m.candidates);
    assert(discarded(one, 0) =~= Seq::<Seq<char>>::empty());
    assert(discarded(one, 1) == m.discarded_frames);
    assert(tally(one, 0).elapsed_micros == 0);
    assert(tally(one, 1) == m.diagnostics);
    assert(offers(one, 0) =~= Seq::<PreviewNote>::empty());
    let second = concluded(m.candidates, offers(one, 1), false);
    assert(second.status == first.status);
    assert(second.candidates =~= m.candidates);
    if first.best is Some {
        let note = PreviewNote {
            payload: m.candidates[0].payload,
            score: m.candidates[0].score,
            preview: m.best_variant->Some_0,
            name: m.best_variant_name->Some_0,
        };
        assert(preview_place(Seq::<PreviewNote>::empty(), note.payload, 0) == -1);
        assert(offers(one, 1) =~= seq![note]);
        assert(preview_place(seq![note], note.payload, 1) == 0);
        assert(second.best == first.best);
    } else {
        assert(offers(one, 1) =~= Seq::<PreviewNote>::empty());
        assert(second.best is None);
    }
    assert(out_of_time(one, 1) == (one[0].termination_reason == Some("time_limit"@)));
    assert(merged(one) == m);
}

proof fn lemma_merged_countable(reports: Seq<Report>)
    requires
        countable(reports),
        all_bounded(pool(reports, reports.len() as int), EVIDENCE_BOUND as int),
    ensures
        countable(seq![merged(reports)]),
{
    let n = reports.len() as int;
    let m = merged(reports);
    let one = seq![m];
    let list = pool(reports, n);
    let previews = offers(reports, n);
    let sorted = ordered(list, list.len() as int);
    let again = m.candidates;
    let k = again.len() as int;
    merging_keeps_evidence(reports, n);
    merging_keeps_payloads(reports, n, Seq::empty());
    lemma_ordered_keeps(list, list.len() as int);
    ordering_is_sorted(list, list.len() as int);
    assert forall|i: int| 0 <= i < sorted.len() implies is_bounded(
        #[trigger] sorted[i],
        EVIDENCE_BOUND as int,
    ) by {
        assert(list.contains(sorted[i]));
        let at = list.index_of(sorted[i]);
        assert(list[at] == sorted[i]);
    }
    assert forall|i: int| 0 <= i < k implies is_bounded(
        #[trigger] again[i],
        EVIDENCE_BOUND as int,
    ) && again[i].evidence_count == sorted[i].evidence_count by {
        assert(is_bounded(sorted[i], EVIDENCE_BOUND as int));
    }
    lemma_evidence_grows(sorted, k, sorted.len() as int);
    lemma_same_evidence(again, sorted, k);
    assert(reported_evidence(one, 0) == 0);
    assert(reported_evidence(one, 1) == total_evidence(again, k));
    assert(tally(one, 0).examined_variants == 0);
    assert forall|i: int, j: int| 0 <= i < one.len() && 0 <= j < one[i].candidates.len() implies
        is_bounded(#[trigger] one[i].candidates[j], EVIDENCE_BOUND as int) by {
        assert(is_bounded(again[j], EVIDENCE_BOUND as int));
    }
}

proof fn lemma_same_evidence(a: Seq<Candidate>, b: Seq<Candidate>, n: int)
    requires
        0 <= n <= a.len(),
        n <= b.len(),
        forall|i: int| 0 <= i < n ==> (#[trigger] a[i]).evidence_count == b[i].evidence_count,
    ensures
        total_evidence(a, n) == total_evidence(b, n),
    decreases n,
{
    if n > 0 {
        lemma_same_evidence(a, b, n - 1);
    }
}

} // verus!
