//! What is concluded from the candidates of a search, and how a search counts
//! what it reads.

use vstd::prelude::*;

use crate::effort::{candidate_attempts, chase_bits, default_micros, variant_limit, Effort};
use crate::merge::{lemma_candidate_place, merged, offered, offers, pool};
use crate::merge_laws::{keeps, setting_a_component_keeps_the_others};
use crate::reading::{by_payload, read_again, surer, with_reading, Decoded};
use crate::recovery_result::{
    candidate_place, component_value, concluded, is_deformed, lead, leads, lemma_rounded_lead,
    ordered, ordering_is_sorted, preview_place, same_but_confidence, settled_status, total_score,
    with_component, with_led, with_preview, Candidate, Preview, PreviewNote, RecoveryStatus, Report,
    POINT,
};
use crate::rounding::rounded_signed;
use crate::session::{
    all_hit, all_sighted, fused, hit_place, hits_of, may_end, noted, recorded, seen_again, with_hit,
    Hits, Session, Sighting, TerminationReason,
};

verus! {

/// Nothing read is unrecoverable. What contradicts itself is ambiguous. A single
/// candidate is decoded, and so is one that leads by twelve points; one that leads
/// by less than ten is not. Between, a deformed reading is decoded if at least four
/// variants speak for it and two more than for the runner-up. Leads are compared in
/// double precision, which rounds up what is a hair below.
pub proof fn clear_leads_decide(list: Seq<Candidate>, conflicting: bool)
    ensures
        list.len() == 0 <==> settled_status(list, conflicting) == RecoveryStatus::Unrecoverable,
        list.len() >= 1 && conflicting ==> settled_status(list, conflicting)
            == RecoveryStatus::Ambiguous,
        list.len() == 1 && !conflicting ==> settled_status(list, conflicting)
            == RecoveryStatus::Decoded,
        list.len() >= 2 && !conflicting ==> {
            let ahead = list[0].score - list[1].score;
            let decoded = settled_status(list, conflicting) == RecoveryStatus::Decoded;
            &&& decoded || settled_status(list, conflicting) == RecoveryStatus::Ambiguous
            &&& ahead >= 12 * POINT ==> decoded
            &&& ahead < 10 * POINT - 4 ==> !decoded
            &&& 10 * POINT <= ahead < 12 * POINT - 4 ==> (decoded <==> is_deformed(list[0])
                && list[0].evidence_count >= 4 && list[0].evidence_count - list[1].evidence_count
                >= 2)
        },
{
    if list.len() >= 2 {
        lemma_rounded_lead(list[0].score - list[1].score);
    }
}

proof fn lemma_led_holds(list: Seq<Candidate>, candidate: Candidate, other: Candidate)
    requires
        other == candidate || list.contains(other),
    ensures
        with_led(list, candidate).contains(other),
    decreases list.len(),
{
    let next = with_led(list, candidate);
    if next == list.push(candidate) {
        if other == candidate {
            assert(next[list.len() as int] == other);
        } else {
            let i = choose|i: int| 0 <= i < list.len() && list[i] == other;
            assert(next[i] == other);
        }
    } else {
        let rest = list.drop_last();
        let part = with_led(rest, candidate);
        if other != candidate {
            let i = choose|i: int| 0 <= i < list.len() && list[i] == other;
            if i < rest.len() {
                assert(rest[i] == other);
            }
        }
        if other == candidate || rest.contains(other) {
            lemma_led_holds(rest, candidate, other);
            let i = choose|i: int| 0 <= i < part.len() && part[i] == other;
            assert(next[i] == other);
        } else {
            assert(next[next.len() - 1] == other);
        }
    }
}

proof fn lemma_ordered_holds(list: Seq<Candidate>, n: int, i: int)
    requires
        0 <= i < n <= list.len(),
    ensures
        ordered(list, n).contains(list[i]),
    decreases n,
{
    if i < n - 1 {
        lemma_ordered_holds(list, n - 1, i);
    }
    lemma_led_holds(ordered(list, n - 1), list[n - 1], list[i]);
}

/// A conclusion leaves no better candidate out: every candidate is shown, or ten
/// are shown of which none scores less.
pub proof fn the_best_candidates_are_shown(
    list: Seq<Candidate>,
    previews: Seq<PreviewNote>,
    conflicting: bool,
    k: int,
)
    requires
        0 <= k < list.len(),
    ensures
        ({
            let shown = concluded(list, previews, conflicting).candidates;
            ||| exists|i: int|
                0 <= i < shown.len() && same_but_confidence(#[trigger] shown[i], list[k])
            ||| shown.len() == 10 && forall|i: int|
                0 <= i < 10 ==> (#[trigger] shown[i]).score >= list[k].score
        }),
{
    let n = list.len() as int;
    ordering_is_sorted(list, n);
    lemma_ordered_holds(list, n, k);
    let sorted = ordered(list, n);
    let shown = concluded(list, previews, conflicting).candidates;
    let at = choose|at: int| 0 <= at < sorted.len() && sorted[at] == list[k];
    if at < shown.len() {
        assert(same_but_confidence(shown[at], list[k]));
    } else {
        assert forall|i: int| 0 <= i < 10 implies (#[trigger] shown[i]).score >= list[k].score by {
            assert(!leads(sorted[at], sorted[i]));
        }
    }
}

proof fn lemma_preview_place(list: Seq<PreviewNote>, payload: Seq<u8>, n: int)
    requires
        0 <= n <= list.len(),
    ensures
        -1 <= preview_place(list, payload, n) < n || preview_place(list, payload, n) == -1,
        preview_place(list, payload, n) >= 0 ==> list[preview_place(list, payload, n)].payload
            == payload,
        preview_place(list, payload, n) < 0 ==> forall|i: int|
            0 <= i < n ==> (#[trigger] list[i]).payload != payload,
    decreases n,
{
    if n > 0 {
        lemma_preview_place(list, payload, n - 1);
    }
}

/// Whether a note is at least as good a preview of a payload as another.
pub open spec fn has_preview(list: Seq<PreviewNote>, payload: Seq<u8>, score: int) -> bool {
    exists|i: int|
        0 <= i < list.len() && (#[trigger] list[i]).payload == payload && list[i].score >= score
}

/// Whether no payload has two previews.
pub open spec fn one_preview_each(list: Seq<PreviewNote>) -> bool {
    forall|i: int, j: int|
        0 <= i < j < list.len() ==> (#[trigger] list[i]).payload != (#[trigger] list[j]).payload
}

/// Offering a preview keeps it, or one of the payload with a score that is not
/// lower, and loses no other. Nothing comes in that was not offered.
pub proof fn better_previews_stay(
    list: Seq<PreviewNote>,
    note: PreviewNote,
    payload: Seq<u8>,
    score: int,
)
    requires
        one_preview_each(list),
    ensures
        one_preview_each(with_preview(list, note)),
        has_preview(with_preview(list, note), note.payload, note.score),
        has_preview(list, payload, score) ==> has_preview(with_preview(list, note), payload, score),
        forall|i: int|
            0 <= i < with_preview(list, note).len() ==> #[trigger] with_preview(list, note)[i]
                == note || list.contains(with_preview(list, note)[i]),
{
    let next = with_preview(list, note);
    let at = preview_place(list, note.payload, list.len() as int);
    lemma_preview_place(list, note.payload, list.len() as int);
    if at < 0 {
        assert(next[list.len() as int] == note);
    } else if note.score > list[at].score {
        assert(next[at] == note);
    } else {
        assert(next[at].payload == note.payload);
    }
    if has_preview(list, payload, score) {
        let i = choose|i: int|
            0 <= i < list.len() && (#[trigger] list[i]).payload == payload && list[i].score
                >= score;
        assert(next[i].payload == payload && next[i].score >= score);
    }
    assert forall|i: int| 0 <= i < next.len() implies #[trigger] next[i] == note || list.contains(
        next[i],
    ) by {
        if i < list.len() {
            assert(next[i] == note || next[i] == list[i]);
        }
    }
    assert forall|i: int, j: int| 0 <= i < j < next.len() implies (#[trigger] next[i]).payload != (
    #[trigger] next[j]).payload by {
        if i < list.len() {
            assert(next[i].payload == list[i].payload);
        }
        if j < list.len() {
            assert(next[j].payload == list[j].payload);
        }
    }
}

/// Whether a report offers a preview with its first candidate.
pub open spec fn offers_preview(report: Report) -> bool {
    report.candidates.len() > 0 && report.best_variant is Some && report.best_variant_name is Some
}

proof fn lemma_offers(reports: Seq<Report>, n: int, k: int)
    requires
        0 <= n <= reports.len(),
    ensures
        one_preview_each(offers(reports, n)),
        0 <= k < n && offers_preview(reports[k]) ==> has_preview(
            offers(reports, n),
            reports[k].candidates[0].payload,
            reports[k].candidates[0].score,
        ),
        forall|i: int|
            0 <= i < offers(reports, n).len() ==> is_offered(
                #[trigger] offers(reports, n)[i],
                reports,
                n,
            ),
    decreases n,
{
    if n > 0 {
        lemma_offers(reports, n - 1, k);
        let before = offers(reports, n - 1);
        let report = reports[n - 1];
        let next = offers(reports, n);
        if offers_preview(report) {
            let note = PreviewNote {
                payload: report.candidates[0].payload,
                score: report.candidates[0].score,
                preview: report.best_variant->Some_0,
                name: report.best_variant_name->Some_0,
            };
            if 0 <= k < n - 1 && offers_preview(reports[k]) {
                better_previews_stay(
                    before,
                    note,
                    reports[k].candidates[0].payload,
                    reports[k].candidates[0].score,
                );
            } else {
                better_previews_stay(before, note, note.payload, note.score);
            }
            assert forall|i: int| 0 <= i < next.len() implies is_offered(
                #[trigger] next[i],
                reports,
                n,
            ) by {
                if next[i] == note {
                    assert(shows_note(reports[n - 1], note));
                } else {
                    let j = before.index_of(next[i]);
                    assert(before[j] == next[i]);
                    assert(is_offered(before[j], reports, n - 1));
                    let r = choose|r: int|
                        0 <= r < n - 1 && shows_note(#[trigger] reports[r], before[j]);
                    assert(shows_note(reports[r], next[i]));
                }
            }
        } else {
            assert(next == before);
            assert forall|i: int| 0 <= i < next.len() implies is_offered(
                #[trigger] next[i],
                reports,
                n,
            ) by {
                assert(is_offered(before[i], reports, n - 1));
                let r = choose|r: int|
                    0 <= r < n - 1 && shows_note(#[trigger] reports[r], before[i]);
                assert(shows_note(reports[r], next[i]));
            }
        }
    }
}

/// Whether a note is the preview of a report's first candidate.
pub open spec fn shows_note(report: Report, note: PreviewNote) -> bool {
    &&& offers_preview(report)
    &&& note.payload == report.candidates[0].payload
    &&& note.score == report.candidates[0].score
    &&& report.best_variant == Some(note.preview)
    &&& report.best_variant_name == Some(note.name)
}

/// Whether a note is the preview of one of the first `n` reports.
pub open spec fn is_offered(note: PreviewNote, reports: Seq<Report>, n: int) -> bool {
    exists|r: int| 0 <= r < n && shows_note(#[trigger] reports[r], note)
}

/// The preview of a merged report shows its first candidate: of the reports that
/// lead with that payload and have a preview, it is that of one whose score is not
/// below that of any other.
pub proof fn merged_previews_show_the_first(reports: Seq<Report>, k: int)
    requires
        0 <= k < reports.len(),
        offers_preview(reports[k]),
        merged(reports).candidates.len() > 0,
        reports[k].candidates[0].payload == merged(reports).candidates[0].payload,
    ensures
        exists|r: int| #[trigger]
            is_shown_by(merged(reports), reports, r) && reports[r].candidates[0].score
                >= reports[k].candidates[0].score,
{
    let n = reports.len() as int;
    let previews = offers(reports, n);
    lemma_offers(reports, n, k);
    let list = pool(reports, n);
    ordering_is_sorted(list, list.len() as int);
    let first = ordered(list, list.len() as int)[0];
    let payload = first.payload;
    assert(merged(reports).candidates[0].payload == payload);
    lemma_preview_place(previews, payload, previews.len() as int);
    let at = preview_place(previews, payload, previews.len() as int);
    let i = choose|i: int|
        0 <= i < previews.len() && (#[trigger] previews[i]).payload == payload && previews[i].score
            >= reports[k].candidates[0].score;
    assert(at >= 0);
    if i < at {
        assert(previews[i].payload != previews[at].payload);
    } else if at < i {
        assert(previews[at].payload != previews[i].payload);
    }
    assert(is_offered(previews[at], reports, n));
    let r = choose|r: int| 0 <= r < n && shows_note(#[trigger] reports[r], previews[at]);
    assert(is_shown_by(merged(reports), reports, r));
}

/// Whether the preview of a report is that of another one that leads with the same
/// payload.
pub open spec fn is_shown_by(whole: Report, reports: Seq<Report>, r: int) -> bool {
    &&& 0 <= r < reports.len()
    &&& offers_preview(reports[r])
    &&& reports[r].candidates[0].payload == whole.candidates[0].payload
    &&& whole.best_variant == reports[r].best_variant
    &&& whole.best_variant_name == reports[r].best_variant_name
}

/// Reading a payload again in another variant counts one read more, raises the
/// better of the two scores by four points, counts four points for each read, and
/// keeps the rest of the first reading. Agreement makes a medium confidence high.
pub proof fn reading_again_adds_four_points(existing: Candidate, candidate: Candidate)
    requires
        existing.payload == candidate.payload,
    ensures
        ({
            let again = seen_again(existing, candidate);
            &&& keeps(again, existing)
            &&& again.evidence_count == existing.evidence_count + 1
            &&& component_value(again.components, "independentEvidence"@) == 4 * POINT
                * again.evidence_count
            &&& again.score == rounded_signed(existing.score + 4 * POINT) || again.score
                == rounded_signed(candidate.score + 4 * POINT)
            &&& existing.score >= candidate.score ==> again.score == rounded_signed(
                existing.score + 4 * POINT,
            )
            &&& existing.score <= candidate.score ==> again.score == rounded_signed(
                candidate.score + 4 * POINT,
            )
            &&& existing.confidence == "medium"@ ==> again.confidence == "high"@
            &&& existing.confidence != "medium"@ ==> again.confidence == existing.confidence
        }),
{
    let e = existing.evidence_count + 1;
    assert(e * 4 * POINT == 4 * POINT * e) by (nonlinear_arith);
    lemma_keeps_with_evidence(existing, seen_again(existing, candidate), e * 4 * POINT);
}

proof fn lemma_keeps_with_evidence(base: Candidate, next: Candidate, points: int)
    requires
        next == (Candidate {
            components: with_component(base.components, "independentEvidence"@, points),
            score: next.score,
            evidence_count: next.evidence_count,
            confidence: next.confidence,
            ..base
        }),
    ensures
        keeps(next, base),
        component_value(next.components, "independentEvidence"@) == points,
{
    setting_a_component_keeps_the_others(
        base.components,
        "independentEvidence"@,
        points,
        "independentEvidence"@,
    );
    assert forall|name: Seq<char>| name != "independentEvidence"@ implies #[trigger] component_value(
        next.components,
        name,
    ) == component_value(base.components, name) by {
        setting_a_component_keeps_the_others(
            base.components,
            "independentEvidence"@,
            points,
            name,
        );
    }
}

/// A payload read from fused frames counts as a read of each of them.
pub proof fn fused_frames_count_one_by_one(candidate: Candidate, inputs: int)
    ensures
        keeps(fused(candidate, inputs), candidate),
        fused(candidate, inputs).evidence_count == inputs,
        component_value(fused(candidate, inputs).components, "independentEvidence"@) == 4 * POINT
            * inputs,
        fused(candidate, inputs).score == rounded_signed(candidate.score + 4 * POINT * inputs),
        fused(candidate, inputs).confidence == candidate.confidence,
{
    assert(inputs * 4 * POINT == 4 * POINT * inputs) by (nonlinear_arith);
    lemma_keeps_with_evidence(candidate, fused(candidate, inputs), inputs * 4 * POINT);
}

/// Whether a payload is among the first `n` candidates.
pub open spec fn is_among(list: Seq<Candidate>, payload: Seq<u8>, n: int) -> bool {
    exists|i: int| 0 <= i < n && (#[trigger] list[i]).payload == payload
}

proof fn lemma_hit_place(list: Seq<Hits>, payload: Seq<u8>, n: int)
    requires
        0 <= n <= list.len(),
    ensures
        -1 <= hit_place(list, payload, n) < n || hit_place(list, payload, n) == -1,
        hit_place(list, payload, n) >= 0 ==> list[hit_place(list, payload, n)].payload == payload,
    decreases n,
{
    if n > 0 {
        lemma_hit_place(list, payload, n - 1);
    }
}

proof fn lemma_hit_place_same(a: Seq<Hits>, b: Seq<Hits>, payload: Seq<u8>, n: int)
    requires
        0 <= n <= a.len(),
        n <= b.len(),
        forall|i: int| 0 <= i < n ==> (#[trigger] a[i]).payload == b[i].payload,
    ensures
        hit_place(a, payload, n) == hit_place(b, payload, n),
    decreases n,
{
    if n > 0 {
        lemma_hit_place_same(a, b, payload, n - 1);
    }
}

proof fn lemma_with_hit(list: Seq<Hits>, payload: Seq<u8>, other: Seq<u8>)
    ensures
        hits_of(with_hit(list, payload), other) == hits_of(list, other) + (if other == payload {
            1int
        } else {
            0
        }),
{
    let n = list.len() as int;
    let at = hit_place(list, payload, n);
    let next = with_hit(list, payload);
    lemma_hit_place(list, payload, n);
    lemma_hit_place(list, other, n);
    if at < 0 {
        lemma_hit_place_same(list, next, other, n);
        lemma_hit_place_same(list, next, payload, n);
    } else {
        lemma_hit_place_same(list, next, other, n);
    }
}

/// A payload counts once for each variant in which it was read, however often it
/// stands in it.
pub proof fn variants_count_once(
    list: Seq<Hits>,
    others: Seq<Candidate>,
    n: int,
    payload: Seq<u8>,
)
    requires
        0 <= n <= others.len(),
    ensures
        hits_of(all_hit(list, others, n), payload) == hits_of(list, payload) + (if is_among(
            others,
            payload,
            n,
        ) {
            1int
        } else {
            0
        }),
    decreases n,
{
    if n > 0 {
        variants_count_once(list, others, n - 1, payload);
        let last = others[n - 1].payload;
        lemma_candidate_place(others, last, n - 1);
        lemma_with_hit(all_hit(list, others, n - 1), last, payload);
        let at = candidate_place(others, last, n - 1);
        if at >= 0 && last == payload {
            assert(others[at].payload == payload);
            assert(is_among(others, payload, n - 1));
        }
        if is_among(others, payload, n - 1) {
            let i = choose|i: int| 0 <= i < n - 1 && (#[trigger] others[i]).payload == payload;
            assert(others[i].payload == payload);
            assert(is_among(others, payload, n));
        }
        if last == payload {
            assert(others[n - 1].payload == payload);
            assert(is_among(others, payload, n));
        }
        if is_among(others, payload, n) && last != payload {
            let i = choose|i: int| 0 <= i < n && (#[trigger] others[i]).payload == payload;
            assert(i < n - 1);
        }
    }
}

/// What was read in a frame is noted for that frame, and nothing else is.
pub proof fn reads_are_noted_for_their_frame(
    list: Seq<Sighting>,
    frame: int,
    others: Seq<Candidate>,
    n: int,
    sighting: Sighting,
)
    requires
        0 <= n <= others.len(),
    ensures
        all_sighted(list, frame, others, n).contains(sighting) <==> list.contains(sighting) || (
        sighting.frame == frame && is_among(others, sighting.payload, n)),
    decreases n,
{
    if n > 0 {
        reads_are_noted_for_their_frame(list, frame, others, n - 1, sighting);
        let before = all_sighted(list, frame, others, n - 1);
        let last = Sighting { frame, payload: others[n - 1].payload };
        let next = all_sighted(list, frame, others, n);
        if !before.contains(last) {
            if before.contains(sighting) {
                let i = before.index_of(sighting);
                assert(next[i] == sighting);
            }
            if sighting == last {
                assert(next[before.len() as int] == sighting);
            }
            if next.contains(sighting) && sighting != last {
                let i = next.index_of(sighting);
                assert(i < before.len());
                assert(before[i] == sighting);
            }
        }
        if is_among(others, sighting.payload, n - 1) {
            let i = choose|i: int|
                0 <= i < n - 1 && (#[trigger] others[i]).payload == sighting.payload;
            assert(others[i].payload == sighting.payload);
        }
        if others[n - 1].payload == sighting.payload {
            assert(is_among(others, sighting.payload, n));
        } else if is_among(others, sighting.payload, n) {
            let i = choose|i: int| 0 <= i < n && (#[trigger] others[i]).payload
                == sighting.payload;
            assert(i < n - 1);
        }
    }
}

/// Recording the outcome of a variant counts the variant and what it took.
pub proof fn recording_counts_the_work(
    session: Session,
    frame: int,
    name: Seq<char>,
    outcome: Decoded,
    preview: Preview,
)
    ensures
        ({
            let after = recorded(session, frame, name, outcome, preview);
            &&& after.examined_variants == session.examined_variants + 1
            &&& after.valid_reads - session.valid_reads == outcome.valid_reads
            &&& after.invalid_reads - session.invalid_reads == outcome.invalid_reads
            &&& after.soft_decode_attempts - session.soft_decode_attempts == outcome.attempts
            &&& after.input_count == session.input_count
            &&& after.effort == session.effort
            &&& after.batch_count == session.batch_count
            &&& after.termination_reason != session.termination_reason ==> after.termination_reason
                == Some(TerminationReason::ConfidenceLimit)
        }),
{
}

/// A single search of one frame ends early only where its effort's confirmations
/// have come in: two reads and four more variants for a fast search, two and six
/// for a balanced one, three and twelve for a thorough one.
pub proof fn early_ends_are_confirmed(session: Session)
    requires
        may_end(session),
        session.batch_count <= 1,
    ensures
        session.candidates.len() == 1,
        session.input_count == 1,
        session.first_verified_at is Some,
        ({
            let hits = hits_of(session.hits, session.candidates[0].payload);
            let more = session.examined_variants - session.first_verified_at->Some_0;
            match session.effort {
                Effort::Fast => hits >= 2 && more >= 4,
                Effort::Balanced => hits >= 2 && more >= 6,
                Effort::Thorough => hits >= 3 && more >= 12,
            }
        }),
{
}

/// The search budgets of the three efforts: variants, flipped bits, decoding
/// attempts, and seconds.
pub proof fn efforts_have_their_budgets(effort: Effort)
    ensures
        match effort {
            Effort::Fast => variant_limit(effort) == 20 && chase_bits(effort) == 0
                && candidate_attempts(effort) == 2_000 && default_micros(effort) == 10 * 1_000_000,
            Effort::Balanced => variant_limit(effort) == 102 && chase_bits(effort) == 12
                && candidate_attempts(effort) == 50_000 && default_micros(effort) == 60
                * 1_000_000,
            Effort::Thorough => variant_limit(effort) == 262 && chase_bits(effort) == 18
                && candidate_attempts(effort) == 500_000 && default_micros(effort) == 600
                * 1_000_000,
        },
{
}

/// How much evidence the first `n` readings have for a payload.
pub open spec fn evidence_among(list: Seq<Candidate>, payload: Seq<u8>, n: int) -> int
    decreases n,
{
    if n <= 0 {
        0
    } else {
        evidence_among(list, payload, n - 1) + (if list[n - 1].payload == payload {
            list[n - 1].evidence_count
        } else {
            0
        })
    }
}

pub(crate) proof fn lemma_evidence_absent(list: Seq<Candidate>, payload: Seq<u8>, n: int)
    requires
        0 <= n <= list.len(),
        forall|i: int| 0 <= i < n ==> (#[trigger] list[i]).payload != payload,
    ensures
        evidence_among(list, payload, n) == 0,
    decreases n,
{
    if n > 0 {
        lemma_evidence_absent(list, payload, n - 1);
    }
}

proof fn lemma_evidence_prefix(a: Seq<Candidate>, b: Seq<Candidate>, payload: Seq<u8>, n: int)
    requires
        0 <= n <= a.len(),
        n <= b.len(),
        forall|i: int| 0 <= i < n ==> a[i] == b[i],
    ensures
        evidence_among(a, payload, n) == evidence_among(b, payload, n),
    decreases n,
{
    if n > 0 {
        lemma_evidence_prefix(a, b, payload, n - 1);
    }
}

proof fn lemma_with_reading_evidence(
    list: Seq<Candidate>,
    candidate: Candidate,
    payload: Seq<u8>,
)
    ensures
        evidence_among(
            with_reading(list, candidate),
            payload,
            with_reading(list, candidate).len() as int,
        ) == evidence_among(list, payload, list.len() as int) + (if candidate.payload == payload {
            candidate.evidence_count
        } else {
            0
        }),
    decreases list.len(),
{
    let next = with_reading(list, candidate);
    let n = list.len() as int;
    if list.len() == 0 || crate::order::comes_before(list.last().payload, candidate.payload) {
        lemma_evidence_prefix(list, next, payload, n);
    } else {
        let rest = list.drop_last();
        lemma_evidence_prefix(rest, list, payload, n - 1);
        if list.last().payload == candidate.payload {
            lemma_evidence_prefix(rest, next, payload, n - 1);
        } else {
            lemma_with_reading_evidence(rest, candidate, payload);
            let part = with_reading(rest, candidate);
            lemma_evidence_prefix(part, next, payload, part.len() as int);
        }
    }
}

/// Listing readings by their payloads loses no evidence: each payload has as much
/// as all its readings together.
pub proof fn listing_keeps_evidence(list: Seq<Candidate>, n: int, payload: Seq<u8>)
    requires
        0 <= n <= list.len(),
    ensures
        evidence_among(by_payload(list, n), payload, by_payload(list, n).len() as int)
            == evidence_among(list, payload, n),
    decreases n,
{
    if n > 0 {
        listing_keeps_evidence(list, n - 1, payload);
        lemma_with_reading_evidence(by_payload(list, n - 1), list[n - 1], payload);
    }
}

/// Two readings of one payload in one variant become one, with the evidence of
/// both, the confidence of the surer one and the symbol of the one that scores
/// more. A flat symbol keeps its score; a deformed one gets two points for each
/// reading beyond the first.
pub proof fn repeated_readings_keep_the_better(a: Candidate, b: Candidate)
    requires
        a.payload == b.payload,
        a.evidence_count >= 1,
        b.evidence_count >= 1,
    ensures
        ({
            let again = read_again(a, b);
            let better = if b.score > a.score {
                b
            } else {
                a
            };
            &&& better.score >= a.score && better.score >= b.score
            &&& again.evidence_count == a.evidence_count + b.evidence_count
            &&& again.payload == better.payload && again.matrix == better.matrix && again.source
                == better.source && again.version == better.version && again.mask == better.mask
                && again.ec_level == better.ec_level && again.corrected_symbols
                == better.corrected_symbols
            &&& !is_deformed(better) ==> again.components == better.components && again.score
                == better.score
            &&& is_deformed(better) ==> component_value(again.components, "deformationGeometry"@)
                == 2 * POINT * (again.evidence_count - 1) && again.score == total_score(
                again.components,
            )
            &&& a.confidence == "high"@ && b.confidence == "medium"@ || a.confidence == "medium"@
                && b.confidence == "high"@ ==> again.confidence == "high"@
        }),
{
    let e = a.evidence_count + b.evidence_count;
    assert((e - 1) * 2 * POINT == 2 * POINT * (e - 1)) by (nonlinear_arith);
    reveal_strlit("high");
    reveal_strlit("medium");
    assert("high"@[0] != "medium"@[0]);
    let base = if b.score > a.score {
        b
    } else {
        a
    };
    setting_a_component_keeps_the_others(
        base.components,
        "deformationGeometry"@,
        (e - 1) * 2 * POINT,
        "deformationGeometry"@,
    );
}

} // verus!
