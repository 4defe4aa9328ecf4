//! What merging keeps of the candidates that the batches report.

use vstd::prelude::*;

use crate::merge::{
    combined, evidence_points, lemma_candidate_place, merged, offers, pool, pooled, tally,
    total_evidence, with_pooled,
};
use crate::recovery_result::{
    candidate_place, component_place, component_value, conclusions_are_ordered, is_one_of,
    lemma_component_kept, lemma_component_place, lemma_name_place, name_place, same_but_confidence,
    total_score, with_component, Candidate, Component, Diagnosis, Report, POINT,
};
use crate::rounding::rounded_signed;

verus! {

proof fn lemma_absent(list: Seq<Component>, name: Seq<char>, n: int)
    requires
        0 <= n <= list.len(),
    ensures
        component_place(list, name, n) < 0 ==> forall|i: int|
            0 <= i < n ==> (#[trigger] list[i]).name != name,
        component_place(list, name, n) >= 0 ==> component_place(list, name, n) < n
            && list[component_place(list, name, n)].name == name,
    decreases n,
{
    if n > 0 {
        lemma_absent(list, name, n - 1);
    }
}

proof fn lemma_only(list: Seq<Component>, name: Seq<char>, at: int, n: int)
    requires
        0 <= at < n <= list.len(),
        list[at].name == name,
        forall|i: int| 0 <= i < n && i != at ==> (#[trigger] list[i]).name != name,
    ensures
        component_place(list, name, n) == at,
    decreases n,
{
    if at < n - 1 {
        assert(list[n - 1].name != name);
        lemma_only(list, name, at, n - 1);
    }
}

proof fn lemma_other_kept(
    list: Seq<Component>,
    next: Seq<Component>,
    other: Seq<char>,
    at: int,
    n: int,
)
    requires
        next.len() == list.len(),
        0 <= at < list.len(),
        0 <= n <= list.len(),
        list[at].name != other,
        next[at].name != other,
        forall|i: int| 0 <= i < list.len() && i != at ==> #[trigger] next[i] == list[i],
    ensures
        component_place(next, other, n) == component_place(list, other, n),
    decreases n,
{
    if n > 0 {
        lemma_other_kept(list, next, other, at, n - 1);
        if n - 1 != at {
            assert(next[n - 1] == list[n - 1]);
        }
    }
}

proof fn lemma_other_moved(
    list: Seq<Component>,
    item: Component,
    other: Seq<char>,
    at: int,
    n: int,
)
    requires
        0 <= at <= list.len(),
        0 <= n <= list.len() + 1,
        item.name != other,
    ensures
        ({
            let next = list.insert(at, item);
            let before = component_place(
                list,
                other,
                if n <= at {
                    n
                } else {
                    n - 1
                },
            );
            component_place(next, other, n) == (if before >= at {
                before + 1
            } else {
                before
            })
        }),
    decreases n,
{
    let next = list.insert(at, item);
    if n > 0 {
        lemma_other_moved(list, item, other, at, n - 1);
        if n - 1 < at {
            assert(next[n - 1] == list[n - 1]);
            lemma_component_place(list, other, n);
            lemma_component_place(list, other, n - 1);
        } else if n - 1 == at {
            assert(next[n - 1] == item);
            lemma_component_place(list, other, at);
        } else {
            assert(next[n - 1] == list[n - 2]);
            lemma_component_place(list, other, n - 1);
            lemma_component_place(list, other, n - 2);
        }
    }
}

/// Setting a component gives it its value and keeps every other.
pub proof fn setting_a_component_keeps_the_others(
    list: Seq<Component>,
    name: Seq<char>,
    value: int,
    other: Seq<char>,
)
    ensures
        component_value(with_component(list, name, value), name) == value,
        other != name ==> component_value(with_component(list, name, value), other)
            == component_value(list, other),
{
    let n = list.len() as int;
    let at = component_place(list, name, n);
    let next = with_component(list, name, value);
    lemma_absent(list, name, n);
    if at < 0 {
        lemma_name_place(list, name, n);
        let place = name_place(list, name, n);
        let item = Component { name, value };
        assert forall|i: int| 0 <= i < n + 1 && i != place implies (#[trigger] next[i]).name
            != name by {
            if i < place {
                assert(next[i] == list[i]);
            } else {
                assert(next[i] == list[i - 1]);
            }
        }
        lemma_only(next, name, place, n + 1);
        if other != name {
            lemma_other_moved(list, item, other, place, n + 1);
            lemma_component_place(list, other, n);
        }
    } else {
        lemma_component_kept(list, next, name, at, n);
        if other != name {
            lemma_other_kept(list, next, other, at, n);
            lemma_component_place(list, other, n);
            lemma_absent(list, other, n);
        }
    }
}

proof fn lemma_set_again(list: Seq<Component>, name: Seq<char>, value: int, again: int)
    ensures
        with_component(with_component(list, name, value), name, again) == with_component(
            list,
            name,
            again,
        ),
{
    let n = list.len() as int;
    let at = component_place(list, name, n);
    let next = with_component(list, name, value);
    lemma_absent(list, name, n);
    if at < 0 {
        lemma_name_place(list, name, n);
        let place = name_place(list, name, n);
        assert forall|i: int| 0 <= i < n + 1 && i != place implies (#[trigger] next[i]).name
            != name by {
            if i < place {
                assert(next[i] == list[i]);
            } else {
                assert(next[i] == list[i - 1]);
            }
        }
        lemma_only(next, name, place, n + 1);
    } else {
        lemma_component_kept(list, next, name, at, n);
    }
    assert(with_component(next, name, again) =~= with_component(list, name, again));
}

/// What a candidate scores without what other reads of the payload added to it.
pub open spec fn own_points(candidate: Candidate) -> int {
    candidate.score - component_value(candidate.components, "independentEvidence"@)
}

/// Whether a candidate shows the symbol of another, names its source, and has
/// every component of its score but that for evidence from elsewhere.
pub open spec fn keeps(merged: Candidate, base: Candidate) -> bool {
    &&& merged.payload == base.payload
    &&& merged.text == base.text
    &&& merged.version == base.version
    &&& merged.ec_level == base.ec_level
    &&& merged.mask == base.mask
    &&& merged.matrix == base.matrix
    &&& merged.matrix_kind == base.matrix_kind
    &&& merged.corrected_symbols == base.corrected_symbols
    &&& merged.source == base.source
    &&& forall|name: Seq<char>|
        name != "independentEvidence"@ ==> #[trigger] component_value(merged.components, name)
            == component_value(base.components, name)
}

proof fn lemma_combined_keeps(base: Candidate, points: int)
    ensures
        keeps(
            Candidate {
                components: with_component(base.components, "independentEvidence"@, points),
                ..base
            },
            base,
        ),
        component_value(
            with_component(base.components, "independentEvidence"@, points),
            "independentEvidence"@,
        ) == points,
{
    let set = with_component(base.components, "independentEvidence"@, points);
    setting_a_component_keeps_the_others(
        base.components,
        "independentEvidence"@,
        points,
        "independentEvidence"@,
    );
    assert forall|name: Seq<char>| name != "independentEvidence"@ implies #[trigger] component_value(
        set,
        name,
    ) == component_value(base.components, name) by {
        setting_a_component_keeps_the_others(
            base.components,
            "independentEvidence"@,
            points,
            name,
        );
    }
}

/// What a candidate keeps does not depend on its score, evidence and confidence.
proof fn lemma_keeps_alike(a: Candidate, b: Candidate, base: Candidate)
    requires
        keeps(b, base),
        a == (Candidate {
            score: a.score,
            evidence_count: a.evidence_count,
            confidence: a.confidence,
            ..b
        }),
    ensures
        keeps(a, base),
{
    assert forall|name: Seq<char>| name != "independentEvidence"@ implies #[trigger] component_value(
        a.components,
        name,
    ) == component_value(base.components, name) by {
        assert(component_value(b.components, name) == component_value(base.components, name));
    }
}

proof fn lemma_combined_of(a: Candidate, b: Candidate)
    ensures
        ({
            let m = combined(a, b);
            let points = evidence_points(a.evidence_count + b.evidence_count);
            let base = if rounded_signed(own_points(b)) > rounded_signed(own_points(a)) {
                b
            } else {
                a
            };
            &&& keeps(m, base)
            &&& m.components == with_component(base.components, "independentEvidence"@, points)
            &&& m.score == total_score(m.components)
            &&& component_value(m.components, "independentEvidence"@) == points
            &&& m.evidence_count == a.evidence_count + b.evidence_count
        }),
{
    let m = combined(a, b);
    let points = evidence_points(a.evidence_count + b.evidence_count);
    let base = if rounded_signed(own_points(b)) > rounded_signed(own_points(a)) {
        b
    } else {
        a
    };
    lemma_combined_keeps(base, points);
    let set = Candidate {
        components: with_component(base.components, "independentEvidence"@, points),
        ..base
    };
    lemma_keeps_alike(m, set, base);
}

/// Two candidates for one payload become one that keeps all of that one which
/// scores no less by itself, compared in double precision. The evidence of both is
/// added up, and every read beyond the first is worth four points.
pub proof fn merging_keeps_the_better_of_two(a: Candidate, b: Candidate)
    requires
        a.payload == b.payload,
        a.evidence_count + b.evidence_count >= 1,
    ensures
        ({
            let m = combined(a, b);
            let (x, y) = (rounded_signed(own_points(a)), rounded_signed(own_points(b)));
            &&& x > y ==> keeps(m, a)
            &&& y > x ==> keeps(m, b)
            &&& x == y ==> keeps(m, a)
            &&& m.evidence_count == a.evidence_count + b.evidence_count
            &&& component_value(m.components, "independentEvidence"@) == 4 * POINT * (
            m.evidence_count - 1)
            &&& m.score == total_score(m.components)
        }),
{
    lemma_combined_of(a, b);
    let e = a.evidence_count + b.evidence_count;
    assert((e - 1) * 4 * POINT == 4 * POINT * (e - 1)) by (nonlinear_arith);
}

/// The candidates of the first `n` reports, one behind the other.
pub open spec fn all_reported(reports: Seq<Report>, n: int) -> Seq<Candidate>
    decreases n,
{
    if n <= 0 {
        Seq::empty()
    } else {
        all_reported(reports, n - 1) + reports[n - 1].candidates
    }
}

/// Whether nothing is lost to rounding when evidence is counted for a candidate:
/// what it scores by itself is a double, and so is its score with the points for
/// any evidence up to the given one.
pub open spec fn adds_up_exactly(candidate: Candidate, evidence: int) -> bool {
    &&& rounded_signed(own_points(candidate)) == own_points(candidate)
    &&& forall|e: int|
        0 <= e <= evidence ==> #[trigger] total_score(
            with_component(candidate.components, "independentEvidence"@, evidence_points(e)),
        ) == own_points(candidate) + evidence_points(e)
}

/// Whether a pooled candidate keeps one of those that were seen, of its payload.
pub open spec fn is_kept_from(candidate: Candidate, seen: Seq<Candidate>) -> bool {
    exists|s: int| 0 <= s < seen.len() && keeps(candidate, #[trigger] seen[s])
}

/// Whether a pooled candidate keeps one of those that were seen of its payload
/// which scores no less by itself than any other of them, and scores as much.
pub open spec fn is_best_of(candidate: Candidate, seen: Seq<Candidate>) -> bool {
    &&& exists|s: int|
        0 <= s < seen.len() && keeps(candidate, #[trigger] seen[s]) && own_points(candidate)
            == own_points(seen[s])
    &&& forall|s: int|
        0 <= s < seen.len() && (#[trigger] seen[s]).payload == candidate.payload ==> own_points(
            seen[s],
        ) <= own_points(candidate)
}

proof fn lemma_keeps_on(a: Candidate, b: Candidate, c: Candidate)
    requires
        keeps(a, b),
        keeps(b, c),
    ensures
        keeps(a, c),
{
    assert forall|name: Seq<char>| name != "independentEvidence"@ implies #[trigger] component_value(
        a.components,
        name,
    ) == component_value(c.components, name) by {
        assert(component_value(a.components, name) == component_value(b.components, name));
    }
}

proof fn lemma_keeps_itself(a: Candidate)
    ensures
        keeps(a, a),
{
}

proof fn lemma_with_pooled_kept(list: Seq<Candidate>, candidate: Candidate, seen: Seq<Candidate>)
    requires
        forall|i: int| 0 <= i < list.len() ==> is_kept_from(#[trigger] list[i], seen),
    ensures
        forall|i: int|
            0 <= i < with_pooled(list, candidate).len() ==> is_kept_from(
                #[trigger] with_pooled(list, candidate)[i],
                seen.push(candidate),
            ),
{
    let at = candidate_place(list, candidate.payload, list.len() as int);
    lemma_candidate_place(list, candidate.payload, list.len() as int);
    let next = with_pooled(list, candidate);
    let more = seen.push(candidate);
    assert forall|i: int| 0 <= i < next.len() implies is_kept_from(#[trigger] next[i], more) by {
        if i < list.len() {
            assert(is_kept_from(list[i], seen));
            let s = choose|s: int| 0 <= s < seen.len() && keeps(list[i], #[trigger] seen[s]);
            assert(more[s] == seen[s]);
            if i == at {
                lemma_combined_of(list[at], candidate);
                assert(more[seen.len() as int] == candidate);
                if keeps(next[i], list[at]) {
                    lemma_keeps_on(next[i], list[at], seen[s]);
                } else {
                    assert(keeps(next[i], candidate));
                }
            }
        } else {
            lemma_keeps_itself(candidate);
            assert(more[seen.len() as int] == candidate);
        }
    }
}

proof fn lemma_pooled_kept(
    list: Seq<Candidate>,
    others: Seq<Candidate>,
    n: int,
    seen: Seq<Candidate>,
)
    requires
        0 <= n <= others.len(),
        forall|i: int| 0 <= i < list.len() ==> is_kept_from(#[trigger] list[i], seen),
    ensures
        forall|i: int|
            0 <= i < pooled(list, others, n).len() ==> is_kept_from(
                #[trigger] pooled(list, others, n)[i],
                seen + others.take(n),
            ),
    decreases n,
{
    if n > 0 {
        lemma_pooled_kept(list, others, n - 1, seen);
        lemma_with_pooled_kept(
            pooled(list, others, n - 1),
            others[n - 1],
            seen + others.take(n - 1),
        );
        assert((seen + others.take(n - 1)).push(others[n - 1]) =~= seen + others.take(n));
    } else {
        assert(seen + others.take(0) =~= seen);
    }
}

proof fn lemma_pool_kept(reports: Seq<Report>, n: int)
    requires
        0 <= n <= reports.len(),
    ensures
        forall|i: int|
            0 <= i < pool(reports, n).len() ==> is_kept_from(
                #[trigger] pool(reports, n)[i],
                all_reported(reports, n),
            ),
    decreases n,
{
    if n > 0 {
        lemma_pool_kept(reports, n - 1);
        let others = reports[n - 1].candidates;
        lemma_pooled_kept(
            pool(reports, n - 1),
            others,
            others.len() as int,
            all_reported(reports, n - 1),
        );
        assert(others.take(others.len() as int) =~= others);
    }
}

/// A merged report makes no candidate up: each keeps the symbol, the source and
/// the score components of one that some report named for its payload.
pub proof fn merged_candidates_were_reported(reports: Seq<Report>, i: int)
    requires
        0 <= i < merged(reports).candidates.len(),
    ensures
        is_kept_from(
            merged(reports).candidates[i],
            all_reported(reports, reports.len() as int),
        ),
{
    let n = reports.len() as int;
    let list = pool(reports, n);
    let seen = all_reported(reports, n);
    let found = merged(reports).candidates[i];
    conclusions_are_ordered(list, offers(reports, n), false);
    assert(is_one_of(found, list));
    let k = choose|k: int| 0 <= k < list.len() && same_but_confidence(found, #[trigger] list[k]);
    lemma_pool_kept(reports, n);
    assert(is_kept_from(list[k], seen));
    let s = choose|s: int| 0 <= s < seen.len() && keeps(list[k], #[trigger] seen[s]);
    lemma_keeps_alike(found, list[k], seen[s]);
}

proof fn lemma_combined_best(
    a: Candidate,
    b: Candidate,
    seen: Seq<Candidate>,
    evidence: int,
)
    requires
        a.payload == b.payload,
        is_best_of(a, seen),
        adds_up_exactly(a, evidence),
        adds_up_exactly(b, evidence),
        0 <= a.evidence_count + b.evidence_count <= evidence,
    ensures
        is_best_of(combined(a, b), seen.push(b)),
        adds_up_exactly(combined(a, b), evidence),
{
    let m = combined(a, b);
    let more = seen.push(b);
    let e = a.evidence_count + b.evidence_count;
    let points = evidence_points(e);
    let base = if own_points(b) > own_points(a) {
        b
    } else {
        a
    };
    lemma_combined_of(a, b);
    assert(keeps(m, base));
    assert(total_score(
        with_component(base.components, "independentEvidence"@, evidence_points(e)),
    ) == own_points(base) + evidence_points(e));
    assert(own_points(m) == own_points(base));
    assert forall|f: int| 0 <= f <= evidence implies #[trigger] total_score(
        with_component(m.components, "independentEvidence"@, evidence_points(f)),
    ) == own_points(m) + evidence_points(f) by {
        lemma_set_again(base.components, "independentEvidence"@, points, evidence_points(f));
        assert(total_score(
            with_component(base.components, "independentEvidence"@, evidence_points(f)),
        ) == own_points(base) + evidence_points(f));
    }
    let s = choose|s: int|
        0 <= s < seen.len() && keeps(a, #[trigger] seen[s]) && own_points(a) == own_points(
            seen[s],
        );
    assert(more[s] == seen[s] && more[seen.len() as int] == b);
    if base == a {
        lemma_keeps_on(m, a, seen[s]);
    }
    assert forall|t: int|
        0 <= t < more.len() && (#[trigger] more[t]).payload == m.payload implies own_points(more[t])
        <= own_points(m) by {
        if t < seen.len() {
            assert(more[t] == seen[t]);
        }
    }
}

/// What holds of the pooled candidates while others are pooled.
spec fn all_best(list: Seq<Candidate>, seen: Seq<Candidate>, evidence: int) -> bool {
    &&& forall|i: int| 0 <= i < list.len() ==> is_best_of(#[trigger] list[i], seen)
    &&& forall|i: int| 0 <= i < list.len() ==> adds_up_exactly(#[trigger] list[i], evidence)
    &&& forall|i: int|
        0 <= i < list.len() ==> 0 <= (#[trigger] list[i]).evidence_count <= total_evidence(
            seen,
            seen.len() as int,
        )
    &&& forall|s: int|
        0 <= s < seen.len() ==> candidate_place(
            list,
            (#[trigger] seen[s]).payload,
            list.len() as int,
        ) >= 0
}

proof fn lemma_evidence_of_more(seen: Seq<Candidate>, candidate: Candidate, n: int)
    requires
        0 <= n <= seen.len(),
    ensures
        total_evidence(seen.push(candidate), n) == total_evidence(seen, n),
    decreases n,
{
    if n > 0 {
        lemma_evidence_of_more(seen, candidate, n - 1);
        assert(seen.push(candidate)[n - 1] == seen[n - 1]);
    }
}

proof fn lemma_place_found(list: Seq<Candidate>, payload: Seq<u8>, n: int, i: int)
    requires
        0 <= i < n <= list.len(),
        list[i].payload == payload,
    ensures
        candidate_place(list, payload, n) >= 0,
    decreases n,
{
    if i < n - 1 {
        lemma_place_found(list, payload, n - 1, i);
    }
}

proof fn lemma_with_pooled_best(
    list: Seq<Candidate>,
    candidate: Candidate,
    seen: Seq<Candidate>,
    evidence: int,
)
    requires
        all_best(list, seen, evidence),
        adds_up_exactly(candidate, evidence),
        0 <= candidate.evidence_count,
        total_evidence(seen.push(candidate), (seen.len() + 1) as int) <= evidence,
        forall|i: int, j: int|
            0 <= i < j < list.len() ==> (#[trigger] list[i]).payload != (
            #[trigger] list[j]).payload,
    ensures
        all_best(with_pooled(list, candidate), seen.push(candidate), evidence),
{
    let n = list.len() as int;
    let at = candidate_place(list, candidate.payload, n);
    lemma_candidate_place(list, candidate.payload, n);
    let next = with_pooled(list, candidate);
    let more = seen.push(candidate);
    lemma_evidence_of_more(seen, candidate, seen.len() as int);
    assert(total_evidence(more, more.len() as int) == total_evidence(seen, seen.len() as int)
        + candidate.evidence_count);
    if at >= 0 {
        assert(is_best_of(list[at], seen) && adds_up_exactly(list[at], evidence));
        assert(list[at].evidence_count <= total_evidence(seen, seen.len() as int));
        lemma_combined_best(list[at], candidate, seen, evidence);
    }
    assert forall|i: int| 0 <= i < next.len() implies is_best_of(#[trigger] next[i], more) by {
        if i < n && i != at {
            assert(next[i] == list[i]);
            assert(is_best_of(list[i], seen));
            let s = choose|s: int|
                0 <= s < seen.len() && keeps(list[i], #[trigger] seen[s]) && own_points(list[i])
                    == own_points(seen[s]);
            assert(more[s] == seen[s]);
            assert(list[i].payload != candidate.payload) by {
                if at >= 0 {
                    if i < at {
                        assert(list[i].payload != list[at].payload);
                    } else {
                        assert(list[at].payload != list[i].payload);
                    }
                }
            }
            assert forall|t: int|
                0 <= t < more.len() && (#[trigger] more[t]).payload == next[i].payload implies
            own_points(more[t]) <= own_points(next[i]) by {
                if t < seen.len() {
                    assert(more[t] == seen[t]);
                }
            }
        } else if at < 0 {
            lemma_keeps_itself(candidate);
            assert(more[seen.len() as int] == candidate);
            assert forall|t: int|
                0 <= t < more.len() && (#[trigger] more[t]).payload == next[i].payload implies
            own_points(more[t]) <= own_points(next[i]) by {
                if t < seen.len() {
                    assert(more[t] == seen[t]);
                    assert(candidate_place(list, seen[t].payload, n) >= 0);
                }
            }
        }
    }
    assert forall|i: int| 0 <= i < next.len() implies adds_up_exactly(
        #[trigger] next[i],
        evidence,
    ) by {
        if i < n && i != at {
            assert(next[i] == list[i]);
        }
    }
    assert forall|i: int| 0 <= i < next.len() implies 0 <= (#[trigger] next[i]).evidence_count
        <= total_evidence(more, more.len() as int) by {
        if i < n && i != at {
            assert(next[i] == list[i]);
        }
        if at >= 0 && i == at {
            assert(0 <= list[at].evidence_count);
        }
        lemma_evidence_positive(list, seen, evidence);
    }
    assert forall|s: int| 0 <= s < more.len() implies candidate_place(
        next,
        (#[trigger] more[s]).payload,
        next.len() as int,
    ) >= 0 by {
        if s < seen.len() {
            assert(more[s] == seen[s]);
            let k = candidate_place(list, seen[s].payload, n);
            assert(k >= 0);
            lemma_candidate_place(list, seen[s].payload, n);
            lemma_place_found(next, more[s].payload, next.len() as int, k);
        } else if at >= 0 {
            lemma_place_found(next, more[s].payload, next.len() as int, at);
        } else {
            lemma_place_found(next, more[s].payload, next.len() as int, n);
        }
    }
}

proof fn lemma_evidence_positive(list: Seq<Candidate>, seen: Seq<Candidate>, evidence: int)
    requires
        all_best(list, seen, evidence),
    ensures
        total_evidence(seen, seen.len() as int) >= 0 || list.len() == 0,
{
    if list.len() > 0 {
        assert(0 <= list[0].evidence_count);
    }
}

proof fn lemma_evidence_grows(list: Seq<Candidate>, m: int, n: int)
    requires
        0 <= m <= n <= list.len(),
        forall|i: int| 0 <= i < list.len() ==> 0 <= (#[trigger] list[i]).evidence_count,
    ensures
        0 <= total_evidence(list, m) <= total_evidence(list, n),
    decreases n,
{
    if m < n {
        lemma_evidence_grows(list, m, n - 1);
    } else if n > 0 {
        lemma_evidence_grows(list, m - 1, n - 1);
    }
}

proof fn lemma_evidence_same(a: Seq<Candidate>, b: Seq<Candidate>, n: int)
    requires
        0 <= n <= a.len(),
        n <= b.len(),
        forall|i: int| 0 <= i < n ==> a[i] == b[i],
    ensures
        total_evidence(a, n) == total_evidence(b, n),
    decreases n,
{
    if n > 0 {
        lemma_evidence_same(a, b, n - 1);
    }
}

proof fn lemma_with_pooled_distinct(list: Seq<Candidate>, candidate: Candidate)
    requires
        forall|i: int, j: int|
            0 <= i < j < list.len() ==> (#[trigger] list[i]).payload != (
            #[trigger] list[j]).payload,
    ensures
        forall|i: int, j: int|
            0 <= i < j < with_pooled(list, candidate).len() ==> (#[trigger] with_pooled(
                list,
                candidate,
            )[i]).payload != (#[trigger] with_pooled(list, candidate)[j]).payload,
{
    let at = candidate_place(list, candidate.payload, list.len() as int);
    lemma_candidate_place(list, candidate.payload, list.len() as int);
    let next = with_pooled(list, candidate);
    assert forall|i: int| 0 <= i < list.len() implies (#[trigger] next[i]).payload
        == list[i].payload by {}
}

proof fn lemma_pooled_best(
    list: Seq<Candidate>,
    others: Seq<Candidate>,
    n: int,
    seen: Seq<Candidate>,
    all: Seq<Candidate>,
    evidence: int,
)
    requires
        0 <= n <= others.len(),
        all_best(list, seen, evidence),
        forall|i: int, j: int|
            0 <= i < j < list.len() ==> (#[trigger] list[i]).payload != (
            #[trigger] list[j]).payload,
        seen.len() + n <= all.len(),
        all.take(seen.len() + n) == seen + others.take(n),
        forall|i: int| 0 <= i < all.len() ==> adds_up_exactly(#[trigger] all[i], evidence),
        forall|i: int| 0 <= i < all.len() ==> 0 <= (#[trigger] all[i]).evidence_count,
        total_evidence(all, all.len() as int) <= evidence,
    ensures
        all_best(pooled(list, others, n), seen + others.take(n), evidence),
        forall|i: int, j: int|
            0 <= i < j < pooled(list, others, n).len() ==> (#[trigger] pooled(
                list,
                others,
                n,
            )[i]).payload != (#[trigger] pooled(list, others, n)[j]).payload,
    decreases n,
{
    if n > 0 {
        let part = all.take(seen.len() + n);
        assert(all.take(seen.len() + n - 1) =~= part.drop_last());
        assert((seen + others.take(n)).drop_last() =~= seen + others.take(n - 1));
        lemma_pooled_best(list, others, n - 1, seen, all, evidence);
        let before = pooled(list, others, n - 1);
        let known = seen + others.take(n - 1);
        let item = others[n - 1];
        let k = seen.len() + n - 1;
        assert(part[k] == (seen + others.take(n))[k]);
        assert(all[k] == item);
        assert(adds_up_exactly(all[k], evidence));
        assert(known.push(item) =~= seen + others.take(n));
        lemma_evidence_same(known.push(item), all, k + 1);
        lemma_evidence_grows(all, k + 1, all.len() as int);
        lemma_with_pooled_best(before, item, known, evidence);
        lemma_with_pooled_distinct(before, item);
    } else {
        assert(seen + others.take(0) =~= seen);
    }
}

proof fn lemma_reported_part(reports: Seq<Report>, m: int, n: int)
    requires
        0 <= m <= n <= reports.len(),
    ensures
        all_reported(reports, m).len() <= all_reported(reports, n).len(),
        all_reported(reports, n).take(all_reported(reports, m).len() as int) == all_reported(
            reports,
            m,
        ),
    decreases n,
{
    let whole = all_reported(reports, n);
    let part = all_reported(reports, m);
    if m < n {
        lemma_reported_part(reports, m, n - 1);
        let before = all_reported(reports, n - 1);
        assert(whole.take(part.len() as int) =~= before.take(part.len() as int));
    } else {
        assert(whole.take(part.len() as int) =~= part);
    }
}

proof fn lemma_pool_best(reports: Seq<Report>, n: int, evidence: int)
    requires
        0 <= n <= reports.len(),
        ({
            let all = all_reported(reports, reports.len() as int);
            &&& forall|i: int| 0 <= i < all.len() ==> adds_up_exactly(#[trigger] all[i], evidence)
            &&& forall|i: int| 0 <= i < all.len() ==> 0 <= (#[trigger] all[i]).evidence_count
            &&& total_evidence(all, all.len() as int) <= evidence
        }),
    ensures
        all_best(pool(reports, n), all_reported(reports, n), evidence),
        forall|i: int, j: int|
            0 <= i < j < pool(reports, n).len() ==> (#[trigger] pool(reports, n)[i]).payload != (
            #[trigger] pool(reports, n)[j]).payload,
    decreases n,
{
    if n > 0 {
        lemma_pool_best(reports, n - 1, evidence);
        let all = all_reported(reports, reports.len() as int);
        let others = reports[n - 1].candidates;
        lemma_reported_part(reports, n, reports.len() as int);
        assert(others.take(others.len() as int) =~= others);
        lemma_pooled_best(
            pool(reports, n - 1),
            others,
            others.len() as int,
            all_reported(reports, n - 1),
            all,
            evidence,
        );
    }
}

/// Of all candidates that the reports name for a payload, the merged one keeps
/// the symbol, the source and the score components of one that scores no less by
/// itself than any other, whatever the order of the reports: where counting
/// evidence loses nothing to rounding.
pub proof fn merging_keeps_the_best(reports: Seq<Report>, i: int, evidence: int)
    requires
        0 <= i < merged(reports).candidates.len(),
        ({
            let all = all_reported(reports, reports.len() as int);
            &&& forall|k: int| 0 <= k < all.len() ==> adds_up_exactly(#[trigger] all[k], evidence)
            &&& forall|k: int| 0 <= k < all.len() ==> 0 <= (#[trigger] all[k]).evidence_count
            &&& total_evidence(all, all.len() as int) <= evidence
        }),
    ensures
        is_best_of(
            merged(reports).candidates[i],
            all_reported(reports, reports.len() as int),
        ),
{
    let n = reports.len() as int;
    let list = pool(reports, n);
    let seen = all_reported(reports, n);
    let found = merged(reports).candidates[i];
    conclusions_are_ordered(list, offers(reports, n), false);
    assert(is_one_of(found, list));
    let k = choose|k: int| 0 <= k < list.len() && same_but_confidence(found, #[trigger] list[k]);
    lemma_pool_best(reports, n, evidence);
    assert(is_best_of(list[k], seen));
    let s = choose|s: int|
        0 <= s < seen.len() && keeps(list[k], #[trigger] seen[s]) && own_points(list[k])
            == own_points(seen[s]);
    lemma_keeps_alike(found, list[k], seen[s]);
    assert(own_points(found) == own_points(list[k]));
}

/// The sum of one number over the first `n` reports.
pub open spec fn work_total(f: spec_fn(Diagnosis) -> int, reports: Seq<Report>, n: int) -> int
    decreases n,
{
    if n <= 0 {
        0
    } else {
        work_total(f, reports, n - 1) + f(reports[n - 1].diagnostics)
    }
}

/// A merged report counts the work of all batches, and its time is that of the
/// batch that took longest.
pub proof fn merging_counts_all_work(reports: Seq<Report>, n: int, i: int)
    requires
        0 <= i < n <= reports.len(),
        forall|k: int|
            0 <= k < reports.len() ==> 0 <= (#[trigger] reports[k]).diagnostics.elapsed_micros,
    ensures
        ({
            let whole = tally(reports, n);
            &&& whole.examined_variants == work_total(
                |d: Diagnosis| d.examined_variants,
                reports,
                n,
            )
            &&& whole.valid_reads == work_total(|d: Diagnosis| d.valid_reads, reports, n)
            &&& whole.invalid_reads == work_total(|d: Diagnosis| d.invalid_reads, reports, n)
            &&& whole.soft_decode_attempts == work_total(
                |d: Diagnosis| d.soft_decode_attempts,
                reports,
                n,
            )
            &&& reports[i].diagnostics.elapsed_micros <= whole.elapsed_micros
            &&& exists|k: int|
                0 <= k < n && (#[trigger] reports[k]).diagnostics.elapsed_micros
                    == whole.elapsed_micros
            &&& whole.input_count == reports[0].diagnostics.input_count
        }),
    decreases n,
{
    if n > 1 {
        if i < n - 1 {
            merging_counts_all_work(reports, n - 1, i);
        } else {
            merging_counts_all_work(reports, n - 1, 0);
        }
        let k = choose|k: int|
            0 <= k < n - 1 && (#[trigger] reports[k]).diagnostics.elapsed_micros == tally(
                reports,
                n - 1,
            ).elapsed_micros;
        assert(reports[k] == reports[k] && reports[n - 1] == reports[n - 1]);
    } else {
        assert(reports[0] == reports[0]);
        assert(0 <= reports[0].diagnostics.elapsed_micros);
        assert(tally(reports, 0).elapsed_micros == 0);
        reveal_with_fuel(work_total, 2);
        reveal_with_fuel(tally, 2);
    }
}

/// A merged report ran out of time exactly if one of the batches did.
pub proof fn merging_tells_of_time_limits(reports: Seq<Report>)
    ensures
        merged(reports).termination_reason == Some("time_limit"@) <==> exists|i: int|
            0 <= i < reports.len() && (#[trigger] reports[i]).termination_reason == Some(
                "time_limit"@,
            ),
        merged(reports).termination_reason is None || merged(reports).termination_reason == Some(
            "time_limit"@,
        ),
{
}

} // verus!
