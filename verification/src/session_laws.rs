//! When frames contradict each other, and what a session reports.

use vstd::prelude::*;

use crate::effort::Effort;
use crate::merge::combined;
use crate::phrases::stands_at;
use crate::plan::{recipe_name, Recipe, Terminal};
use crate::reading::Decoded;
use crate::recovery_result::{Candidate, Preview};
use crate::session::{
    conflicting, finished, hits_of, is_wanted, may_end, read_everywhere, read_in, recorded, Session,
    Sighting,
};
use crate::text::decimal;

verus! {

/// Whether a payload was read in a frame.
pub open spec fn is_read(reads: Seq<Sighting>, frame: int, payload: Seq<u8>) -> bool {
    exists|k: int|
        0 <= k < reads.len() && (#[trigger] reads[k]).frame == frame && reads[k].payload == payload
}

/// Whether a payload was read in every frame in which something was read.
pub open spec fn is_common(reads: Seq<Sighting>, payload: Seq<u8>) -> bool {
    forall|j: int| 0 <= j < reads.len() ==> is_read(reads, (#[trigger] reads[j]).frame, payload)
}

proof fn lemma_read(reads: Seq<Sighting>, frame: int, payload: Seq<u8>)
    ensures
        is_read(reads, frame, payload) <==> read_in(reads, frame, payload),
{
    let wanted = Sighting { frame, payload };
    if read_in(reads, frame, payload) {
        let k = choose|k: int| 0 <= k < reads.len() && reads[k] == wanted;
        assert(reads[k].frame == frame);
    }
    if is_read(reads, frame, payload) {
        let k = choose|k: int|
            0 <= k < reads.len() && (#[trigger] reads[k]).frame == frame && reads[k].payload
                == payload;
        assert(reads[k] == wanted);
    }
}

proof fn lemma_common(reads: Seq<Sighting>, payload: Seq<u8>)
    ensures
        is_common(reads, payload) <==> read_everywhere(reads, payload),
{
    assert forall|j: int| 0 <= j < reads.len() implies is_read(
        reads,
        (#[trigger] reads[j]).frame,
        payload,
    ) == read_in(reads, reads[j].frame, payload) by {
        lemma_read(reads, reads[j].frame, payload);
    }
}

/// Frames contradict each other exactly if two frames were read and they have no
/// payload in common.
pub proof fn frames_conflict_without_common_payload(reads: Seq<Sighting>)
    ensures
        conflicting(reads) <==> (exists|i: int, j: int|
            0 <= i < reads.len() && 0 <= j < reads.len() && (#[trigger] reads[i]).frame != (
            #[trigger] reads[j]).frame) && (forall|payload: Seq<u8>|
            !#[trigger] is_common(reads, payload)),
{
    if conflicting(reads) {
        let j = choose|j: int|
            0 <= j < reads.len() && (#[trigger] reads[j]).frame != reads[0].frame;
        assert(reads[j].frame != reads[0].frame);
        assert forall|payload: Seq<u8>| !#[trigger] is_common(reads, payload) by {
            if is_common(reads, payload) {
                lemma_common(reads, payload);
                assert(is_read(reads, reads[0].frame, payload));
                let k = choose|k: int|
                    0 <= k < reads.len() && (#[trigger] reads[k]).frame == reads[0].frame
                        && reads[k].payload == payload;
                assert(read_everywhere(reads, reads[k].payload));
            }
        }
    }
    if (exists|i: int, j: int|
        0 <= i < reads.len() && 0 <= j < reads.len() && (#[trigger] reads[i]).frame != (
        #[trigger] reads[j]).frame) && (forall|payload: Seq<u8>|
        !#[trigger] is_common(reads, payload)) {
        let (i, j) = choose|i: int, j: int|
            0 <= i < reads.len() && 0 <= j < reads.len() && (#[trigger] reads[i]).frame != (
            #[trigger] reads[j]).frame;
        assert(reads[i].frame != reads[0].frame || reads[j].frame != reads[0].frame);
        assert forall|k: int| 0 <= k < reads.len() implies !read_everywhere(
            reads,
            (#[trigger] reads[k]).payload,
        ) by {
            lemma_common(reads, reads[k].payload);
            assert(!is_common(reads, reads[k].payload));
        }
    }
}

/// A report counts what its session counted, and shows neither discarded frames
/// nor another time than the one that passed.
pub proof fn reports_count_what_was_done(session: Session, elapsed_micros: int)
    ensures
        ({
            let report = finished(session, elapsed_micros);
            &&& report.diagnostics.examined_variants == session.examined_variants
            &&& report.diagnostics.valid_reads == session.valid_reads
            &&& report.diagnostics.invalid_reads == session.invalid_reads
            &&& report.diagnostics.soft_decode_attempts == session.soft_decode_attempts
            &&& report.diagnostics.input_count == session.input_count
            &&& report.diagnostics.elapsed_micros == elapsed_micros
            &&& report.discarded_frames.len() == 0
            &&& report.termination_reason is Some <==> session.termination_reason is Some
        }),
{
}

/// A variant that ends with Otsu's threshold is always worth trying.
pub proof fn otsu_variants_stay_wanted(session: Session, recipe: Recipe)
    requires
        recipe matches Recipe::Standard { terminal, .. } && terminal == Terminal::Otsu,
    ensures
        is_wanted(session, recipe_name(recipe)),
{
    let name = recipe_name(recipe);
    let part = "otsu"@;
    let at = name.len() - part.len();
    assert(name.subrange(at, at + part.len()) =~= part);
    assert(stands_at(name, part, at));
}

/// One of several batches ends as soon as it has a candidate. A search of its own
/// ends exactly where one payload alone was read in enough variants, and enough
/// variants came after the first read.
pub proof fn searches_end_when_confirmed(session: Session)
    ensures
        session.batch_count > 1 ==> (may_end(session) <==> session.candidates.len() > 0),
        session.batch_count == 1 && session.input_count == 1 && session.candidates.len() == 1
            && session.first_verified_at is Some ==> {
            let hits = hits_of(session.hits, session.candidates[0].payload);
            let more = session.examined_variants - session.first_verified_at->Some_0;
            may_end(session) <==> match session.effort {
                Effort::Fast => hits >= 2 && more >= 4,
                Effort::Balanced => hits >= 2 && more >= 6,
                Effort::Thorough => hits >= 3 && more >= 12,
            }
        },
        session.batch_count == 1 && (session.input_count != 1 || session.candidates.len() != 1)
            ==> !may_end(session),
{
}

/// The first read of a search is dated by the variant that gave it, and keeps its
/// date.
pub proof fn first_reads_are_dated(
    session: Session,
    frame: int,
    name: Seq<char>,
    outcome: Decoded,
    preview: Preview,
)
    requires
        session.batch_count == 1,
        session.input_count == 1,
    ensures
        ({
            let after = recorded(session, frame, name, outcome, preview);
            &&& session.first_verified_at is Some ==> after.first_verified_at
                == session.first_verified_at
            &&& session.first_verified_at is None && after.candidates.len() > 0
                ==> after.first_verified_at == Some(session.examined_variants + 1)
            &&& session.first_verified_at is None && after.candidates.len() == 0
                ==> after.first_verified_at is None
        }),
{
}

/// Merging two reports of a payload makes a medium confidence high, and keeps any
/// other of theirs.
pub proof fn agreement_raises_confidence(a: Candidate, b: Candidate)
    ensures
        ({
            let whole = combined(a, b);
            &&& a.confidence == b.confidence && a.confidence == "medium"@ ==> whole.confidence
                == "high"@
            &&& a.confidence == b.confidence && a.confidence != "medium"@ ==> whole.confidence
                == a.confidence
            &&& a.confidence != "medium"@ && b.confidence != "medium"@ ==> whole.confidence
                == a.confidence || whole.confidence == b.confidence
            &&& whole.confidence != "medium"@
        }),
{
    reveal_strlit("medium");
    reveal_strlit("high");
    assert("medium"@.len() != "high"@.len());
}

} // verus!
