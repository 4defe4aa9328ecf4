//! Which requests are accepted.

use vstd::prelude::*;

use crate::layout::level_named;
use crate::options::{options_refusal, regex_rejection, RecoveryOptionsInput, Refusal};

verus! {

/// Whether the effort of a request is one of the three that there are.
pub open spec fn names_effort(text: Seq<char>) -> bool {
    text == "fast"@ || text == "balanced"@ || text == "thorough"@
}

/// Whether a text names one of the four levels.
pub open spec fn names_level(text: Seq<char>) -> bool {
    text == "L"@ || text == "M"@ || text == "Q"@ || text == "H"@
}

/// Whether a request can be served: everything that it gives is something that
/// there is, and the batch is one of at most eight.
pub open spec fn can_be_served(input: RecoveryOptionsInput) -> bool {
    &&& names_effort(input.effort@)
    &&& input.max_micros matches Some(micros) ==> micros > 0
    &&& input.version matches Some(version) ==> 1 <= version && version <= 40
    &&& input.ec_level matches Some(level) ==> names_level(level@)
    &&& input.payload_regex matches Some(pattern) ==> regex_rejection(pattern@) is None
    &&& match (input.batch_index, input.batch_count) {
        (None, None) => true,
        (Some(index), None) => index == 0,
        (None, Some(count)) => 1 <= count && count <= 8,
        (Some(index), Some(count)) => index < count && count <= 8,
    }
}

proof fn lemma_names_level(text: Seq<char>)
    ensures
        names_level(text) <==> level_named(text) is Some,
{
    reveal_strlit("L");
    reveal_strlit("M");
    reveal_strlit("Q");
    reveal_strlit("H");
    assert("L"@ =~= seq!['L'] && "M"@ =~= seq!['M'] && "Q"@ =~= seq!['Q'] && "H"@ =~= seq!['H']);
}

/// A request is accepted exactly if it can be served.
pub proof fn sound_requests_are_accepted(input: RecoveryOptionsInput)
    ensures
        options_refusal(input) is None <==> can_be_served(input),
{
    if input.ec_level is Some {
        lemma_names_level(input.ec_level->Some_0@);
    }
}

/// The refusal of a request names a fault that it has.
pub proof fn refusals_name_a_fault(input: RecoveryOptionsInput)
    ensures
        match options_refusal(input) {
            None => true,
            Some(Refusal::Effort) => !names_effort(input.effort@),
            Some(Refusal::MaxSeconds) => input.max_micros == Some(0u64),
            Some(Refusal::Version) => input.version matches Some(version) && !(1 <= version
                && version <= 40),
            Some(Refusal::EcLevel) => input.ec_level matches Some(level) && !names_level(level@),
            Some(Refusal::PayloadRegex(reason)) => input.payload_regex matches Some(pattern)
                && regex_rejection(pattern@) == Some(reason),
            Some(Refusal::BatchCount) => input.batch_count matches Some(count) && !(1 <= count
                && count <= 8),
            Some(Refusal::BatchIndex) => input.batch_index matches Some(index) && index >= (
            match input.batch_count {
                Some(count) => count,
                None => 1,
            }),
            Some(_) => false,
        },
{
    if input.ec_level is Some {
        lemma_names_level(input.ec_level->Some_0@);
    }
}

} // verus!
