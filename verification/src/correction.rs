//! Soft-decision search for the code words near a received block.

use vstd::prelude::*;

use crate::candidates::{
    corrected, is_ranked, lemma_place_of, lemma_with_found, note_found, place_of, ranks_before,
    with_found, with_ranked, Corrected, CorrectedBlock,
};
use crate::codewords::FULL_RELIABILITY;
use crate::error::QrError;
use crate::order::{copy_bytes, stable_order, stable_order_of};
use crate::reed_solomon_code::{is_code_word, rs_correct, rs_corrected, rs_is_corrupted};

verus! {

/// Reliabilities that differ by no more than this are taken for equal.
pub const RELIABILITY_TOLERANCE: u32 = 128;

/// The longest error-correction part whose words the decoder's buffers hold.
pub const MAX_ECC: usize = 168;

/// What a decoder made of a block with some positions erased. Such a decoder may
/// fail in any way, so the search takes what it is handed for a word only if it
/// is a code word; whether the decoder could have found a better one is not said.
#[derive(Debug)]
pub struct ErasureOutcome {
    pub codewords: Vec<u8>,
    pub corrected_symbols: u8,
}

/// How far a search has come: the words found, in rank order, and the decoding
/// attempts made.
pub ghost struct Search {
    pub found: Seq<Corrected>,
    pub attempts: int,
}

/// The limits of a search.
pub ghost struct Limits {
    pub attempts: int,
    pub results: int,
}

/// The search after one more attempt.
pub open spec fn tried(search: Search, outcome: Option<Corrected>) -> Search {
    Search {
        found: match outcome {
            Some(word) => with_found(search.found, word),
            None => search.found,
        },
        attempts: search.attempts + 1,
    }
}

/// Whether a search may make a further attempt.
pub open spec fn goes_on(search: Search, limits: Limits) -> bool {
    search.attempts < limits.attempts && search.found.len() < limits.results
}

/// The outcome of decoding `word`, which was reached by flipping `flips` bits.
pub open spec fn hard_outcome(word: Seq<u8>, ecc: int, flips: int) -> Option<Corrected> {
    match rs_corrected(word, ecc as nat) {
        Some((codewords, count)) => Some(
            Corrected {
                codewords,
                corrected_symbols: count as int,
                search_cost: 2 * count + flips,
            },
        ),
        None => None,
    }
}

/// What an erasure outcome is worth: a code word of the block's length counts,
/// anything else is a failed attempt.
pub open spec fn erasure_outcome(
    outcomes: Seq<Option<ErasureOutcome>>,
    k: int,
    length: int,
    ecc: int,
) -> Option<Corrected> {
    if k < outcomes.len() && outcomes[k] is Some && outcomes[k]->Some_0.codewords@.len() == length
        && is_code_word(outcomes[k]->Some_0.codewords@, ecc) {
        Some(
            Corrected {
                codewords: outcomes[k]->Some_0.codewords@,
                corrected_symbols: outcomes[k]->Some_0.corrected_symbols as int,
                search_cost: 2 * outcomes[k]->Some_0.corrected_symbols,
            },
        )
    } else {
        None
    }
}

/// The search after the erasure attempts from the `k`-th on.
pub open spec fn erasures_tried(
    search: Search,
    outcomes: Seq<Option<ErasureOutcome>>,
    k: int,
    length: int,
    ecc: int,
    limits: Limits,
) -> Search
    decreases ecc - k,
{
    if k >= ecc || search.attempts >= limits.attempts {
        search
    } else {
        let next = tried(search, erasure_outcome(outcomes, k, length, ecc));
        if goes_on(next, limits) {
            erasures_tried(next, outcomes, k + 1, length, ecc, limits)
        } else {
            next
        }
    }
}

/// `block` with the first `n` of the selected positions flipped. A position is
/// the number of a bit in the block.
pub open spec fn with_flips(
    block: Seq<u8>,
    positions: Seq<usize>,
    selection: Seq<usize>,
    n: int,
) -> Seq<u8>
    decreases n,
{
    if n <= 0 {
        block
    } else {
        let before = with_flips(block, positions, selection, n - 1);
        let bit = positions[selection[n - 1] as int] as int;
        before.update(bit / 8, before[bit / 8] ^ (1u8 << (7 - bit % 8) as u8))
    }
}

/// The first selection of `size` positions.
pub open spec fn first_selection(size: nat) -> Seq<usize> {
    Seq::new(size, |i: int| i as usize)
}

/// The last of the first `i` places of a selection that can move on, or -1.
pub open spec fn movable(selection: Seq<usize>, available: int, i: int) -> int
    decreases i,
{
    if i <= 0 {
        -1
    } else if selection[i - 1] < available - (selection.len() - (i - 1)) {
        i - 1
    } else {
        movable(selection, available, i - 1)
    }
}

/// The selection that follows in dictionary order: the last place that can
/// moves on by one, and the places behind it follow as closely as they can.
pub open spec fn next_selection(selection: Seq<usize>, available: int) -> Option<Seq<usize>> {
    let i = movable(selection, available, selection.len() as int);
    if i < 0 {
        None
    } else {
        Some(
            Seq::new(
                selection.len(),
                |j: int|
                    if j < i {
                        selection[j]
                    } else {
                        (selection[i] + 1 + j - i) as usize
                    },
            ),
        )
    }
}

/// The search after trying `selection` and everything behind it: all selections
/// of one size in dictionary order, then those of the next size, up to
/// `max_flips`.
pub open spec fn flips_tried(
    search: Search,
    block: Seq<u8>,
    ecc: int,
    positions: Seq<usize>,
    selection: Seq<usize>,
    max_flips: int,
    limits: Limits,
) -> Search
    decreases limits.attempts - search.attempts,
{
    if search.attempts >= limits.attempts {
        search
    } else {
        let word = with_flips(block, positions, selection, selection.len() as int);
        let next = tried(search, hard_outcome(word, ecc, selection.len() as int));
        if !goes_on(next, limits) {
            next
        } else {
            match next_selection(selection, positions.len() as int) {
                Some(following) => flips_tried(
                    next,
                    block,
                    ecc,
                    positions,
                    following,
                    max_flips,
                    limits,
                ),
                None => if selection.len() < max_flips {
                    flips_tried(
                        next,
                        block,
                        ecc,
                        positions,
                        first_selection(selection.len() + 1),
                        max_flips,
                        limits,
                    )
                } else {
                    next
                },
            }
        }
    }
}

/// The smallest of the first `n` values of a nonempty sequence.
pub open spec fn smallest(values: Seq<u32>, n: int) -> u32
    decreases n,
{
    if n <= 1 {
        values[0]
    } else if values[n - 1] < smallest(values, n - 1) {
        values[n - 1]
    } else {
        smallest(values, n - 1)
    }
}

/// The largest of the first `n` values of a nonempty sequence.
pub open spec fn largest(values: Seq<u32>, n: int) -> u32
    decreases n,
{
    if n <= 1 {
        values[0]
    } else if values[n - 1] > largest(values, n - 1) {
        values[n - 1]
    } else {
        largest(values, n - 1)
    }
}

/// Whether some bits are more reliable than others.
pub open spec fn reliabilities_differ(reliability: Seq<u32>) -> bool {
    let n = reliability.len() as int;
    largest(reliability, n) - smallest(reliability, n) > RELIABILITY_TOLERANCE
}

/// The reliability of a codeword: that of its least reliable bit, at most full.
pub open spec fn codeword_reliability(reliability: Seq<u32>, b: int) -> i64 {
    let least = smallest(reliability.subrange(8 * b, 8 * b + 8), 8);
    if least < FULL_RELIABILITY {
        least as i64
    } else {
        FULL_RELIABILITY as i64
    }
}

/// The codewords of a block from the least reliable on.
pub open spec fn codeword_order(reliability: Seq<u32>, length: nat) -> Seq<usize> {
    stable_order(Seq::new(length, |b: int| codeword_reliability(reliability, b)))
}

/// The bits of a block from the least reliable on.
pub open spec fn bit_order(reliability: Seq<u32>) -> Seq<usize> {
    stable_order(Seq::new(reliability.len(), |i: int| reliability[i] as i64))
}

/// The erasures worth trying: the least reliable codeword, then the two least
/// reliable, and so on up to as many as there are for error correction.
pub open spec fn erasure_lists(reliability: Seq<u32>, length: nat, ecc: int) -> Seq<Seq<u8>> {
    if reliabilities_differ(reliability) {
        Seq::new(
            ecc as nat,
            |k: int|
                Seq::new((k + 1) as nat, |i: int| codeword_order(reliability, length)[i] as u8),
        )
    } else {
        Seq::empty()
    }
}

/// The whole search for one block: the block itself; if reliabilities differ,
/// the erasures; and last, bit flips among the least reliable bits.
pub open spec fn block_search(
    block: Seq<u8>,
    reliability: Seq<u32>,
    ecc: int,
    uncertain_bits: int,
    limits: Limits,
    outcomes: Seq<Option<ErasureOutcome>>,
) -> Search {
    let start = Search { found: Seq::empty(), attempts: 0 };
    let hard = if limits.attempts > 0 {
        tried(start, hard_outcome(block, ecc, 0))
    } else {
        start
    };
    let erased = if reliabilities_differ(reliability) {
        erasures_tried(hard, outcomes, 0, block.len() as int, ecc, limits)
    } else {
        hard
    };
    if uncertain_bits > 0 && goes_on(erased, limits) {
        let order = bit_order(reliability);
        let positions = if uncertain_bits < order.len() {
            order.take(uncertain_bits)
        } else {
            order
        };
        let most = if uncertain_bits > 12 {
            4int
        } else {
            3
        };
        let max_flips = if most < positions.len() {
            most
        } else {
            positions.len() as int
        };
        flips_tried(erased, block, ecc, positions, first_selection(1), max_flips, limits)
    } else {
        erased
    }
}

/// The best `results` words of a list.
pub open spec fn best(found: Seq<Corrected>, results: int) -> Seq<Corrected> {
    if results < found.len() {
        found.take(results)
    } else {
        found
    }
}

/// Whether no two words of a list are the same.
pub open spec fn distinct_words(list: Seq<Corrected>) -> bool {
    forall|i: int, j: int|
        0 <= i < list.len() && 0 <= j < list.len() && i != j ==> (#[trigger] list[i]).codewords
            != (#[trigger] list[j]).codewords
}

/// A word that needs no correction.
pub open spec fn unchanged(word: Seq<u8>) -> Corrected {
    Corrected { codewords: word, corrected_symbols: 0, search_cost: 0 }
}

/// Whether no erasure outcome turns a block into another word for free.
pub open spec fn changes_cost(outcomes: Seq<Option<ErasureOutcome>>, block: Seq<u8>) -> bool {
    forall|k: int|
        0 <= k < outcomes.len() && (#[trigger] outcomes[k]) is Some
            && outcomes[k]->Some_0.codewords@ != block
            ==> outcomes[k]->Some_0.corrected_symbols > 0
}

/// Whether a list starts with an unchanged block, and everything else is another
/// word and costs something.
pub open spec fn leads_unchanged(found: Seq<Corrected>, block: Seq<u8>) -> bool {
    &&& found.len() > 0
    &&& found[0] == unchanged(block)
    &&& forall|i: int|
        1 <= i < found.len() ==> (#[trigger] found[i]).search_cost > 0 && found[i].codewords
            != block
}

proof fn lemma_ranked_behind(found: Seq<Corrected>, word: Corrected, block: Seq<u8>)
    requires
        leads_unchanged(found, block),
        word.search_cost > 0,
        word.codewords != block,
    ensures
        leads_unchanged(with_ranked(found, word), block),
    decreases found.len(),
{
    let next = with_ranked(found, word);
    if ranks_before(word, found.last()) {
        assert(found.len() > 1);
        let rest = found.drop_last();
        lemma_ranked_behind(rest, word, block);
        let inner = with_ranked(rest, word);
        assert forall|i: int| 1 <= i < next.len() implies (#[trigger] next[i]).search_cost > 0
            && next[i].codewords != block by {
            if i < inner.len() {
                assert(next[i] == inner[i]);
            }
        }
    }
}

proof fn lemma_found_behind(found: Seq<Corrected>, word: Corrected, block: Seq<u8>)
    requires
        leads_unchanged(found, block),
        word.codewords == block && word.search_cost >= 0 || word.search_cost > 0,
    ensures
        leads_unchanged(with_found(found, word), block),
{
    let n = found.len() as int;
    let at = place_of(found, word.codewords, n);
    lemma_place_of(found, word.codewords, n);
    if word.codewords == block && at < 0 {
        assert(found[0].codewords != block);
    }
    if at < 0 {
        lemma_ranked_behind(found, word, block);
    } else if found[at].search_cost > word.search_cost {
        assert(at > 0);
        let rest = found.remove(at);
        assert forall|i: int| 1 <= i < rest.len() implies (#[trigger] rest[i]).search_cost > 0
            && rest[i].codewords != block by {
            if i < at {
                assert(rest[i] == found[i]);
            } else {
                assert(rest[i] == found[i + 1]);
            }
        }
        lemma_ranked_behind(rest, word, block);
    }
}

proof fn lemma_erasures_behind(
    search: Search,
    outcomes: Seq<Option<ErasureOutcome>>,
    k: int,
    block: Seq<u8>,
    ecc: int,
    limits: Limits,
)
    requires
        leads_unchanged(search.found, block),
        changes_cost(outcomes, block),
        0 <= k,
    ensures
        leads_unchanged(
            erasures_tried(search, outcomes, k, block.len() as int, ecc, limits).found,
            block,
        ),
    decreases ecc - k,
{
    if k < ecc && search.attempts < limits.attempts {
        let outcome = erasure_outcome(outcomes, k, block.len() as int, ecc);
        let next = tried(search, outcome);
        if let Some(word) = outcome {
            lemma_found_behind(search.found, word, block);
        }
        if goes_on(next, limits) {
            lemma_erasures_behind(next, outcomes, k + 1, block, ecc, limits);
        }
    }
}

proof fn lemma_flips_behind(
    search: Search,
    block: Seq<u8>,
    ecc: int,
    positions: Seq<usize>,
    selection: Seq<usize>,
    max_flips: int,
    limits: Limits,
)
    requires
        leads_unchanged(search.found, block),
        selection.len() > 0,
    ensures
        leads_unchanged(
            flips_tried(search, block, ecc, positions, selection, max_flips, limits).found,
            block,
        ),
    decreases limits.attempts - search.attempts,
{
    if search.attempts < limits.attempts {
        let word = with_flips(block, positions, selection, selection.len() as int);
        let outcome = hard_outcome(word, ecc, selection.len() as int);
        let next = tried(search, outcome);
        if let Some(found) = outcome {
            lemma_found_behind(search.found, found, block);
        }
        if goes_on(next, limits) {
            match next_selection(selection, positions.len() as int) {
                Some(following) => {
                    lemma_flips_behind(
                        next,
                        block,
                        ecc,
                        positions,
                        following,
                        max_flips,
                        limits,
                    );
                },
                None => {
                    if selection.len() < max_flips {
                        lemma_flips_behind(
                            next,
                            block,
                            ecc,
                            positions,
                            first_selection(selection.len() + 1),
                            max_flips,
                            limits,
                        );
                    }
                },
            }
        }
    }
}

/// A block that decodes to itself for free leads what is found for it.
pub proof fn clean_blocks_lead(
    block: Seq<u8>,
    reliability: Seq<u32>,
    ecc: int,
    uncertain_bits: int,
    limits: Limits,
    outcomes: Seq<Option<ErasureOutcome>>,
)
    requires
        hard_outcome(block, ecc, 0) == Some(unchanged(block)),
        changes_cost(outcomes, block),
        limits.attempts > 0,
        limits.results > 0,
    ensures
        leads_unchanged(
            best(
                block_search(block, reliability, ecc, uncertain_bits, limits, outcomes).found,
                limits.results,
            ),
            block,
        ),
{
    let start = Search { found: Seq::empty(), attempts: 0 };
    let hard = tried(start, hard_outcome(block, ecc, 0));
    assert(hard.found =~= seq![unchanged(block)]);
    lemma_erasures_behind(hard, outcomes, 0, block, ecc, limits);
    let erased = if reliabilities_differ(reliability) {
        erasures_tried(hard, outcomes, 0, block.len() as int, ecc, limits)
    } else {
        hard
    };
    if uncertain_bits > 0 && goes_on(erased, limits) {
        let order = bit_order(reliability);
        let positions = if uncertain_bits < order.len() {
            order.take(uncertain_bits)
        } else {
            order
        };
        let most = if uncertain_bits > 12 {
            4int
        } else {
            3
        };
        let max_flips = if most < positions.len() {
            most
        } else {
            positions.len() as int
        };
        lemma_flips_behind(
            erased,
            block,
            ecc,
            positions,
            first_selection(1),
            max_flips,
            limits,
        );
    }
}

/// Whether a block can be a Reed-Solomon block and has eight reliabilities per
/// codeword.
pub open spec fn block_refusal(length: nat, reliabilities: nat, ecc: nat) -> Option<QrError> {
    if length == 0 || length > 255 || ecc == 0 || ecc >= length {
        Some(QrError::BlockDimensions)
    } else if reliabilities != 8 * length {
        Some(QrError::ReliabilityCount)
    } else {
        None
    }
}

fn check_block(length: usize, reliabilities: usize, ecc: usize) -> (refusal: Option<QrError>)
    ensures
        refusal == block_refusal(length as nat, reliabilities as nat, ecc as nat),
{
    if length == 0 || length > 255 || ecc == 0 || ecc >= length {
        Some(QrError::BlockDimensions)
    } else if reliabilities != length * 8 {
        Some(QrError::ReliabilityCount)
    } else {
        None
    }
}

proof fn lemma_extremes(values: Seq<u32>, n: int)
    requires
        1 <= n <= values.len(),
    ensures
        forall|i: int| 0 <= i < n ==> smallest(values, n) <= #[trigger] values[i] <= largest(
            values,
            n,
        ),
    decreases n,
{
    if n > 1 {
        lemma_extremes(values, n - 1);
    }
}

fn reliabilities_differ_of(reliability: &[u32]) -> (differ: bool)
    requires
        reliability@.len() > 0,
    ensures
        differ == reliabilities_differ(reliability@),
{
    let mut least: u32 = reliability[0];
    let mut most: u32 = reliability[0];
    let mut n: usize = 1;
    while n < reliability.len()
        invariant
            1 <= n <= reliability@.len(),
            least == smallest(reliability@, n as int),
            most == largest(reliability@, n as int),
        decreases reliability@.len() - n,
    {
        if reliability[n] < least {
            least = reliability[n];
        }
        if reliability[n] > most {
            most = reliability[n];
        }
        n += 1;
    }
    proof {
        lemma_extremes(reliability@, reliability@.len() as int);
        assert(smallest(reliability@, n as int) <= reliability@[0] <= largest(
            reliability@,
            n as int,
        ));
    }
    most - least > RELIABILITY_TOLERANCE
}

fn codeword_order_of(reliability: &[u32], length: usize) -> (order: Vec<usize>)
    requires
        length <= 255,
        reliability@.len() == 8 * length,
    ensures
        order@ == codeword_order(reliability@, length as nat),
        order@.len() == length,
        forall|i: int| 0 <= i < length ==> (#[trigger] order@[i]) < length,
{
    let mut keys: Vec<i64> = Vec::new();
    let ghost all = Seq::new(
        length as nat,
        |b: int| codeword_reliability(reliability@, b),
    );
    let mut b: usize = 0;
    while b < length
        invariant
            length <= 255,
            reliability@.len() == 8 * length,
            all == Seq::new(length as nat, |b: int| codeword_reliability(reliability@, b)),
            b <= length,
            keys@ == all.take(b as int),
        decreases length - b,
    {
        let ghost part = reliability@.subrange(8 * b, 8 * b + 8);
        let mut least: u32 = reliability[8 * b];
        let mut i: usize = 1;
        while i < 8
            invariant
                length <= 255,
                reliability@.len() == 8 * length,
                b < length,
                part == reliability@.subrange(8 * b, 8 * b + 8),
                1 <= i <= 8,
                least == smallest(part, i as int),
            decreases 8 - i,
        {
            assert(part[i as int] == reliability@[8 * b + i]);
            if reliability[8 * b + i] < least {
                least = reliability[8 * b + i];
            }
            i += 1;
        }
        let key: i64 = if least < FULL_RELIABILITY {
            least as i64
        } else {
            FULL_RELIABILITY as i64
        };
        keys.push(key);
        b += 1;
        assert(keys@ =~= all.take(b as int));
    }
    assert(keys@ =~= all);
    stable_order_of(&keys)
}

fn bit_order_of(reliability: &[u32]) -> (order: Vec<usize>)
    ensures
        order@ == bit_order(reliability@),
        order@.len() == reliability@.len(),
        forall|i: int| 0 <= i < order@.len() ==> (#[trigger] order@[i]) < reliability@.len(),
{
    let mut keys: Vec<i64> = Vec::new();
    let ghost all = Seq::new(reliability@.len(), |i: int| reliability@[i] as i64);
    let mut i: usize = 0;
    while i < reliability.len()
        invariant
            all == Seq::new(reliability@.len(), |i: int| reliability@[i] as i64),
            i <= reliability@.len(),
            keys@ == all.take(i as int),
        decreases reliability@.len() - i,
    {
        keys.push(reliability[i] as i64);
        i += 1;
        assert(keys@ =~= all.take(i as int));
    }
    assert(keys@ =~= all);
    stable_order_of(&keys)
}

/// Lists the erasures that are worth trying for a block, in the order in which
/// the search takes their outcomes.
pub fn erasure_plan(block: &[u8], bit_reliability: &[u32], ecc_len: usize) -> (plan: Result<
    Vec<Vec<u8>>,
    QrError,
>)
    ensures
        match block_refusal(block@.len(), bit_reliability@.len(), ecc_len as nat) {
            Some(error) => plan is Err && plan->Err_0 == error,
            None => plan is Ok && crate::interleave::contents(plan->Ok_0@) == erasure_lists(
                bit_reliability@,
                block@.len(),
                ecc_len as int,
            ),
        },
{
    if let Some(error) = check_block(block.len(), bit_reliability.len(), ecc_len) {
        return Err(error);
    }
    let mut plan: Vec<Vec<u8>> = Vec::new();
    if !reliabilities_differ_of(bit_reliability) {
        assert(crate::interleave::contents(plan@) =~= Seq::<Seq<u8>>::empty());
        return Ok(plan);
    }
    let order: Vec<usize> = codeword_order_of(bit_reliability, block.len());
    let ghost lists = erasure_lists(bit_reliability@, block@.len(), ecc_len as int);
    let mut list: Vec<u8> = Vec::new();
    while list.len() < ecc_len
        invariant
            ecc_len < block@.len() <= 255,
            reliabilities_differ(bit_reliability@),
            order@ == codeword_order(bit_reliability@, block@.len()),
            order@.len() == block@.len(),
            lists == erasure_lists(bit_reliability@, block@.len(), ecc_len as int),
            list@.len() <= ecc_len,
            plan@.len() == list@.len(),
            list@ =~= Seq::new(list@.len(), |i: int| order@[i] as u8),
            forall|k: int| 0 <= k < plan@.len() ==> (#[trigger] plan@[k])@ == lists[k],
        decreases ecc_len - list@.len(),
    {
        list.push(order[list.len()] as u8);
        let next: Vec<u8> = copy_bytes(list.as_slice());
        proof {
            assert(next@ =~= lists[plan@.len() as int]);
        }
        plan.push(next);
    }
    assert(crate::interleave::contents(plan@) =~= lists);
    Ok(plan)
}

/// The words found so far and the attempts made.
struct Progress {
    found: Vec<CorrectedBlock>,
    attempts: usize,
}

/// What every search keeps: its words are ranked, distinct code words of the
/// block's length.
spec fn sound(found: Seq<Corrected>, length: int, ecc: int) -> bool {
    &&& is_ranked(found)
    &&& forall|i: int, j: int|
        0 <= i < found.len() && 0 <= j < found.len() && i != j ==> (#[trigger] found[i]).codewords
            != (#[trigger] found[j]).codewords
    &&& forall|i: int|
        0 <= i < found.len() ==> {
            &&& (#[trigger] found[i]).codewords.len() == length
            &&& is_code_word(found[i].codewords, ecc)
            &&& 0 <= found[i].search_cost <= 600
            &&& 0 <= found[i].corrected_symbols <= 255
        }
}

proof fn lemma_sound(found: Seq<Corrected>, word: Corrected, length: int, ecc: int)
    requires
        sound(found, length, ecc),
        word.codewords.len() == length,
        is_code_word(word.codewords, ecc),
        0 <= word.search_cost <= 600,
        0 <= word.corrected_symbols <= 255,
    ensures
        sound(with_found(found, word), length, ecc),
{
    lemma_with_found(found, word);
    let next = with_found(found, word);
    assert forall|i: int| 0 <= i < next.len() implies {
        &&& (#[trigger] next[i]).codewords.len() == length
        &&& is_code_word(next[i].codewords, ecc)
        &&& 0 <= next[i].search_cost <= 600
        &&& 0 <= next[i].corrected_symbols <= 255
    } by {
        if next[i] != word {
            let k = found.index_of(next[i]);
            assert(found[k] == next[i]);
        }
    }
}

impl Progress {
    spec fn view(&self) -> Search {
        Search { found: corrected(self.found@), attempts: self.attempts as int }
    }

    fn goes_on(&self, max_attempts: usize, max_results: usize) -> (result: bool)
        ensures
            result == goes_on(
                self@,
                Limits { attempts: max_attempts as int, results: max_results as int },
            ),
    {
        self.attempts < max_attempts && self.found.len() < max_results
    }

    fn try_word(&mut self, word: &[u8], ecc: usize, flips: usize)
        requires
            1 <= ecc <= MAX_ECC,
            ecc < word@.len() <= 255,
            flips <= 8,
            old(self).attempts < usize::MAX,
            sound(old(self)@.found, word@.len() as int, ecc as int),
        ensures
            final(self)@ == tried(old(self)@, hard_outcome(word@, ecc as int, flips as int)),
            sound(final(self)@.found, word@.len() as int, ecc as int),
            is_code_word(word@, ecc as int) ==> hard_outcome(word@, ecc as int, 0) == Some(
                unchanged(word@),
            ),
    {
        self.attempts += 1;
        if let Some((codewords, count)) = rs_correct(word, ecc) {
            let found = CorrectedBlock {
                codewords,
                corrected_symbols: count,
                search_cost: 2 * count as u64 + flips as u64,
            };
            proof {
                lemma_sound(self@.found, found@, word@.len() as int, ecc as int);
            }
            note_found(&mut self.found, found);
        }
    }

    fn try_erasures(
        &mut self,
        outcomes: &Vec<Option<ErasureOutcome>>,
        k: usize,
        length: usize,
        ecc: usize,
    )
        requires
            1 <= ecc < length <= 255,
            old(self).attempts < usize::MAX,
            sound(old(self)@.found, length as int, ecc as int),
        ensures
            final(self)@ == tried(
                old(self)@,
                erasure_outcome(outcomes@, k as int, length as int, ecc as int),
            ),
            sound(final(self)@.found, length as int, ecc as int),
    {
        self.attempts += 1;
        if k < outcomes.len() {
            if let Some(outcome) = &outcomes[k] {
                if outcome.codewords.len() == length && !rs_is_corrupted(
                    outcome.codewords.as_slice(),
                    ecc,
                ) {
                    let found = CorrectedBlock {
                        codewords: copy_bytes(outcome.codewords.as_slice()),
                        corrected_symbols: outcome.corrected_symbols as usize,
                        search_cost: 2 * outcome.corrected_symbols as u64,
                    };
                    proof {
                        lemma_sound(self@.found, found@, length as int, ecc as int);
                    }
                    note_found(&mut self.found, found);
                }
            }
        }
    }
}

fn flip_selected(block: &[u8], positions: &Vec<usize>, selection: &Vec<usize>) -> (word: Vec<u8>)
    requires
        forall|i: int| 0 <= i < selection@.len() ==> (#[trigger] selection@[i]) < positions@.len(),
        forall|i: int|
            0 <= i < positions@.len() ==> (#[trigger] positions@[i]) < 8 * block@.len(),
    ensures
        word@ == with_flips(block@, positions@, selection@, selection@.len() as int),
        word@.len() == block@.len(),
{
    let mut word: Vec<u8> = copy_bytes(block);
    let mut n: usize = 0;
    while n < selection.len()
        invariant
            forall|i: int|
                0 <= i < selection@.len() ==> (#[trigger] selection@[i]) < positions@.len(),
            forall|i: int|
                0 <= i < positions@.len() ==> (#[trigger] positions@[i]) < 8 * block@.len(),
            n <= selection@.len(),
            word@ == with_flips(block@, positions@, selection@, n as int),
            word@.len() == block@.len(),
        decreases selection@.len() - n,
    {
        let bit: usize = positions[selection[n]];
        let shift: u8 = (7 - bit % 8) as u8;
        let byte: u8 = word[bit / 8];
        word.set(bit / 8, byte ^ (1u8 << shift));
        n += 1;
    }
    word
}

/// Places in increasing order, all below `available`.
pub open spec fn is_selection(selection: Seq<usize>, available: int) -> bool {
    &&& forall|i: int, j: int|
        0 <= i < j < selection.len() ==> (#[trigger] selection[i]) < (#[trigger] selection[j])
    &&& forall|i: int| 0 <= i < selection.len() ==> (#[trigger] selection[i]) < available
}

proof fn lemma_selection_room(selection: Seq<usize>, available: int, i: int)
    requires
        is_selection(selection, available),
        0 <= i < selection.len(),
    ensures
        selection[i] <= available - (selection.len() - i),
    decreases selection.len() - i,
{
    if i + 1 < selection.len() {
        lemma_selection_room(selection, available, i + 1);
    }
}

proof fn lemma_movable(selection: Seq<usize>, available: int, i: int)
    requires
        0 <= i <= selection.len(),
    ensures
        -1 <= movable(selection, available, i) < i || i == 0,
        movable(selection, available, i) >= 0 ==> selection[movable(selection, available, i)]
            < available - (selection.len() - movable(selection, available, i)),
        forall|j: int|
            movable(selection, available, i) < j < i ==> (#[trigger] selection[j]) >= available - (
            selection.len() - j),
    decreases i,
{
    if i > 0 {
        lemma_movable(selection, available, i - 1);
    }
}

/// Whether `a` comes before `b` in dictionary order.
pub open spec fn selected_before(a: Seq<usize>, b: Seq<usize>) -> bool {
    exists|i: int|
        0 <= i < a.len() && i < b.len() && #[trigger] a[i] < b[i] && a.take(i) == b.take(i)
}

/// The next selection is the least one behind: it comes later, and no selection
/// of its size lies between. After the last selection there is none.
pub proof fn next_selection_is_least(selection: Seq<usize>, available: int, other: Seq<usize>)
    requires
        is_selection(selection, available),
        is_selection(other, available),
        other.len() == selection.len(),
        available <= usize::MAX,
        selected_before(selection, other),
    ensures
        match next_selection(selection, available) {
            Some(next) => is_selection(next, available) && selected_before(selection, next) && (
            other == next || selected_before(next, other)),
            None => false,
        },
{
    let n = selection.len() as int;
    let i = movable(selection, available, n);
    lemma_movable(selection, available, n);
    let d = choose|d: int|
        0 <= d < selection.len() && d < other.len() && #[trigger] selection[d] < other[d]
            && selection.take(d) == other.take(d);
    lemma_selection_room(other, available, d);
    lemma_selection_room(selection, available, d);
    assert(d <= i);
    lemma_next_selection(selection, available);
    let next = next_selection(selection, available)->Some_0;
    assert(selection.take(i) =~= next.take(i));
    assert(selection[i] < next[i]);
    if d < i {
        assert(next[d] == selection[d]);
        assert(next.take(d) =~= selection.take(d));
        assert(next[d] < other[d]);
    } else {
        assert(next.take(i) =~= other.take(i));
        lemma_follows(next, other, i, i);
    }
}

/// Behind a common beginning, a selection that follows as closely as it can is
/// the least.
pub(crate) proof fn lemma_follows(next: Seq<usize>, other: Seq<usize>, i: int, j: int)
    requires
        0 <= i <= j <= next.len(),
        i < next.len() == other.len(),
        next[i] <= other[i],
        forall|k: int| i <= k < next.len() ==> #[trigger] next[k] == next[i] + k - i,
        forall|a: int, b: int|
            0 <= a < b < other.len() ==> (#[trigger] other[a]) < (#[trigger] other[b]),
        next.take(j) == other.take(j),
    ensures
        other == next || selected_before(next, other),
    decreases next.len() - j,
{
    if j == next.len() {
        assert(next =~= next.take(j) && other =~= other.take(j));
    } else {
        if j > i {
            assert(next[i] == next.take(j)[i] && other[i] == other.take(j)[i]);
            assert(next[j - 1] == next.take(j)[j - 1] && other[j - 1] == other.take(j)[j - 1]);
            assert(other[j - 1] < other[j]);
            assert(next[j] == next[i] + j - i);
            assert(next[j - 1] == next[i] + j - 1 - i);
        }
        assert(next[j] <= other[j]);
        if next[j] == other[j] {
            assert(next.take(j + 1) =~= next.take(j).push(next[j]));
            assert(other.take(j + 1) =~= other.take(j).push(other[j]));
            lemma_follows(next, other, i, j + 1);
        }
    }
}

pub(crate) proof fn lemma_next_selection(selection: Seq<usize>, available: int)
    requires
        is_selection(selection, available),
        available <= usize::MAX,
    ensures
        next_selection(selection, available) is Some ==> {
            let next = next_selection(selection, available)->Some_0;
            let i = movable(selection, available, selection.len() as int);
            &&& 0 <= i < selection.len()
            &&& next.len() == selection.len()
            &&& is_selection(next, available)
            &&& forall|j: int| 0 <= j < i ==> #[trigger] next[j] == selection[j]
            &&& forall|j: int|
                i <= j < next.len() ==> #[trigger] next[j] == selection[i] + 1 + j - i
        },
{
    let i = movable(selection, available, selection.len() as int);
    lemma_movable(selection, available, selection.len() as int);
    if i >= 0 {
        let next = next_selection(selection, available)->Some_0;
        assert forall|j: int| i <= j < next.len() implies #[trigger] next[j] == selection[i] + 1 + j
            - i by {
            assert(selection[i] + 1 + j - i <= available - 1);
        }
        assert forall|a: int, b: int| 0 <= a < b < next.len() implies (#[trigger] next[a]) < (
        #[trigger] next[b]) by {
            if a < i {
                assert(selection[a] < selection[i]);
                if b < i {
                    assert(selection[a] < selection[b]);
                }
            }
        }
    }
}

/// Moves on to the next selection, if there is one.
fn advance_selection(selection: &mut Vec<usize>, available: usize) -> (moved: bool)
    requires
        is_selection(old(selection)@, available as int),
    ensures
        moved == (next_selection(old(selection)@, available as int) is Some),
        moved ==> final(selection)@ == next_selection(
            old(selection)@,
            available as int,
        )->Some_0 && is_selection(final(selection)@, available as int),
        !moved ==> final(selection)@ == old(selection)@,
{
    let length: usize = selection.len();
    let ghost before = selection@;
    proof {
        lemma_next_selection(before, available as int);
        if length > 0 {
            lemma_selection_room(before, available as int, 0);
        }
    }
    let mut i: usize = length;
    while i > 0 && selection[i - 1] >= available - (length - (i - 1))
        invariant
            i <= length == selection@.len(),
            length <= available,
            selection@ == before,
            movable(before, available as int, length as int) == movable(
                before,
                available as int,
                i as int,
            ),
        decreases i,
    {
        i -= 1;
    }
    if i == 0 {
        return false;
    }
    let start: usize = selection[i - 1];
    let mut j: usize = i - 1;
    while j < length
        invariant
            0 < i <= length == selection@.len() == before.len(),
            i - 1 <= j <= length,
            start == before[i - 1],
            start < available - (length - (i - 1)),
            forall|k: int| 0 <= k < i - 1 ==> #[trigger] selection@[k] == before[k],
            forall|k: int|
                i - 1 <= k < j ==> #[trigger] selection@[k] == before[i - 1] + 1 + k - (i - 1),
        decreases length - j,
    {
        selection.set(j, start + 1 + (j - (i - 1)));
        j += 1;
    }
    assert(selection@ =~= next_selection(before, available as int)->Some_0);
    true
}

/// Runs the bit flips of a search.
fn try_flips(
    progress: &mut Progress,
    block: &[u8],
    ecc: usize,
    positions: &Vec<usize>,
    max_flips: usize,
    max_attempts: usize,
    max_results: usize,
)
    requires
        1 <= ecc <= MAX_ECC,
        ecc < block@.len() <= 255,
        1 <= max_flips <= 4,
        max_flips <= positions@.len(),
        forall|i: int|
            0 <= i < positions@.len() ==> (#[trigger] positions@[i]) < 8 * block@.len(),
        old(progress).attempts < max_attempts,
        sound(old(progress)@.found, block@.len() as int, ecc as int),
    ensures
        final(progress)@ == flips_tried(
            old(progress)@,
            block@,
            ecc as int,
            positions@,
            first_selection(1),
            max_flips as int,
            Limits { attempts: max_attempts as int, results: max_results as int },
        ),
        sound(final(progress)@.found, block@.len() as int, ecc as int),
        final(progress).attempts <= max_attempts,
{
    let ghost limits = Limits { attempts: max_attempts as int, results: max_results as int };
    let ghost goal = flips_tried(
        progress@,
        block@,
        ecc as int,
        positions@,
        first_selection(1),
        max_flips as int,
        limits,
    );
    let mut selection: Vec<usize> = Vec::new();
    selection.push(0);
    assert(selection@ =~= first_selection(1));
    let available: usize = positions.len();
    loop
        invariant
            1 <= ecc <= MAX_ECC,
            ecc < block@.len() <= 255,
            1 <= max_flips <= 4,
            max_flips <= positions@.len(),
            available == positions@.len(),
            forall|i: int|
                0 <= i < positions@.len() ==> (#[trigger] positions@[i]) < 8 * block@.len(),
            limits == (Limits { attempts: max_attempts as int, results: max_results as int }),
            progress.attempts < max_attempts,
            sound(progress@.found, block@.len() as int, ecc as int),
            1 <= selection@.len() <= max_flips,
            is_selection(selection@, available as int),
            goal == flips_tried(
                old(progress)@,
                block@,
                ecc as int,
                positions@,
                first_selection(1),
                max_flips as int,
                limits,
            ),
            goal == flips_tried(
                progress@,
                block@,
                ecc as int,
                positions@,
                selection@,
                max_flips as int,
                limits,
            ),
        decreases max_attempts - progress.attempts,
    {
        let word: Vec<u8> = flip_selected(block, positions, &selection);
        progress.try_word(word.as_slice(), ecc, selection.len());
        if !progress.goes_on(max_attempts, max_results) {
            return ;
        }
        let ghost current = selection@;
        if !advance_selection(&mut selection, available) {
            let size: usize = selection.len();
            if size >= max_flips {
                return ;
            }
            let mut i: usize = 0;
            while i < size
                invariant
                    i <= size == selection@.len(),
                    forall|k: int| 0 <= k < i ==> #[trigger] selection@[k] == k,
                decreases size - i,
            {
                selection.set(i, i);
                i += 1;
            }
            selection.push(size);
            assert(selection@ =~= first_selection((size + 1) as nat));
        }
    }
}

/// Searches for the code words near `block`: cheapest first, at most
/// `max_results` of them, with at most `max_attempts` decoding attempts.
///
/// `erasure_outcomes` holds, for each list of [`erasure_plan`], what a decoder
/// made of the block with those codewords erased; a missing outcome counts as a
/// failed attempt.
pub fn correct_block_candidates_native(
    block: &[u8],
    bit_reliability: &[u32],
    ecc_len: usize,
    uncertain_bits: usize,
    max_attempts: usize,
    max_results: usize,
    erasure_outcomes: &Vec<Option<ErasureOutcome>>,
) -> (searched: Result<(Vec<CorrectedBlock>, usize), QrError>)
    requires
        ecc_len <= MAX_ECC || ecc_len >= block@.len(),
    ensures
        match block_refusal(block@.len(), bit_reliability@.len(), ecc_len as nat) {
            Some(error) => searched is Err && searched->Err_0 == error,
            None => searched is Ok && {
                let search = block_search(
                    block@,
                    bit_reliability@,
                    ecc_len as int,
                    uncertain_bits as int,
                    Limits { attempts: max_attempts as int, results: max_results as int },
                    erasure_outcomes@,
                );
                let list = corrected(searched->Ok_0.0@);
                &&& list == best(search.found, max_results as int)
                &&& searched->Ok_0.1 == search.attempts
                &&& searched->Ok_0.1 <= max_attempts
                &&& list.len() <= max_results
                &&& is_ranked(list)
                &&& distinct_words(list)
                &&& forall|i: int|
                    0 <= i < list.len() ==> {
                        &&& (#[trigger] list[i]).codewords.len() == block@.len()
                        &&& is_code_word(list[i].codewords, ecc_len as int)
                        &&& 0 <= list[i].search_cost <= 600
                        &&& 0 <= list[i].corrected_symbols <= 255
                    }
                &&& is_code_word(block@, ecc_len as int) && changes_cost(
                    erasure_outcomes@,
                    block@,
                ) && max_attempts > 0 && max_results > 0 ==> leads_unchanged(list, block@)
            },
        },
{
    if let Some(error) = check_block(block.len(), bit_reliability.len(), ecc_len) {
        return Err(error);
    }
    let ghost limits = Limits { attempts: max_attempts as int, results: max_results as int };
    let mut progress = Progress { found: Vec::new(), attempts: 0 };
    assert(progress@.found =~= Seq::<Corrected>::empty());
    if max_attempts > 0 {
        progress.try_word(block, ecc_len, 0);
    }
    let ghost hard = progress@;
    if reliabilities_differ_of(bit_reliability) {
        let ghost goal = erasures_tried(
            hard,
            erasure_outcomes@,
            0,
            block@.len() as int,
            ecc_len as int,
            limits,
        );
        let mut k: usize = 0;
        let length: usize = block.len();
        while k < ecc_len && progress.attempts < max_attempts
            invariant_except_break
                1 <= ecc_len < length == block@.len() <= 255,
                ecc_len <= MAX_ECC,
                k <= ecc_len,
                progress.attempts <= max_attempts,
                limits == (Limits { attempts: max_attempts as int, results: max_results as int }),
                sound(progress@.found, length as int, ecc_len as int),
                goal == erasures_tried(
                    progress@,
                    erasure_outcomes@,
                    k as int,
                    length as int,
                    ecc_len as int,
                    limits,
                ),
            ensures
                goal == progress@,
                progress.attempts <= max_attempts,
                sound(progress@.found, length as int, ecc_len as int),
            decreases ecc_len - k,
        {
            progress.try_erasures(erasure_outcomes, k, length, ecc_len);
            if !progress.goes_on(max_attempts, max_results) {
                break ;
            }
            k += 1;
        }
    }
    if uncertain_bits > 0 && progress.goes_on(max_attempts, max_results) {
        let mut positions: Vec<usize> = bit_order_of(bit_reliability);
        if uncertain_bits < positions.len() {
            positions.truncate(uncertain_bits);
            assert(positions@ =~= bit_order(bit_reliability@).take(uncertain_bits as int));
        }
        let most: usize = if uncertain_bits > 12 {
            4
        } else {
            3
        };
        let max_flips: usize = if most < positions.len() {
            most
        } else {
            positions.len()
        };
        try_flips(
            &mut progress,
            block,
            ecc_len,
            &positions,
            max_flips,
            max_attempts,
            max_results,
        );
    }
    let ghost found = progress@.found;
    let attempts: usize = progress.attempts;
    let mut list: Vec<CorrectedBlock> = progress.found;
    if max_results < list.len() {
        list.truncate(max_results);
        assert(corrected(list@) =~= found.take(max_results as int));
    }
    proof {
        assert forall|i: int| 0 <= i < corrected(list@).len() implies #[trigger] corrected(
            list@,
        )[i] == found[i] by {
        }
        if is_code_word(block@, ecc_len as int) && changes_cost(erasure_outcomes@, block@)
            && max_attempts > 0 && max_results > 0 {
            clean_blocks_lead(
                block@,
                bit_reliability@,
                ecc_len as int,
                uncertain_bits as int,
                limits,
                erasure_outcomes@,
            );
        }
    }
    Ok((list, attempts))
}

} // verus!
