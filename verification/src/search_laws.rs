//! What the soft-decision search of a block looks for, bit by bit.

use vstd::prelude::*;

use crate::bits::{bit_at, bit_of, byte_bits, lemma_byte_bits};
use crate::candidates::{lemma_place_of, place_of, with_found, with_ranked, Corrected};
use crate::codewords::FULL_RELIABILITY;
use crate::correction::{
    bit_order, block_search, codeword_order, codeword_reliability, erasure_lists, erasure_outcome,
    erasures_tried, first_selection, flips_tried, goes_on, hard_outcome, is_selection, largest,
    lemma_follows, lemma_next_selection, next_selection, next_selection_is_least,
    reliabilities_differ, selected_before, smallest, tried, with_flips, ErasureOutcome, Limits,
    Search,
};
use crate::order::{placed, sorted_indices, sorted_indices_in_order};
use crate::reed_solomon_code::{is_code_word, rs_corrected};

verus! {

/// Bits that are distinct and lie in a block of `length` codewords.
pub open spec fn are_bits(positions: Seq<usize>, length: int) -> bool {
    &&& forall|i: int| 0 <= i < positions.len() ==> (#[trigger] positions[i]) < 8 * length
    &&& forall|i: int, j: int|
        0 <= i < positions.len() && 0 <= j < positions.len() && i != j ==> (#[trigger] positions[i])
            != (#[trigger] positions[j])
}

/// Whether bit `b` is one of the first `n` selected ones.
pub open spec fn is_selected(
    positions: Seq<usize>,
    selection: Seq<usize>,
    n: int,
    b: int,
) -> bool {
    exists|k: int| 0 <= k < n && positions[(#[trigger] selection[k]) as int] == b
}

proof fn lemma_flip(byte: u8, j: int, k: int)
    requires
        0 <= j < 8,
        0 <= k < 8,
    ensures
        bit_of(byte ^ (1u8 << (7 - j) as u8), k) == (if j == k {
            !bit_of(byte, k)
        } else {
            bit_of(byte, k)
        }),
{
    let s = (7 - j) as u8;
    let t = (7 - k) as u8;
    assert((((byte ^ (1u8 << s)) >> t) & 1 != 0) == (if s == t {
        !((byte >> t) & 1 != 0)
    } else {
        (byte >> t) & 1 != 0
    })) by (bit_vector)
        requires
            s < 8,
            t < 8,
    ;
}

proof fn lemma_flips(
    block: Seq<u8>,
    positions: Seq<usize>,
    selection: Seq<usize>,
    n: int,
    b: int,
)
    requires
        are_bits(positions, block.len() as int),
        is_selection(selection, positions.len() as int),
        0 <= n <= selection.len(),
        0 <= b < 8 * block.len(),
    ensures
        with_flips(block, positions, selection, n).len() == block.len(),
        bit_at(with_flips(block, positions, selection, n), b) != bit_at(block, b) <==> is_selected(
            positions,
            selection,
            n,
            b,
        ),
    decreases n,
{
    if n > 0 {
        lemma_flips(block, positions, selection, n - 1, b);
        let before = with_flips(block, positions, selection, n - 1);
        let bit = positions[selection[n - 1] as int] as int;
        lemma_flip(before[bit / 8], bit % 8, b % 8);
        if b == bit {
            assert(selection[n - 1] == selection[n - 1]);
            assert forall|k: int| 0 <= k < n - 1 implies positions[(
            #[trigger] selection[k]) as int] != b by {
                assert(selection[k] < selection[n - 1]);
            }
            assert(!is_selected(positions, selection, n - 1, b));
            assert(is_selected(positions, selection, n, b));
        } else {
            assert(bit / 8 != b / 8 || bit % 8 != b % 8);
            if is_selected(positions, selection, n, b) {
                let k = choose|k: int|
                    0 <= k < n && positions[(#[trigger] selection[k]) as int] == b;
                assert(k < n - 1);
            }
            if is_selected(positions, selection, n - 1, b) {
                let k = choose|k: int|
                    0 <= k < n - 1 && positions[(#[trigger] selection[k]) as int] == b;
                assert(selection[k] == selection[k]);
            }
        }
    }
}

/// A tentative word differs from the received block in the selected bits and in
/// no other, bits counted through the block from the most significant on.
pub proof fn flips_change_the_selected_bits(
    block: Seq<u8>,
    positions: Seq<usize>,
    selection: Seq<usize>,
    b: int,
)
    requires
        are_bits(positions, block.len() as int),
        is_selection(selection, positions.len() as int),
        0 <= b < 8 * block.len(),
    ensures
        ({
            let word = with_flips(block, positions, selection, selection.len() as int);
            &&& word.len() == block.len()
            &&& bit_at(word, b) != bit_at(block, b) <==> exists|k: int|
                0 <= k < selection.len() && positions[(#[trigger] selection[k]) as int] == b
        }),
{
    lemma_flips(block, positions, selection, selection.len() as int, b);
}

/// Whether `word` is `block` with the selected bits flipped and no other.
pub open spec fn differs_in(
    word: Seq<u8>,
    block: Seq<u8>,
    positions: Seq<usize>,
    selection: Seq<usize>,
) -> bool {
    &&& word.len() == block.len()
    &&& forall|b: int|
        0 <= b < 8 * block.len() ==> (#[trigger] bit_at(word, b) != bit_at(block, b) <==> is_selected(
            positions,
            selection,
            selection.len() as int,
            b,
        ))
}

pub(crate) proof fn lemma_same_bits(a: Seq<u8>, b: Seq<u8>)
    requires
        a.len() == b.len(),
        forall|i: int| 0 <= i < 8 * a.len() ==> #[trigger] bit_at(a, i) == bit_at(b, i),
    ensures
        a == b,
{
    assert forall|n: int| 0 <= n < a.len() implies a[n] == b[n] by {
        assert forall|i: int| 0 <= i < 8 implies byte_bits(a[n])[i] == byte_bits(b[n])[i] by {
            assert(bit_at(a, 8 * n + i) == bit_at(b, 8 * n + i));
            assert((8 * n + i) / 8 == n && (8 * n + i) % 8 == i);
        }
        assert(byte_bits(a[n]) =~= byte_bits(b[n]));
        lemma_byte_bits(a[n]);
        lemma_byte_bits(b[n]);
    }
    assert(a =~= b);
}

/// One word differs from a block in the selected bits alone: the one that
/// flipping gives.
pub(crate) proof fn lemma_one_word(
    word: Seq<u8>,
    block: Seq<u8>,
    positions: Seq<usize>,
    selection: Seq<usize>,
)
    requires
        are_bits(positions, block.len() as int),
        is_selection(selection, positions.len() as int),
    ensures
        differs_in(word, block, positions, selection) <==> word == with_flips(
            block,
            positions,
            selection,
            selection.len() as int,
        ),
{
    let flipped = with_flips(block, positions, selection, selection.len() as int);
    lemma_flipped_length(block, positions, selection, selection.len() as int);
    assert forall|b: int| 0 <= b < 8 * block.len() implies (#[trigger] bit_at(flipped, b) != bit_at(
        block,
        b,
    ) <==> is_selected(positions, selection, selection.len() as int, b)) by {
        lemma_flips(block, positions, selection, selection.len() as int, b);
    }
    if differs_in(word, block, positions, selection) {
        assert forall|b: int| 0 <= b < 8 * word.len() implies #[trigger] bit_at(word, b) == bit_at(
            flipped,
            b,
        ) by {
            assert(bit_at(flipped, b) != bit_at(block, b) <==> is_selected(
                positions,
                selection,
                selection.len() as int,
                b,
            ));
        }
        lemma_same_bits(word, flipped);
    }
}

proof fn lemma_flipped_length(
    block: Seq<u8>,
    positions: Seq<usize>,
    selection: Seq<usize>,
    n: int,
)
    requires
        are_bits(positions, block.len() as int),
        is_selection(selection, positions.len() as int),
        0 <= n <= selection.len(),
    ensures
        with_flips(block, positions, selection, n).len() == block.len(),
    decreases n,
{
    if n > 0 {
        lemma_flipped_length(block, positions, selection, n - 1);
        let bit = positions[selection[n - 1] as int] as int;
        assert(0 <= bit / 8 < block.len());
    }
}

/// The bits that a search may flip.
pub open spec fn searched_bits(reliability: Seq<u32>, uncertain_bits: int) -> Seq<usize> {
    let order = bit_order(reliability);
    if uncertain_bits < order.len() {
        order.take(uncertain_bits)
    } else {
        order
    }
}

/// Whether `bits` are the `count` least reliable bits, the least reliable first:
/// no other bit is less reliable, and of equally reliable ones the first count.
pub open spec fn are_least_reliable(
    bits: Seq<usize>,
    reliability: Seq<u32>,
    count: int,
) -> bool {
    &&& bits.len() == (if count < reliability.len() {
        count
    } else {
        reliability.len() as int
    })
    &&& forall|i: int| 0 <= i < bits.len() ==> (#[trigger] bits[i]) < reliability.len()
    &&& forall|i: int, j: int|
        0 <= i < j < bits.len() ==> (reliability[(#[trigger] bits[i]) as int] < reliability[(
        #[trigger] bits[j]) as int] || (reliability[bits[i] as int] == reliability[bits[j] as int]
            && bits[i] < bits[j]))
    &&& forall|i: int, b: usize|
        0 <= i < bits.len() && b < reliability.len() && !(#[trigger] bits.contains(b)) ==> (
        reliability[(#[trigger] bits[i]) as int] < reliability[b as int] || (
        reliability[bits[i] as int] == reliability[b as int] && bits[i] < b))
}

proof fn lemma_placed_holds(order: Seq<usize>, keys: Seq<i64>, item: usize, x: usize)
    requires
        x == item || order.contains(x),
    ensures
        placed(order, keys, item).contains(x),
    decreases order.len(),
{
    let next = placed(order, keys, item);
    if order.len() == 0 || keys[order.last() as int] <= keys[item as int] {
        if x == item {
            assert(next[order.len() as int] == item);
        } else {
            let i = choose|i: int| 0 <= i < order.len() && order[i] == x;
            assert(next[i] == x);
        }
    } else {
        let rest = order.drop_last();
        if x != item {
            let i = choose|i: int| 0 <= i < order.len() && order[i] == x;
            if i < rest.len() {
                assert(rest[i] == x);
            }
        }
        if x == item || rest.contains(x) {
            lemma_placed_holds(rest, keys, item, x);
            let part = placed(rest, keys, item);
            let i = choose|i: int| 0 <= i < part.len() && part[i] == x;
            assert(next[i] == x);
        } else {
            assert(next.last() == x);
            assert(next[next.len() - 1] == x);
        }
    }
}

/// Sorting keeps every index.
pub proof fn sorting_keeps_all(keys: Seq<i64>, n: int, x: usize)
    requires
        0 <= x < n <= usize::MAX,
    ensures
        sorted_indices(keys, n).contains(x),
    decreases n,
{
    if x < n - 1 {
        sorting_keeps_all(keys, n - 1, x);
    }
    lemma_placed_holds(sorted_indices(keys, n - 1), keys, (n - 1) as usize, x);
}

/// What a search flips are the least reliable bits of the block.
pub proof fn least_reliable_bits_are_searched(reliability: Seq<u32>, uncertain_bits: int)
    requires
        0 <= uncertain_bits,
        reliability.len() <= usize::MAX,
    ensures
        are_least_reliable(searched_bits(reliability, uncertain_bits), reliability, uncertain_bits),
{
    let n = reliability.len() as int;
    let keys = Seq::new(reliability.len(), |i: int| reliability[i] as i64);
    sorted_indices_in_order(keys, n);
    let order = bit_order(reliability);
    let bits = searched_bits(reliability, uncertain_bits);
    assert(order == sorted_indices(keys, n));
    assert forall|i: int| 0 <= i < bits.len() implies (#[trigger] bits[i]) < reliability.len() by {
        assert(bits[i] == order[i]);
    }
    assert forall|i: int, j: int| 0 <= i < j < bits.len() implies (reliability[(
    #[trigger] bits[i]) as int] < reliability[(#[trigger] bits[j]) as int] || (
    reliability[bits[i] as int] == reliability[bits[j] as int] && bits[i] < bits[j])) by {
        assert(bits[i] == order[i] && bits[j] == order[j]);
        assert(keys[order[i] as int] == reliability[order[i] as int]);
        assert(keys[order[j] as int] == reliability[order[j] as int]);
    }
    assert forall|i: int, b: usize|
        0 <= i < bits.len() && b < reliability.len() && !(#[trigger] bits.contains(b)) implies (
    reliability[(#[trigger] bits[i]) as int] < reliability[b as int] || (reliability[bits[i] as int]
        == reliability[b as int] && bits[i] < b)) by {
        sorting_keeps_all(keys, n, b);
        let j = choose|j: int| 0 <= j < order.len() && order[j] == b;
        if j < bits.len() {
            assert(bits[j] == b);
        }
        assert(bits[i] == order[i] && order[j] == b);
        assert(keys[order[i] as int] == reliability[order[i] as int]);
        assert(keys[order[j] as int] == reliability[order[j] as int]);
    }
}

proof fn lemma_are_bits(bits: Seq<usize>, reliability: Seq<u32>, count: int, length: int)
    requires
        are_least_reliable(bits, reliability, count),
        reliability.len() == 8 * length,
    ensures
        are_bits(bits, length),
{
    assert forall|i: int, j: int|
        0 <= i < bits.len() && 0 <= j < bits.len() && i != j implies (#[trigger] bits[i]) != (
    #[trigger] bits[j]) by {
        if i < j {
            assert(bits[i] as int != bits[j] as int || reliability[bits[i] as int]
                != reliability[bits[j] as int]);
        } else {
            assert(bits[j] as int != bits[i] as int || reliability[bits[j] as int]
                != reliability[bits[i] as int]);
        }
    }
}

/// How many bits a search flips at once at most.
pub open spec fn most_flips(uncertain_bits: int) -> int {
    if uncertain_bits > 12 {
        4
    } else {
        3
    }
}

/// Whether hard decoding of `word`, which took `flips` flips, gives `found`. The
/// cost counts two for each corrected codeword and one for each flip.
pub open spec fn decodes_to(word: Seq<u8>, ecc: int, flips: int, found: Corrected) -> bool {
    match rs_corrected(word, ecc as nat) {
        Some((codewords, count)) => {
            &&& found.codewords == codewords
            &&& found.corrected_symbols == count
            &&& found.search_cost == count + count + flips
        },
        None => false,
    }
}

/// Whether `found` is what decoding gives after flipping at most so many of the
/// given bits.
pub open spec fn is_flip_of(
    found: Corrected,
    block: Seq<u8>,
    ecc: int,
    bits: Seq<usize>,
    most: int,
) -> bool {
    exists|word: Seq<u8>, selection: Seq<usize>| #[trigger]
        differs_in(word, block, bits, selection) && is_selection(selection, bits.len() as int)
            && selection.len() <= most && decodes_to(word, ecc, selection.len() as int, found)
}

/// Whether `found` is what a decoder made of the block with some codewords
/// erased, a code word of the block's length, at two for each corrected codeword.
pub open spec fn is_outcome_of(
    found: Corrected,
    outcomes: Seq<Option<ErasureOutcome>>,
    length: int,
    ecc: int,
) -> bool {
    exists|k: int|
        0 <= k < outcomes.len() && k < ecc && (#[trigger] outcomes[k]) is Some
            && found.codewords == outcomes[k]->Some_0.codewords@ && found.codewords.len() == length
            && is_code_word(found.codewords, ecc) && found.corrected_symbols
            == outcomes[k]->Some_0.corrected_symbols && found.search_cost
            == found.corrected_symbols + found.corrected_symbols
}

/// Whether everything a search has found has one of its two sources.
pub open spec fn is_explained(
    search: Search,
    block: Seq<u8>,
    ecc: int,
    bits: Seq<usize>,
    most: int,
    outcomes: Seq<Option<ErasureOutcome>>,
) -> bool {
    forall|i: int|
        0 <= i < search.found.len() ==> is_flip_of(
            #[trigger] search.found[i],
            block,
            ecc,
            bits,
            most,
        ) || is_outcome_of(search.found[i], outcomes, block.len() as int, ecc)
}

pub(crate) proof fn lemma_ranked_member(list: Seq<Corrected>, word: Corrected, i: int)
    requires
        0 <= i < with_ranked(list, word).len(),
    ensures
        with_ranked(list, word)[i] == word || exists|j: int|
            0 <= j < list.len() && #[trigger] list[j] == with_ranked(list, word)[i],
    decreases list.len(),
{
    let next = with_ranked(list, word);
    if next == list.push(word) {
        if i < list.len() {
            assert(list[i] == next[i]);
        }
    } else {
        let rest = list.drop_last();
        let part = with_ranked(rest, word);
        if i < part.len() {
            lemma_ranked_member(rest, word, i);
            if part[i] != word {
                let j = choose|j: int| 0 <= j < rest.len() && #[trigger] rest[j] == part[i];
                assert(list[j] == next[i]);
            }
        } else {
            assert(list[list.len() - 1] == next[i]);
        }
    }
}

proof fn lemma_found_member(list: Seq<Corrected>, word: Corrected, i: int)
    requires
        0 <= i < with_found(list, word).len(),
    ensures
        with_found(list, word)[i] == word || exists|j: int|
            0 <= j < list.len() && #[trigger] list[j] == with_found(list, word)[i],
{
    let at = place_of(list, word.codewords, list.len() as int);
    lemma_place_of(list, word.codewords, list.len() as int);
    let next = with_found(list, word);
    if at < 0 {
        lemma_ranked_member(list, word, i);
    } else if list[at].search_cost <= word.search_cost {
        assert(list[i] == next[i]);
    } else {
        let rest = list.remove(at);
        lemma_ranked_member(rest, word, i);
        if next[i] != word {
            let j = choose|j: int| 0 <= j < rest.len() && #[trigger] rest[j] == next[i];
            if j < at {
                assert(list[j] == next[i]);
            } else {
                assert(list[j + 1] == next[i]);
            }
        }
    }
}

proof fn lemma_tried_explained(
    search: Search,
    outcome: Option<Corrected>,
    block: Seq<u8>,
    ecc: int,
    bits: Seq<usize>,
    most: int,
    outcomes: Seq<Option<ErasureOutcome>>,
)
    requires
        is_explained(search, block, ecc, bits, most, outcomes),
        outcome is Some ==> is_flip_of(outcome->Some_0, block, ecc, bits, most) || is_outcome_of(
            outcome->Some_0,
            outcomes,
            block.len() as int,
            ecc,
        ),
    ensures
        is_explained(tried(search, outcome), block, ecc, bits, most, outcomes),
{
    if let Some(word) = outcome {
        let next = tried(search, outcome);
        assert forall|i: int| 0 <= i < next.found.len() implies is_flip_of(
            #[trigger] next.found[i],
            block,
            ecc,
            bits,
            most,
        ) || is_outcome_of(next.found[i], outcomes, block.len() as int, ecc) by {
            lemma_found_member(search.found, word, i);
            if next.found[i] != word {
                let j = choose|j: int|
                    0 <= j < search.found.len() && #[trigger] search.found[j] == next.found[i];
                assert(is_flip_of(search.found[j], block, ecc, bits, most) || is_outcome_of(
                    search.found[j],
                    outcomes,
                    block.len() as int,
                    ecc,
                ));
            }
        }
    }
}

proof fn lemma_erasures_explained(
    search: Search,
    outcomes: Seq<Option<ErasureOutcome>>,
    k: int,
    block: Seq<u8>,
    ecc: int,
    limits: Limits,
    bits: Seq<usize>,
    most: int,
)
    requires
        is_explained(search, block, ecc, bits, most, outcomes),
        0 <= k,
    ensures
        is_explained(
            erasures_tried(search, outcomes, k, block.len() as int, ecc, limits),
            block,
            ecc,
            bits,
            most,
            outcomes,
        ),
    decreases ecc - k,
{
    if k < ecc && search.attempts < limits.attempts {
        let outcome = erasure_outcome(outcomes, k, block.len() as int, ecc);
        let next = tried(search, outcome);
        if outcome is Some {
            assert(outcomes[k] is Some);
            assert(is_outcome_of(outcome->Some_0, outcomes, block.len() as int, ecc));
        }
        lemma_tried_explained(search, outcome, block, ecc, bits, most, outcomes);
        if goes_on(next, limits) {
            lemma_erasures_explained(next, outcomes, k + 1, block, ecc, limits, bits, most);
        }
    }
}

proof fn lemma_word_explained(
    block: Seq<u8>,
    ecc: int,
    bits: Seq<usize>,
    selection: Seq<usize>,
    most: int,
)
    requires
        are_bits(bits, block.len() as int),
        is_selection(selection, bits.len() as int),
        selection.len() <= most,
    ensures
        ({
            let word = with_flips(block, bits, selection, selection.len() as int);
            hard_outcome(word, ecc, selection.len() as int) matches Some(found) ==> is_flip_of(
                found,
                block,
                ecc,
                bits,
                most,
            )
        }),
{
    let word = with_flips(block, bits, selection, selection.len() as int);
    lemma_one_word(word, block, bits, selection);
    if let Some(found) = hard_outcome(word, ecc, selection.len() as int) {
        assert(decodes_to(word, ecc, selection.len() as int, found));
        assert(differs_in(word, block, bits, selection));
    }
}

proof fn lemma_first_selection(size: nat, available: int)
    requires
        size <= available <= usize::MAX,
    ensures
        is_selection(first_selection(size), available),
        first_selection(size).len() == size,
{
}

proof fn lemma_flips_explained(
    search: Search,
    block: Seq<u8>,
    ecc: int,
    bits: Seq<usize>,
    selection: Seq<usize>,
    max_flips: int,
    limits: Limits,
    most: int,
    outcomes: Seq<Option<ErasureOutcome>>,
)
    requires
        is_explained(search, block, ecc, bits, most, outcomes),
        are_bits(bits, block.len() as int),
        is_selection(selection, bits.len() as int),
        selection.len() <= max_flips <= most,
        max_flips <= bits.len() <= usize::MAX,
    ensures
        is_explained(
            flips_tried(search, block, ecc, bits, selection, max_flips, limits),
            block,
            ecc,
            bits,
            most,
            outcomes,
        ),
    decreases limits.attempts - search.attempts,
{
    if search.attempts < limits.attempts {
        let word = with_flips(block, bits, selection, selection.len() as int);
        let outcome = hard_outcome(word, ecc, selection.len() as int);
        let next = tried(search, outcome);
        lemma_word_explained(block, ecc, bits, selection, most);
        lemma_tried_explained(search, outcome, block, ecc, bits, most, outcomes);
        if goes_on(next, limits) {
            lemma_next_selection(selection, bits.len() as int);
            match next_selection(selection, bits.len() as int) {
                Some(following) => {
                    lemma_flips_explained(
                        next,
                        block,
                        ecc,
                        bits,
                        following,
                        max_flips,
                        limits,
                        most,
                        outcomes,
                    );
                },
                None => {
                    if selection.len() < max_flips {
                        lemma_first_selection(selection.len() + 1, bits.len() as int);
                        lemma_flips_explained(
                            next,
                            block,
                            ecc,
                            bits,
                            first_selection(selection.len() + 1),
                            max_flips,
                            limits,
                            most,
                            outcomes,
                        );
                    }
                },
            }
        }
    }
}

/// Every word that a search finds is what decoding makes of the block with a few
/// of its least reliable bits flipped (or none), or of the block with codewords
/// erased, at the cost that its flips and corrections add up to.
pub proof fn searches_find_nearby_words(
    block: Seq<u8>,
    reliability: Seq<u32>,
    ecc: int,
    uncertain_bits: int,
    limits: Limits,
    outcomes: Seq<Option<ErasureOutcome>>,
    bits: Seq<usize>,
)
    requires
        1 <= block.len() <= 255,
        reliability.len() == 8 * block.len(),
        0 <= uncertain_bits,
        are_least_reliable(bits, reliability, uncertain_bits),
    ensures
        is_explained(
            block_search(block, reliability, ecc, uncertain_bits, limits, outcomes),
            block,
            ecc,
            bits,
            most_flips(uncertain_bits),
            outcomes,
        ),
{
    least_reliable_bits_are_searched(reliability, uncertain_bits);
    lemma_least_unique(bits, searched_bits(reliability, uncertain_bits), reliability, uncertain_bits);
    lemma_are_bits(bits, reliability, uncertain_bits, block.len() as int);
    let most = most_flips(uncertain_bits);
    let start = Search { found: Seq::empty(), attempts: 0 };
    let none = Seq::<usize>::empty();
    lemma_word_explained(block, ecc, bits, none, most);
    lemma_tried_explained(start, hard_outcome(block, ecc, 0), block, ecc, bits, most, outcomes);
    let hard = if limits.attempts > 0 {
        tried(start, hard_outcome(block, ecc, 0))
    } else {
        start
    };
    lemma_erasures_explained(hard, outcomes, 0, block, ecc, limits, bits, most);
    let erased = if reliabilities_differ(reliability) {
        erasures_tried(hard, outcomes, 0, block.len() as int, ecc, limits)
    } else {
        hard
    };
    if uncertain_bits > 0 && goes_on(erased, limits) {
        let max_flips = if most < bits.len() {
            most
        } else {
            bits.len() as int
        };
        lemma_first_selection(1, bits.len() as int);
        lemma_flips_explained(
            erased,
            block,
            ecc,
            bits,
            first_selection(1),
            max_flips,
            limits,
            most,
            outcomes,
        );
    }
}

/// The least reliable bits are uniquely determined.
proof fn lemma_least_unique(
    a: Seq<usize>,
    b: Seq<usize>,
    reliability: Seq<u32>,
    count: int,
)
    requires
        are_least_reliable(a, reliability, count),
        are_least_reliable(b, reliability, count),
    ensures
        a == b,
{
    lemma_least_prefix(a, b, reliability, count, a.len() as int);
    assert(a =~= b);
}

proof fn lemma_least_prefix(
    a: Seq<usize>,
    b: Seq<usize>,
    reliability: Seq<u32>,
    count: int,
    n: int,
)
    requires
        are_least_reliable(a, reliability, count),
        are_least_reliable(b, reliability, count),
        0 <= n <= a.len(),
    ensures
        forall|i: int| 0 <= i < n ==> a[i] == b[i],
    decreases n,
{
    if n > 0 {
        lemma_least_prefix(a, b, reliability, count, n - 1);
        let x = a[n - 1];
        let y = b[n - 1];
        if x != y {
            if b.contains(x) {
                let j = choose|j: int| 0 <= j < b.len() && b[j] == x;
                if j < n - 1 {
                    assert(a[j] == b[j]);
                    assert(reliability[a[j] as int] < reliability[a[n - 1] as int] || a[j]
                        < a[n - 1]);
                    assert(false);
                }
                assert(reliability[b[n - 1] as int] < reliability[b[j] as int] || (
                reliability[b[n - 1] as int] == reliability[b[j] as int] && b[n - 1] < b[j]));
            }
            if a.contains(y) {
                let j = choose|j: int| 0 <= j < a.len() && a[j] == y;
                if j < n - 1 {
                    assert(a[j] == b[j]);
                    assert(reliability[b[j] as int] < reliability[b[n - 1] as int] || b[j]
                        < b[n - 1]);
                    assert(false);
                }
                assert(reliability[a[n - 1] as int] < reliability[a[j] as int] || (
                reliability[a[n - 1] as int] == reliability[a[j] as int] && a[n - 1] < a[j]));
            }
        }
    }
}

/// Whether a list holds the codewords of `word` at no higher cost.
pub open spec fn is_found(list: Seq<Corrected>, word: Corrected) -> bool {
    exists|i: int|
        0 <= i < list.len() && (#[trigger] list[i]).codewords == word.codewords
            && list[i].search_cost <= word.search_cost
}

pub(crate) proof fn lemma_ranked_holds(list: Seq<Corrected>, word: Corrected, other: Corrected)
    requires
        other == word || list.contains(other),
    ensures
        with_ranked(list, word).contains(other),
    decreases list.len(),
{
    let next = with_ranked(list, word);
    if next == list.push(word) {
        if other == word {
            assert(next[list.len() as int] == other);
        } else {
            let i = choose|i: int| 0 <= i < list.len() && list[i] == other;
            assert(next[i] == other);
        }
    } else {
        let rest = list.drop_last();
        let part = with_ranked(rest, word);
        if other != word {
            let i = choose|i: int| 0 <= i < list.len() && list[i] == other;
            if i < rest.len() {
                assert(rest[i] == other);
            }
        }
        if other == word || rest.contains(other) {
            lemma_ranked_holds(rest, word, other);
            let i = choose|i: int| 0 <= i < part.len() && part[i] == other;
            assert(next[i] == other);
        } else {
            assert(next[next.len() - 1] == other);
        }
    }
}

proof fn lemma_contained_is_found(list: Seq<Corrected>, kept: Corrected, word: Corrected)
    requires
        list.contains(kept),
        kept.codewords == word.codewords,
        kept.search_cost <= word.search_cost,
    ensures
        is_found(list, word),
{
    let i = choose|i: int| 0 <= i < list.len() && list[i] == kept;
    assert(list[i].codewords == word.codewords);
}

proof fn lemma_found_stays(list: Seq<Corrected>, word: Corrected, other: Corrected)
    requires
        other == word || is_found(list, other),
    ensures
        is_found(with_found(list, word), other),
{
    let at = place_of(list, word.codewords, list.len() as int);
    lemma_place_of(list, word.codewords, list.len() as int);
    let next = with_found(list, word);
    if at >= 0 && list[at].search_cost <= word.search_cost {
        if !is_found(list, other) {
            assert(list[at].codewords == other.codewords);
        }
    } else {
        let rest = if at < 0 {
            list
        } else {
            list.remove(at)
        };
        lemma_ranked_holds(rest, word, word);
        if other == word {
            lemma_contained_is_found(next, word, other);
        } else {
            let i = choose|i: int|
                0 <= i < list.len() && (#[trigger] list[i]).codewords == other.codewords
                    && list[i].search_cost <= other.search_cost;
            if at >= 0 && i == at {
                lemma_contained_is_found(next, word, other);
            } else {
                let j = if at < 0 || i < at {
                    i
                } else {
                    i - 1
                };
                assert(rest[j] == list[i]);
                lemma_ranked_holds(rest, word, list[i]);
                lemma_contained_is_found(next, list[i], other);
            }
        }
    }
}

proof fn lemma_erasures_keep(
    search: Search,
    outcomes: Seq<Option<ErasureOutcome>>,
    k: int,
    length: int,
    ecc: int,
    limits: Limits,
    other: Corrected,
)
    requires
        is_found(search.found, other),
        0 <= k,
    ensures
        is_found(erasures_tried(search, outcomes, k, length, ecc, limits).found, other),
    decreases ecc - k,
{
    if k < ecc && search.attempts < limits.attempts {
        let outcome = erasure_outcome(outcomes, k, length, ecc);
        let next = tried(search, outcome);
        if let Some(word) = outcome {
            lemma_found_stays(search.found, word, other);
        }
        if goes_on(next, limits) {
            lemma_erasures_keep(next, outcomes, k + 1, length, ecc, limits, other);
        }
    }
}

proof fn lemma_erasures_cover(
    search: Search,
    outcomes: Seq<Option<ErasureOutcome>>,
    k: int,
    length: int,
    ecc: int,
    limits: Limits,
    j: int,
)
    requires
        0 <= k <= j < ecc,
        goes_on(erasures_tried(search, outcomes, k, length, ecc, limits), limits),
        erasure_outcome(outcomes, j, length, ecc) is Some,
    ensures
        is_found(
            erasures_tried(search, outcomes, k, length, ecc, limits).found,
            erasure_outcome(outcomes, j, length, ecc)->Some_0,
        ),
    decreases ecc - k,
{
    if search.attempts < limits.attempts {
        let outcome = erasure_outcome(outcomes, k, length, ecc);
        let next = tried(search, outcome);
        if goes_on(next, limits) {
            if k == j {
                lemma_found_stays(search.found, outcome->Some_0, outcome->Some_0);
                lemma_erasures_keep(
                    next,
                    outcomes,
                    k + 1,
                    length,
                    ecc,
                    limits,
                    outcome->Some_0,
                );
            } else {
                lemma_erasures_cover(next, outcomes, k + 1, length, ecc, limits, j);
            }
        }
    }
}

proof fn lemma_flips_keep(
    search: Search,
    block: Seq<u8>,
    ecc: int,
    bits: Seq<usize>,
    selection: Seq<usize>,
    max_flips: int,
    limits: Limits,
    other: Corrected,
)
    requires
        is_found(search.found, other),
    ensures
        is_found(
            flips_tried(search, block, ecc, bits, selection, max_flips, limits).found,
            other,
        ),
    decreases limits.attempts - search.attempts,
{
    if search.attempts < limits.attempts {
        let word = with_flips(block, bits, selection, selection.len() as int);
        let outcome = hard_outcome(word, ecc, selection.len() as int);
        let next = tried(search, outcome);
        if let Some(found) = outcome {
            lemma_found_stays(search.found, found, other);
        }
        if goes_on(next, limits) {
            match next_selection(selection, bits.len() as int) {
                Some(following) => {
                    lemma_flips_keep(next, block, ecc, bits, following, max_flips, limits, other);
                },
                None => {
                    if selection.len() < max_flips {
                        lemma_flips_keep(
                            next,
                            block,
                            ecc,
                            bits,
                            first_selection(selection.len() + 1),
                            max_flips,
                            limits,
                            other,
                        );
                    }
                },
            }
        }
    }
}

proof fn lemma_first_is_least(other: Seq<usize>, available: int)
    requires
        is_selection(other, available),
        0 < other.len() <= available <= usize::MAX,
    ensures
        other == first_selection(other.len()) || selected_before(
            first_selection(other.len()),
            other,
        ),
{
    let first = first_selection(other.len());
    assert(first.take(0) =~= other.take(0));
    assert forall|k: int| 0 <= k < first.len() implies #[trigger] first[k] == first[0] + k - 0 by {
    }
    lemma_follows(first, other, 0, 0);
}

proof fn lemma_flips_cover(
    search: Search,
    block: Seq<u8>,
    ecc: int,
    bits: Seq<usize>,
    selection: Seq<usize>,
    max_flips: int,
    limits: Limits,
    other: Seq<usize>,
)
    requires
        is_selection(selection, bits.len() as int),
        is_selection(other, bits.len() as int),
        0 < selection.len() <= other.len() <= max_flips <= bits.len() <= usize::MAX,
        selection.len() == other.len() ==> other == selection || selected_before(selection, other),
        goes_on(flips_tried(search, block, ecc, bits, selection, max_flips, limits), limits),
    ensures
        hard_outcome(
            with_flips(block, bits, other, other.len() as int),
            ecc,
            other.len() as int,
        ) matches Some(found) ==> is_found(
            flips_tried(search, block, ecc, bits, selection, max_flips, limits).found,
            found,
        ),
    decreases limits.attempts - search.attempts,
{
    if search.attempts < limits.attempts {
        let word = with_flips(block, bits, selection, selection.len() as int);
        let outcome = hard_outcome(word, ecc, selection.len() as int);
        let next = tried(search, outcome);
        let available = bits.len() as int;
        if goes_on(next, limits) {
            lemma_next_selection(selection, available);
            if other == selection {
                if let Some(found) = outcome {
                    lemma_found_stays(search.found, found, found);
                    match next_selection(selection, available) {
                        Some(following) => {
                            lemma_flips_keep(
                                next,
                                block,
                                ecc,
                                bits,
                                following,
                                max_flips,
                                limits,
                                found,
                            );
                        },
                        None => {
                            lemma_flips_keep(
                                next,
                                block,
                                ecc,
                                bits,
                                first_selection(selection.len() + 1),
                                max_flips,
                                limits,
                                found,
                            );
                        },
                    }
                }
            } else {
                if other.len() == selection.len() {
                    next_selection_is_least(selection, available, other);
                }
                match next_selection(selection, available) {
                    Some(following) => {
                        lemma_flips_cover(
                            next,
                            block,
                            ecc,
                            bits,
                            following,
                            max_flips,
                            limits,
                            other,
                        );
                    },
                    None => {
                        let first = first_selection(selection.len() + 1);
                        lemma_first_selection(selection.len() + 1, available);
                        if other.len() == selection.len() + 1 {
                            lemma_first_is_least(other, available);
                        }
                        lemma_flips_cover(
                            next,
                            block,
                            ecc,
                            bits,
                            first,
                            max_flips,
                            limits,
                            other,
                        );
                    },
                }
            }
        }
    }
}

/// A search that reaches none of its limits misses nothing: whatever decoding
/// makes of the block with up to three (or, among more than twelve bits, four) of
/// its least reliable bits flipped is found, at no higher cost.
pub proof fn searches_miss_no_flips(
    block: Seq<u8>,
    reliability: Seq<u32>,
    ecc: int,
    uncertain_bits: int,
    limits: Limits,
    outcomes: Seq<Option<ErasureOutcome>>,
    bits: Seq<usize>,
    selection: Seq<usize>,
    word: Seq<u8>,
    found: Corrected,
)
    requires
        1 <= block.len() <= 255,
        reliability.len() == 8 * block.len(),
        0 <= uncertain_bits,
        are_least_reliable(bits, reliability, uncertain_bits),
        goes_on(block_search(block, reliability, ecc, uncertain_bits, limits, outcomes), limits),
        is_selection(selection, bits.len() as int),
        selection.len() <= most_flips(uncertain_bits),
        differs_in(word, block, bits, selection),
        decodes_to(word, ecc, selection.len() as int, found),
    ensures
        is_found(
            block_search(block, reliability, ecc, uncertain_bits, limits, outcomes).found,
            found,
        ),
{
    least_reliable_bits_are_searched(reliability, uncertain_bits);
    lemma_least_unique(bits, searched_bits(reliability, uncertain_bits), reliability, uncertain_bits);
    lemma_are_bits(bits, reliability, uncertain_bits, block.len() as int);
    lemma_one_word(word, block, bits, selection);
    lemma_selection_fits(selection, bits.len() as int);
    let search = block_search(block, reliability, ecc, uncertain_bits, limits, outcomes);
    let length = block.len() as int;
    let start = Search { found: Seq::empty(), attempts: 0 };
    let hard = tried(start, hard_outcome(block, ecc, 0));
    let erased = if reliabilities_differ(reliability) {
        erasures_tried(hard, outcomes, 0, length, ecc, limits)
    } else {
        hard
    };
    lemma_limits_stay(block, reliability, ecc, uncertain_bits, limits, outcomes);
    let most = most_flips(uncertain_bits);
    let max_flips = if most < bits.len() {
        most
    } else {
        bits.len() as int
    };
    let first = first_selection(1);
    if selection.len() == 0 {
        assert(hard_outcome(block, ecc, 0) == Some(found));
        lemma_found_stays(start.found, found, found);
        if reliabilities_differ(reliability) {
            lemma_erasures_keep(hard, outcomes, 0, length, ecc, limits, found);
        }
        if uncertain_bits > 0 && goes_on(erased, limits) {
            lemma_flips_keep(erased, block, ecc, bits, first, max_flips, limits, found);
        }
    } else {
        assert(uncertain_bits > 0);
        assert(hard_outcome(word, ecc, selection.len() as int) == Some(found));
        lemma_first_selection(1, bits.len() as int);
        if selection.len() == 1 {
            lemma_first_is_least(selection, bits.len() as int);
        }
        assert(goes_on(erased, limits));
        assert(search == flips_tried(erased, block, ecc, bits, first, max_flips, limits));
        lemma_flips_cover(erased, block, ecc, bits, first, max_flips, limits, selection);
    }
}

proof fn lemma_selection_fits(selection: Seq<usize>, available: int)
    requires
        is_selection(selection, available),
    ensures
        selection.len() <= available || selection.len() == 0,
{
    lemma_selection_climbs(selection, available, selection.len() as int);
    if selection.len() > 0 {
        assert(selection[selection.len() - 1] < available);
    }
}

proof fn lemma_selection_climbs(selection: Seq<usize>, available: int, n: int)
    requires
        is_selection(selection, available),
        0 <= n <= selection.len(),
    ensures
        n > 0 ==> selection[n - 1] >= n - 1,
    decreases n,
{
    if n > 1 {
        lemma_selection_climbs(selection, available, n - 1);
        assert(selection[n - 2] < selection[n - 1]);
    }
}

/// A search that ends below its limits was below them before the flips.
proof fn lemma_limits_stay(
    block: Seq<u8>,
    reliability: Seq<u32>,
    ecc: int,
    uncertain_bits: int,
    limits: Limits,
    outcomes: Seq<Option<ErasureOutcome>>,
)
    requires
        goes_on(block_search(block, reliability, ecc, uncertain_bits, limits, outcomes), limits),
    ensures
        ({
            let start = Search { found: Seq::empty(), attempts: 0 };
            let hard = tried(start, hard_outcome(block, ecc, 0));
            let erased = if reliabilities_differ(reliability) {
                erasures_tried(hard, outcomes, 0, block.len() as int, ecc, limits)
            } else {
                hard
            };
            goes_on(erased, limits) && limits.attempts > 0
        }),
{
    let start = Search { found: Seq::empty(), attempts: 0 };
    if limits.attempts <= 0 {
        let erased = erasures_tried(start, outcomes, 0, block.len() as int, ecc, limits);
        assert(!goes_on(start, limits));
    }
}

/// A search that reaches none of its limits takes every outcome of an erasure
/// that is a code word of the block's length, if reliabilities differ.
pub proof fn searches_miss_no_outcomes(
    block: Seq<u8>,
    reliability: Seq<u32>,
    ecc: int,
    uncertain_bits: int,
    limits: Limits,
    outcomes: Seq<Option<ErasureOutcome>>,
    j: int,
)
    requires
        reliabilities_differ(reliability),
        goes_on(block_search(block, reliability, ecc, uncertain_bits, limits, outcomes), limits),
        0 <= j < outcomes.len(),
        j < ecc,
        outcomes[j] is Some,
        outcomes[j]->Some_0.codewords@.len() == block.len(),
        is_code_word(outcomes[j]->Some_0.codewords@, ecc),
    ensures
        exists|i: int|
            0 <= i < block_search(
                block,
                reliability,
                ecc,
                uncertain_bits,
                limits,
                outcomes,
            ).found.len() && (#[trigger] block_search(
                block,
                reliability,
                ecc,
                uncertain_bits,
                limits,
                outcomes,
            ).found[i]).codewords == outcomes[j]->Some_0.codewords@ && block_search(
                block,
                reliability,
                ecc,
                uncertain_bits,
                limits,
                outcomes,
            ).found[i].search_cost <= 2 * outcomes[j]->Some_0.corrected_symbols,
{
    let start = Search { found: Seq::empty(), attempts: 0 };
    let hard = tried(start, hard_outcome(block, ecc, 0));
    let length = block.len() as int;
    lemma_limits_stay(block, reliability, ecc, uncertain_bits, limits, outcomes);
    let erased = erasures_tried(hard, outcomes, 0, length, ecc, limits);
    let outcome = erasure_outcome(outcomes, j, length, ecc)->Some_0;
    lemma_erasures_cover(hard, outcomes, 0, length, ecc, limits, j);
    let search = block_search(block, reliability, ecc, uncertain_bits, limits, outcomes);
    if uncertain_bits > 0 {
        let bits = searched_bits(reliability, uncertain_bits);
        let most = most_flips(uncertain_bits);
        let max_flips = if most < bits.len() {
            most
        } else {
            bits.len() as int
        };
        lemma_flips_keep(
            erased,
            block,
            ecc,
            bits,
            first_selection(1),
            max_flips,
            limits,
            outcome,
        );
    }
    assert(is_found(search.found, outcome));
}

proof fn lemma_smallest(values: Seq<u32>, n: int)
    requires
        1 <= n <= values.len(),
    ensures
        exists|i: int| 0 <= i < n && #[trigger] values[i] == smallest(values, n),
        exists|i: int| 0 <= i < n && #[trigger] values[i] == largest(values, n),
        forall|i: int| 0 <= i < n ==> smallest(values, n) <= #[trigger] values[i] <= largest(
            values,
            n,
        ),
    decreases n,
{
    if n > 1 {
        lemma_smallest(values, n - 1);
        let i = choose|i: int| 0 <= i < n - 1 && #[trigger] values[i] == smallest(values, n - 1);
        let j = choose|j: int| 0 <= j < n - 1 && #[trigger] values[j] == largest(values, n - 1);
        assert(values[n - 1] == values[n - 1]);
        assert(values[i] == values[i] && values[j] == values[j]);
    } else {
        assert(values[0] == smallest(values, n));
    }
}

/// Erasures are worth trying exactly if two bits differ in reliability by more
/// than the tolerance: then the lists hold one codeword, two, and so on up to as
/// many as there are for error correction, each list the previous one and one
/// codeword more.
pub proof fn erasures_grow_one_by_one(reliability: Seq<u32>, length: nat, ecc: int, k: int)
    requires
        1 <= length <= 255,
        reliability.len() == 8 * length,
        1 <= ecc < length,
        0 <= k < erasure_lists(reliability, length, ecc).len(),
    ensures
        erasure_lists(reliability, length, ecc).len() == ecc,
        erasure_lists(reliability, length, ecc)[k].len() == k + 1,
        k > 0 ==> erasure_lists(reliability, length, ecc)[k].drop_last() == erasure_lists(
            reliability,
            length,
            ecc,
        )[k - 1],
{
    let lists = erasure_lists(reliability, length, ecc);
    if k > 0 {
        assert(lists[k].drop_last() =~= lists[k - 1]);
    }
}

/// Whether some bit is less reliable than another by more than rounding can
/// account for: one part in two to the 23rd of full reliability.
pub open spec fn some_bit_is_weaker(reliability: Seq<u32>) -> bool {
    exists|i: int, j: int|
        0 <= i < reliability.len() && 0 <= j < reliability.len() && 8_388_608 * (
        (#[trigger] reliability[j]) - (#[trigger] reliability[i])) > FULL_RELIABILITY
}

/// There are erasures to try exactly if some bit is weaker than another.
pub proof fn weak_bits_call_for_erasures(reliability: Seq<u32>, length: nat, ecc: int)
    requires
        reliability.len() > 0,
        1 <= ecc,
    ensures
        erasure_lists(reliability, length, ecc).len() > 0 <==> some_bit_is_weaker(reliability),
        reliabilities_differ(reliability) <==> some_bit_is_weaker(reliability),
{
    let n = reliability.len() as int;
    lemma_smallest(reliability, n);
    let i = choose|i: int|
        0 <= i < n && #[trigger] reliability[i] == smallest(reliability, n);
    let j = choose|j: int| 0 <= j < n && #[trigger] reliability[j] == largest(reliability, n);
    if reliabilities_differ(reliability) {
        assert(8_388_608 * (reliability[j] - reliability[i]) > FULL_RELIABILITY);
    }
}

/// Whether codeword `a` is no more reliable than codeword `b`: one of its bits is
/// no more reliable than any bit of `b`, where nothing counts as more than fully
/// reliable.
pub open spec fn no_more_reliable(reliability: Seq<u32>, a: int, b: int) -> bool {
    exists|i: int|
        8 * a <= i < 8 * a + 8 && forall|j: int|
            8 * b <= j < 8 * b + 8 ==> #[trigger] reliability[i] <= #[trigger] reliability[j]
                || FULL_RELIABILITY <= reliability[j]
}

/// The codewords of a list of erasures are distinct codewords of the block, and
/// no codeword outside of it is less reliable than one in it.
pub proof fn least_reliable_codewords_are_erased(
    reliability: Seq<u32>,
    length: nat,
    ecc: int,
    k: int,
    i: int,
    b: int,
)
    requires
        1 <= length <= 255,
        reliability.len() == 8 * length,
        1 <= ecc < length,
        0 <= k < erasure_lists(reliability, length, ecc).len(),
        0 <= i <= k,
        0 <= b < length,
        !erasure_lists(reliability, length, ecc)[k].contains(b as u8),
    ensures
        erasure_lists(reliability, length, ecc)[k][i] < length,
        forall|j: int|
            0 <= j <= k && j != i ==> #[trigger] erasure_lists(reliability, length, ecc)[k][j]
                != erasure_lists(reliability, length, ecc)[k][i],
        no_more_reliable(
            reliability,
            erasure_lists(reliability, length, ecc)[k][i] as int,
            b,
        ),
{
    let keys = Seq::new(length, |c: int| codeword_reliability(reliability, c));
    let n = length as int;
    sorted_indices_in_order(keys, n);
    let order = codeword_order(reliability, length);
    assert(order == sorted_indices(keys, n));
    let list = erasure_lists(reliability, length, ecc)[k];
    assert forall|j: int| 0 <= j <= k implies #[trigger] list[j] == order[j] && order[j] < length by {
        assert(order[j] < n);
    }
    assert forall|j: int| 0 <= j <= k && j != i implies #[trigger] list[j] != list[i] by {
        assert(list[i] == order[i] && list[j] == order[j]);
        if j < i {
            assert(keys[order[j] as int] <= keys[order[i] as int]);
        } else {
            assert(keys[order[i] as int] <= keys[order[j] as int]);
        }
    }
    sorting_keeps_all(keys, n, b as usize);
    let at = choose|at: int| 0 <= at < order.len() && order[at] == b;
    if at <= k {
        assert(list[at] == b as u8);
    }
    assert(list[i] == order[i]);
    let a = order[i] as int;
    assert(keys[order[i] as int] <= keys[order[at] as int]);
    assert(keys[a] <= keys[b]);
    let own = reliability.subrange(8 * a, 8 * a + 8);
    let other = reliability.subrange(8 * b, 8 * b + 8);
    lemma_smallest(own, 8);
    lemma_smallest(other, 8);
    let c = choose|c: int| 0 <= c < 8 && #[trigger] own[c] == smallest(own, 8);
    assert(reliability[8 * a + c] == own[c]);
    assert forall|j: int| 8 * b <= j < 8 * b + 8 implies #[trigger] reliability[8 * a + c]
        <= #[trigger] reliability[j] || FULL_RELIABILITY <= reliability[j] by {
        assert(reliability[j] == other[j - 8 * b]);
    }
}

} // verus!
