//! How the words found for the blocks of a symbol combine to streams.

use vstd::prelude::*;

use crate::candidates::{with_ranked, Corrected};
use crate::correction::{best, block_search, ErasureOutcome, Limits};
use crate::interleave::{
    deinterleaved, deinterleaved_reliability, interleaved, regular, slots, slots_enumerate_blocks,
    slots_fill_blocks,
};
use crate::layout::{codeword_total, layout, BlockSpec, EcLevel};
use crate::search_laws::{lemma_ranked_holds, lemma_ranked_member};
use crate::streams::{
    at_most, blocks_searched, choices, choices_below, chosen_stream, is_choice, lemma_choices_valid,
    lemma_first_choice, list_sizes, outcomes_for, picked, picked_cost, picked_symbols,
    ranked_streams, streams_found, BlockLists,
};

verus! {

/// The sum of a sequence of numbers.
pub open spec fn total(list: Seq<int>) -> int
    decreases list.len(),
{
    if list.len() == 0 {
        0
    } else {
        total(list.drop_last()) + list.last()
    }
}

/// Whether a stream is made of one word per block: their codewords in turn, and
/// their changes and costs added up.
pub open spec fn combines(stream: Corrected, words: Seq<Corrected>, specs: Seq<BlockSpec>) -> bool {
    &&& stream.codewords == interleaved(
        Seq::new(words.len(), |b: int| words[b].codewords),
        specs,
    )
    &&& stream.corrected_symbols == total(
        Seq::new(words.len(), |b: int| words[b].corrected_symbols),
    )
    &&& stream.search_cost == total(Seq::new(words.len(), |b: int| words[b].search_cost))
}

/// Whether `words` holds one word of each list.
pub open spec fn one_of_each(words: Seq<Corrected>, lists: Seq<Seq<Corrected>>) -> bool {
    &&& words.len() == lists.len()
    &&& forall|b: int| 0 <= b < words.len() ==> lists[b].contains(#[trigger] words[b])
}

/// Whether a stream is made of one word of each list.
pub open spec fn is_combination(
    stream: Corrected,
    lists: Seq<Seq<Corrected>>,
    specs: Seq<BlockSpec>,
) -> bool {
    exists|words: Seq<Corrected>| one_of_each(words, lists) && combines(stream, words, specs)
}

/// The lists of words that a search finds for the blocks of a received stream.
pub open spec fn word_lists(
    codewords: Seq<u8>,
    reliability: Seq<u32>,
    version: int,
    level: EcLevel,
    uncertain_bits: int,
    max_attempts: int,
    outcomes: Seq<Vec<Option<ErasureOutcome>>>,
    n: int,
) -> BlockLists {
    let specs = layout(version, level);
    blocks_searched(
        deinterleaved(codewords, specs),
        deinterleaved_reliability(reliability, specs),
        specs,
        uncertain_bits,
        max_attempts,
        outcomes,
        n,
    )
}

/// How many ways there are to choose one item per place, from place `k` on.
pub open spec fn ways(sizes: Seq<usize>, k: int) -> int
    decreases sizes.len() - k,
{
    if k < 0 || k >= sizes.len() {
        1
    } else {
        sizes[k] * ways(sizes, k + 1)
    }
}

proof fn lemma_choice_count(sizes: Seq<usize>, prefix: Seq<usize>)
    ensures
        choices(sizes, prefix).len() == ways(sizes, prefix.len() as int),
    decreases sizes.len() - prefix.len(), usize::MAX + 1,
{
    if prefix.len() < sizes.len() {
        lemma_choice_below_count(sizes, prefix, sizes[prefix.len() as int] as nat);
    }
}

proof fn lemma_choice_below_count(sizes: Seq<usize>, prefix: Seq<usize>, c: nat)
    requires
        prefix.len() < sizes.len(),
        c <= usize::MAX,
    ensures
        choices_below(sizes, prefix, c).len() == c * ways(sizes, (prefix.len() + 1) as int),
    decreases sizes.len() - prefix.len(), c as int,
{
    let w = ways(sizes, (prefix.len() + 1) as int);
    if c > 0 {
        lemma_choice_below_count(sizes, prefix, (c - 1) as nat);
        lemma_choice_count(sizes, prefix.push((c - 1) as usize));
        assert((c - 1) * w + w == c * w) by (nonlinear_arith);
    } else {
        assert(0 * w == 0);
    }
}

proof fn lemma_choice_covered(sizes: Seq<usize>, prefix: Seq<usize>, choice: Seq<usize>)
    requires
        is_choice(sizes, choice),
        prefix.len() <= sizes.len(),
        choice.take(prefix.len() as int) == prefix,
    ensures
        choices(sizes, prefix).contains(choice),
    decreases sizes.len() - prefix.len(), usize::MAX + 1,
{
    if prefix.len() < sizes.len() {
        let m = prefix.len() as int;
        assert(choice[m] < sizes[m]);
        lemma_choice_below_covered(sizes, prefix, sizes[m] as nat, choice);
    } else {
        assert(choice.take(prefix.len() as int) =~= choice);
        assert(choices(sizes, prefix)[0] == choice);
    }
}

proof fn lemma_choice_below_covered(
    sizes: Seq<usize>,
    prefix: Seq<usize>,
    c: nat,
    choice: Seq<usize>,
)
    requires
        is_choice(sizes, choice),
        prefix.len() < sizes.len(),
        choice.take(prefix.len() as int) == prefix,
        choice[prefix.len() as int] < c <= sizes[prefix.len() as int],
    ensures
        choices_below(sizes, prefix, c).contains(choice),
    decreases sizes.len() - prefix.len(), c as int,
{
    let m = prefix.len() as int;
    let earlier = choices_below(sizes, prefix, (c - 1) as nat);
    let later = choices(sizes, prefix.push((c - 1) as usize));
    let all = choices_below(sizes, prefix, c);
    assert(all == earlier + later);
    if choice[m] < c - 1 {
        lemma_choice_below_covered(sizes, prefix, (c - 1) as nat, choice);
        let k = choose|k: int| 0 <= k < earlier.len() && earlier[k] == choice;
        assert(all[k] == choice);
    } else {
        assert(choice.take(m + 1) =~= prefix.push((c - 1) as usize)) by {
            assert forall|b: int| 0 <= b < m implies choice[b] == prefix[b] by {
                assert(choice.take(m)[b] == choice[b]);
            }
        }
        lemma_choice_covered(sizes, prefix.push((c - 1) as usize), choice);
        let k = choose|k: int| 0 <= k < later.len() && later[k] == choice;
        assert(all[earlier.len() + k] == choice);
    }
}

/// Every way to choose one item per place occurs, and there are as many choices as
/// there are ways.
pub proof fn every_choice_occurs(sizes: Seq<usize>, choice: Seq<usize>)
    requires
        is_choice(sizes, choice),
    ensures
        choices(sizes, Seq::empty()).contains(choice),
        choices(sizes, Seq::empty()).len() == ways(sizes, 0),
{
    assert(choice.take(0) =~= Seq::empty());
    lemma_choice_covered(sizes, Seq::empty(), choice);
    lemma_choice_count(sizes, Seq::empty());
}

/// Whether the first place, from `k` on, in which two choices differ is smaller in
/// the first of them.
pub open spec fn precedes(a: Seq<usize>, b: Seq<usize>, k: int) -> bool {
    exists|m: int|
        #![trigger a[m]]
        k <= m < a.len() && m < b.len() && a[m] < b[m] && forall|c: int|
            0 <= c < m ==> a[c] == #[trigger] b[c]
}

proof fn lemma_in_order(sizes: Seq<usize>, prefix: Seq<usize>)
    requires
        prefix.len() <= sizes.len(),
    ensures
        forall|i: int, j: int|
            0 <= i < j < choices(sizes, prefix).len() ==> precedes(
                #[trigger] choices(sizes, prefix)[i],
                #[trigger] choices(sizes, prefix)[j],
                prefix.len() as int,
            ),
        forall|i: int|
            0 <= i < choices(sizes, prefix).len() ==> (#[trigger] choices(sizes, prefix)[i]).len()
                == sizes.len() && choices(sizes, prefix)[i].take(prefix.len() as int) == prefix,
    decreases sizes.len() - prefix.len(), usize::MAX + 1,
{
    if prefix.len() < sizes.len() {
        let c = sizes[prefix.len() as int] as nat;
        lemma_below_in_order(sizes, prefix, c);
        assert(choices(sizes, prefix) == choices_below(sizes, prefix, c));
    } else {
        assert(choices(sizes, prefix) =~= seq![prefix]);
        assert(prefix.take(prefix.len() as int) =~= prefix);
    }
}

proof fn lemma_below_in_order(sizes: Seq<usize>, prefix: Seq<usize>, c: nat)
    requires
        prefix.len() < sizes.len(),
        c <= usize::MAX,
    ensures
        forall|i: int, j: int|
            0 <= i < j < choices_below(sizes, prefix, c).len() ==> precedes(
                #[trigger] choices_below(sizes, prefix, c)[i],
                #[trigger] choices_below(sizes, prefix, c)[j],
                prefix.len() as int,
            ),
        forall|i: int|
            0 <= i < choices_below(sizes, prefix, c).len() ==> {
                let choice = #[trigger] choices_below(sizes, prefix, c)[i];
                &&& choice.len() == sizes.len()
                &&& choice.take(prefix.len() as int) == prefix
                &&& choice[prefix.len() as int] < c
            },
    decreases sizes.len() - prefix.len(), c as int,
{
    if c > 0 {
        let m = prefix.len() as int;
        let longer = prefix.push((c - 1) as usize);
        lemma_below_in_order(sizes, prefix, (c - 1) as nat);
        lemma_in_order(sizes, longer);
        let earlier = choices_below(sizes, prefix, (c - 1) as nat);
        let later = choices(sizes, longer);
        let all = choices_below(sizes, prefix, c);
        assert(all == earlier + later);
        assert forall|i: int| 0 <= i < all.len() implies {
            let choice = #[trigger] all[i];
            &&& choice.len() == sizes.len()
            &&& choice.take(m) == prefix
            &&& choice[m] < c
            &&& i >= earlier.len() ==> choice[m] == c - 1
        } by {
            if i < earlier.len() {
                assert(all[i] == earlier[i]);
            } else {
                let choice = later[i - earlier.len()];
                assert(all[i] == choice);
                assert(choice[m] == choice.take(m + 1)[m]);
                assert(choice.take(m) =~= choice.take(m + 1).take(m));
                assert(longer.take(m) =~= prefix);
            }
        }
        assert forall|i: int, j: int| 0 <= i < j < all.len() implies precedes(
            #[trigger] all[i],
            #[trigger] all[j],
            m,
        ) by {
            let (a, b) = (all[i], all[j]);
            if j < earlier.len() {
                assert(a == earlier[i] && b == earlier[j]);
            } else if i >= earlier.len() {
                assert(a == later[i - earlier.len()] && b == later[j - earlier.len()]);
                assert(precedes(a, b, m + 1));
                let p = choose|p: int|
                    #![trigger a[p]]
                    m + 1 <= p < a.len() && p < b.len() && a[p] < b[p] && forall|c: int|
                        0 <= c < p ==> a[c] == #[trigger] b[c];
                assert(a[p] < b[p]);
            } else {
                assert(a == earlier[i]);
                assert(a[m] < b[m]);
                assert forall|c: int| 0 <= c < m implies a[c] == #[trigger] b[c] by {
                    assert(a.take(m)[c] == a[c] && b.take(m)[c] == b[c]);
                }
            }
        }
    }
}

/// Choices come in dictionary order, so that those with better words for the first
/// blocks come first.
pub proof fn choices_are_in_dictionary_order(sizes: Seq<usize>, i: int, j: int)
    requires
        0 <= i < j < choices(sizes, Seq::empty()).len(),
    ensures
        precedes(choices(sizes, Seq::empty())[i], choices(sizes, Seq::empty())[j], 0),
{
    lemma_in_order(sizes, Seq::empty());
}

proof fn lemma_picked_totals(lists: Seq<Seq<Corrected>>, choice: Seq<usize>, n: int)
    requires
        0 <= n <= lists.len(),
    ensures
        picked_symbols(lists, choice, n) == total(
            Seq::new(n as nat, |b: int| lists[b][choice[b] as int].corrected_symbols),
        ),
        picked_cost(lists, choice, n) == total(
            Seq::new(n as nat, |b: int| lists[b][choice[b] as int].search_cost),
        ),
    decreases n,
{
    if n > 0 {
        lemma_picked_totals(lists, choice, n - 1);
        let s = Seq::new(n as nat, |b: int| lists[b][choice[b] as int].corrected_symbols);
        let t = Seq::new(n as nat, |b: int| lists[b][choice[b] as int].search_cost);
        assert(s.drop_last() =~= Seq::new(
            (n - 1) as nat,
            |b: int| lists[b][choice[b] as int].corrected_symbols,
        ));
        assert(t.drop_last() =~= Seq::new(
            (n - 1) as nat,
            |b: int| lists[b][choice[b] as int].search_cost,
        ));
    }
}

proof fn lemma_chosen_combines(
    lists: Seq<Seq<Corrected>>,
    specs: Seq<BlockSpec>,
    choice: Seq<usize>,
    words: Seq<Corrected>,
)
    requires
        words.len() == lists.len(),
        forall|b: int|
            0 <= b < words.len() ==> #[trigger] words[b] == lists[b][choice[b] as int],
    ensures
        combines(chosen_stream(lists, specs, choice), words, specs),
{
    let n = lists.len() as int;
    lemma_picked_totals(lists, choice, n);
    assert(picked(lists, choice) =~= Seq::new(words.len(), |b: int| words[b].codewords));
    assert(Seq::new(words.len(), |b: int| words[b].corrected_symbols) =~= Seq::new(
        n as nat,
        |b: int| lists[b][choice[b] as int].corrected_symbols,
    ));
    assert(Seq::new(words.len(), |b: int| words[b].search_cost) =~= Seq::new(
        n as nat,
        |b: int| lists[b][choice[b] as int].search_cost,
    ));
}

proof fn lemma_ranked_length(list: Seq<Corrected>, word: Corrected)
    ensures
        with_ranked(list, word).len() == list.len() + 1,
    decreases list.len(),
{
    if list.len() > 0 {
        lemma_ranked_length(list.drop_last(), word);
    }
}

proof fn lemma_streams_chosen(
    lists: Seq<Seq<Corrected>>,
    specs: Seq<BlockSpec>,
    all: Seq<Seq<usize>>,
    n: int,
    i: int,
)
    requires
        0 <= n <= all.len(),
        0 <= i < ranked_streams(lists, specs, all, n).len(),
    ensures
        exists|k: int|
            0 <= k < n && ranked_streams(lists, specs, all, n)[i] == chosen_stream(
                lists,
                specs,
                #[trigger] all[k],
            ),
    decreases n,
{
    if n > 0 {
        let before = ranked_streams(lists, specs, all, n - 1);
        let word = chosen_stream(lists, specs, all[n - 1]);
        let after = ranked_streams(lists, specs, all, n);
        lemma_ranked_member(before, word, i);
        if after[i] == word {
            assert(after[i] == chosen_stream(lists, specs, all[n - 1]));
        } else {
            let j = choose|j: int| 0 <= j < before.len() && #[trigger] before[j] == after[i];
            lemma_streams_chosen(lists, specs, all, n - 1, j);
        }
    }
}

proof fn lemma_choices_are_ranked(
    lists: Seq<Seq<Corrected>>,
    specs: Seq<BlockSpec>,
    all: Seq<Seq<usize>>,
    n: int,
    k: int,
)
    requires
        0 <= k < n <= all.len(),
    ensures
        ranked_streams(lists, specs, all, n).contains(chosen_stream(lists, specs, all[k])),
    decreases n,
{
    if k < n - 1 {
        lemma_choices_are_ranked(lists, specs, all, n - 1, k);
    }
    lemma_ranked_holds(
        ranked_streams(lists, specs, all, n - 1),
        chosen_stream(lists, specs, all[n - 1]),
        chosen_stream(lists, specs, all[k]),
    );
}

proof fn lemma_ranked_count(
    lists: Seq<Seq<Corrected>>,
    specs: Seq<BlockSpec>,
    all: Seq<Seq<usize>>,
    n: int,
)
    requires
        0 <= n <= all.len(),
    ensures
        ranked_streams(lists, specs, all, n).len() == n,
    decreases n,
{
    if n > 0 {
        lemma_ranked_count(lists, specs, all, n - 1);
        lemma_ranked_length(
            ranked_streams(lists, specs, all, n - 1),
            chosen_stream(lists, specs, all[n - 1]),
        );
    }
}

pub(crate) proof fn lemma_lists(
    codewords: Seq<u8>,
    reliability: Seq<u32>,
    version: int,
    level: EcLevel,
    uncertain_bits: int,
    max_attempts: int,
    outcomes: Seq<Vec<Option<ErasureOutcome>>>,
    n: int,
)
    requires
        0 <= n,
        !word_lists(
            codewords,
            reliability,
            version,
            level,
            uncertain_bits,
            max_attempts,
            outcomes,
            n,
        ).failed,
    ensures
        ({
            let lists = word_lists(
                codewords,
                reliability,
                version,
                level,
                uncertain_bits,
                max_attempts,
                outcomes,
                n,
            ).lists;
            &&& lists.len() == n
            &&& forall|b: int| 0 <= b < n ==> 1 <= (#[trigger] lists[b]).len() <= 3
        }),
    decreases n,
{
    if n > 0 {
        lemma_lists(
            codewords,
            reliability,
            version,
            level,
            uncertain_bits,
            max_attempts,
            outcomes,
            n - 1,
        );
    }
}

/// The words for a block are the three best that its search finds. All blocks share
/// one budget of attempts, but each may make at least one.
pub proof fn blocks_share_their_attempts(
    codewords: Seq<u8>,
    reliability: Seq<u32>,
    version: int,
    level: EcLevel,
    uncertain_bits: int,
    max_attempts: int,
    outcomes: Seq<Vec<Option<ErasureOutcome>>>,
    b: int,
)
    requires
        0 <= b,
        !word_lists(
            codewords,
            reliability,
            version,
            level,
            uncertain_bits,
            max_attempts,
            outcomes,
            b,
        ).failed,
    ensures
        ({
            let specs = layout(version, level);
            let before = word_lists(
                codewords,
                reliability,
                version,
                level,
                uncertain_bits,
                max_attempts,
                outcomes,
                b,
            );
            let after = word_lists(
                codewords,
                reliability,
                version,
                level,
                uncertain_bits,
                max_attempts,
                outcomes,
                b + 1,
            );
            let left = max_attempts - before.attempts;
            let search = block_search(
                deinterleaved(codewords, specs)[b],
                deinterleaved_reliability(reliability, specs)[b],
                specs[b].ecc_codewords as int,
                uncertain_bits,
                Limits {
                    attempts: if left >= 1 {
                        left
                    } else {
                        1
                    },
                    results: 3,
                },
                outcomes_for(outcomes, b),
            );
            &&& after.failed <==> search.found.len() == 0
            &&& after.attempts == before.attempts + search.attempts
            &&& !after.failed ==> after.lists.len() == b + 1 && after.lists.drop_last()
                == before.lists && after.lists.last() == best(search.found, 3)
        }),
{
    let before = word_lists(
        codewords,
        reliability,
        version,
        level,
        uncertain_bits,
        max_attempts,
        outcomes,
        b,
    );
    let after = word_lists(
        codewords,
        reliability,
        version,
        level,
        uncertain_bits,
        max_attempts,
        outcomes,
        b + 1,
    );
    lemma_lists(
        codewords,
        reliability,
        version,
        level,
        uncertain_bits,
        max_attempts,
        outcomes,
        b,
    );
    if !after.failed {
        assert(after.lists.drop_last() =~= before.lists);
    }
}

/// Every stream that is found is made of one found word per block. There are as
/// many streams as ways to choose the words, up to the limit, and none if a block
/// has no word.
pub proof fn streams_combine_found_words(
    codewords: Seq<u8>,
    reliability: Seq<u32>,
    version: int,
    level: EcLevel,
    uncertain_bits: int,
    max_attempts: int,
    max_combinations: int,
    outcomes: Seq<Vec<Option<ErasureOutcome>>>,
)
    requires
        0 <= max_combinations,
    ensures
        ({
            let specs = layout(version, level);
            let searched = word_lists(
                codewords,
                reliability,
                version,
                level,
                uncertain_bits,
                max_attempts,
                outcomes,
                specs.len() as int,
            );
            let streams = streams_found(
                codewords,
                reliability,
                version,
                level,
                uncertain_bits,
                max_attempts,
                max_combinations,
                outcomes,
            ).0;
            let all = ways(list_sizes(searched.lists), 0);
            &&& searched.failed ==> streams.len() == 0
            &&& !searched.failed ==> searched.lists.len() == specs.len() && streams.len() == (if all
                <= max_combinations {
                all
            } else {
                max_combinations
            })
            &&& forall|i: int|
                0 <= i < streams.len() ==> is_combination(
                    #[trigger] streams[i],
                    searched.lists,
                    specs,
                )
        }),
{
    let specs = layout(version, level);
    let searched = word_lists(
        codewords,
        reliability,
        version,
        level,
        uncertain_bits,
        max_attempts,
        outcomes,
        specs.len() as int,
    );
    let lists = searched.lists;
    let streams = streams_found(
        codewords,
        reliability,
        version,
        level,
        uncertain_bits,
        max_attempts,
        max_combinations,
        outcomes,
    ).0;
    if !searched.failed {
        lemma_lists(
            codewords,
            reliability,
            version,
            level,
            uncertain_bits,
            max_attempts,
            outcomes,
            specs.len() as int,
        );
        let sizes = list_sizes(lists);
        let whole = choices(sizes, Seq::empty());
        let all = at_most(whole, max_combinations);
        lemma_choice_count(sizes, Seq::empty());
        lemma_ranked_count(lists, specs, all, all.len() as int);
        assert(streams == ranked_streams(lists, specs, all, all.len() as int));
        lemma_choices_valid(sizes, Seq::empty(), 0);
        assert forall|i: int| 0 <= i < streams.len() implies is_combination(
            #[trigger] streams[i],
            lists,
            specs,
        ) by {
            lemma_streams_chosen(lists, specs, all, all.len() as int, i);
            let k = choose|k: int|
                0 <= k < all.len() && streams[i] == chosen_stream(lists, specs, #[trigger] all[k]);
            let choice = all[k];
            assert(whole[k] == choice);
            let words = Seq::new(lists.len(), |b: int| lists[b][choice[b] as int]);
            assert forall|b: int| 0 <= b < words.len() implies lists[b].contains(
                #[trigger] words[b],
            ) by {
                assert(choice[b] < sizes[b]);
                assert(lists[b].len() <= 3);
                assert(words[b] == lists[b][choice[b] as int]);
            }
            lemma_chosen_combines(lists, specs, choice, words);
            assert(one_of_each(words, lists) && combines(streams[i], words, specs));
        }
    }
}

/// Every combination of found words is among the streams, where the limit admits
/// all of them.
pub proof fn no_combination_is_missed(
    codewords: Seq<u8>,
    reliability: Seq<u32>,
    version: int,
    level: EcLevel,
    uncertain_bits: int,
    max_attempts: int,
    max_combinations: int,
    outcomes: Seq<Vec<Option<ErasureOutcome>>>,
    words: Seq<Corrected>,
)
    requires
        ({
            let specs = layout(version, level);
            let searched = word_lists(
                codewords,
                reliability,
                version,
                level,
                uncertain_bits,
                max_attempts,
                outcomes,
                specs.len() as int,
            );
            &&& !searched.failed
            &&& one_of_each(words, searched.lists)
            &&& ways(list_sizes(searched.lists), 0) <= max_combinations
        }),
    ensures
        ({
            let streams = streams_found(
                codewords,
                reliability,
                version,
                level,
                uncertain_bits,
                max_attempts,
                max_combinations,
                outcomes,
            ).0;
            exists|i: int|
                0 <= i < streams.len() && combines(
                    #[trigger] streams[i],
                    words,
                    layout(version, level),
                )
        }),
{
    let specs = layout(version, level);
    let lists = word_lists(
        codewords,
        reliability,
        version,
        level,
        uncertain_bits,
        max_attempts,
        outcomes,
        specs.len() as int,
    ).lists;
    let streams = streams_found(
        codewords,
        reliability,
        version,
        level,
        uncertain_bits,
        max_attempts,
        max_combinations,
        outcomes,
    ).0;
    lemma_lists(
        codewords,
        reliability,
        version,
        level,
        uncertain_bits,
        max_attempts,
        outcomes,
        specs.len() as int,
    );
    let sizes = list_sizes(lists);
    let choice = Seq::new(lists.len(), |b: int| lists[b].index_of(words[b]) as usize);
    assert forall|b: int| 0 <= b < choice.len() implies (#[trigger] choice[b]) < sizes[b]
        && words[b] == lists[b][choice[b] as int] by {
        assert(lists[b].contains(words[b]));
        assert(lists[b].len() <= 3);
        let at = choose|at: int| 0 <= at < lists[b].len() && lists[b][at] == words[b];
        assert(lists[b][at] == words[b]);
    }
    every_choice_occurs(sizes, choice);
    let all = at_most(choices(sizes, Seq::empty()), max_combinations);
    let k = choose|k: int| 0 <= k < all.len() && all[k] == choice;
    lemma_choices_are_ranked(lists, specs, all, all.len() as int, k);
    assert forall|b: int| 0 <= b < words.len() implies #[trigger] words[b]
        == lists[b][choice[b] as int] by {
        assert(choice[b] < sizes[b]);
    }
    lemma_chosen_combines(lists, specs, choice, words);
    let i = choose|i: int|
        0 <= i < streams.len() && streams[i] == chosen_stream(lists, specs, choice);
    assert(combines(streams[i], words, specs));
}

/// The combination of the best words of all blocks is among the streams, whatever
/// the limit.
pub proof fn the_best_words_are_combined(
    codewords: Seq<u8>,
    reliability: Seq<u32>,
    version: int,
    level: EcLevel,
    uncertain_bits: int,
    max_attempts: int,
    max_combinations: int,
    outcomes: Seq<Vec<Option<ErasureOutcome>>>,
)
    requires
        1 <= max_combinations,
        !word_lists(
            codewords,
            reliability,
            version,
            level,
            uncertain_bits,
            max_attempts,
            outcomes,
            layout(version, level).len() as int,
        ).failed,
    ensures
        ({
            let specs = layout(version, level);
            let lists = word_lists(
                codewords,
                reliability,
                version,
                level,
                uncertain_bits,
                max_attempts,
                outcomes,
                specs.len() as int,
            ).lists;
            let streams = streams_found(
                codewords,
                reliability,
                version,
                level,
                uncertain_bits,
                max_attempts,
                max_combinations,
                outcomes,
            ).0;
            exists|i: int|
                0 <= i < streams.len() && combines(
                    #[trigger] streams[i],
                    Seq::new(lists.len(), |b: int| lists[b][0]),
                    specs,
                )
        }),
{
    let specs = layout(version, level);
    let lists = word_lists(
        codewords,
        reliability,
        version,
        level,
        uncertain_bits,
        max_attempts,
        outcomes,
        specs.len() as int,
    ).lists;
    let streams = streams_found(
        codewords,
        reliability,
        version,
        level,
        uncertain_bits,
        max_attempts,
        max_combinations,
        outcomes,
    ).0;
    lemma_lists(
        codewords,
        reliability,
        version,
        level,
        uncertain_bits,
        max_attempts,
        outcomes,
        specs.len() as int,
    );
    let sizes = list_sizes(lists);
    assert forall|b: int| 0 <= b < sizes.len() implies (#[trigger] sizes[b]) > 0 by {
        assert(1 <= lists[b].len() <= 3);
    }
    lemma_first_choice(sizes, Seq::empty());
    let whole = choices(sizes, Seq::empty());
    let all = at_most(whole, max_combinations);
    let choice = whole[0];
    assert(all[0] == choice);
    lemma_choices_are_ranked(lists, specs, all, all.len() as int, 0);
    let words = Seq::new(lists.len(), |b: int| lists[b][0]);
    assert forall|b: int| 0 <= b < words.len() implies #[trigger] words[b]
        == lists[b][choice[b] as int] by {
        assert(choice[b] == 0);
    }
    lemma_chosen_combines(lists, specs, choice, words);
    let i = choose|i: int|
        0 <= i < streams.len() && streams[i] == chosen_stream(lists, specs, choice);
    assert(combines(streams[i], words, specs));
}

/// Taking a stream apart moves the reliabilities of each codeword to where the
/// codeword goes: what they tell of a codeword, they still tell of it.
pub proof fn reliabilities_move_with_codewords(
    stream: Seq<u8>,
    reliability: Seq<u32>,
    specs: Seq<BlockSpec>,
    tells: spec_fn(u8, int) -> u32,
    b: int,
    i: int,
    t: int,
)
    requires
        regular(specs),
        stream.len() == codeword_total(specs, specs.len() as int),
        forall|k: int, bit: int|
            0 <= k < stream.len() && 0 <= bit < 8 ==> reliability[8 * k + bit] == #[trigger] tells(
                stream[k],
                bit,
            ),
        0 <= b < specs.len(),
        0 <= i < specs[b].data_codewords + specs[b].ecc_codewords,
        0 <= t < 8,
    ensures
        deinterleaved_reliability(reliability, specs)[b].len() == 8 * deinterleaved(
            stream,
            specs,
        )[b].len(),
        deinterleaved_reliability(reliability, specs)[b][8 * i + t] == tells(
            deinterleaved(stream, specs)[b][i],
            t,
        ),
{
    slots_fill_blocks(specs);
    slots_enumerate_blocks(specs);
    assert(slots(specs).contains((b as usize, i as usize)));
    let k = slots(specs).index_of((b as usize, i as usize));
    assert(0 <= k < slots(specs).len());
    assert((8 * i + t) / 8 == i && (8 * i + t) % 8 == t);
    assert(tells(stream[k], t) == reliability[8 * k + t]);
}

} // verus!
