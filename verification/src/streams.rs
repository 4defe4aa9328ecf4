//! Soft-decision correction of a whole codeword stream.

use vstd::prelude::*;

use crate::candidates::{
    corrected, is_sorted, lemma_with_ranked, lemma_with_ranked_sorted, rank_block, ranks_before,
    with_ranked, Corrected, CorrectedBlock,
};
use crate::correction::{
    best, block_search, changes_cost, correct_block_candidates_native, distinct_words,
    erasure_lists, erasure_plan, leads_unchanged, unchanged, ErasureOutcome, Limits,
};
use crate::error::QrError;
use crate::interleave::{
    check_stream, contents, deinterleave_of, deinterleaved, deinterleaved_reliability,
    deinterleaving_undoes_interleaving, interleave_native, interleaved,
    interleaving_undoes_deinterleaving, layout_is_regular, shaped, slots_fill_blocks,
    stream_refusal, Deinterleaved,
};
use crate::layout::{
    layout, layout_bounds, layout_fills_symbol, level_named, total_codewords, valid_version,
    BlockSpec, EcLevel,
};
use crate::order::{copy_bytes, lemma_before_irreflexive};
use crate::reed_solomon_code::{is_code_word, rs_correct, rs_corrected};
use crate::repair::{blocks_are_code_words, CorrectedStream};

verus! {

/// How many words are kept per block.
pub const RESULTS_PER_BLOCK: usize = 3;

/// The words found for the blocks so far. The search ends at a block for which
/// none is found.
pub ghost struct BlockLists {
    pub lists: Seq<Seq<Corrected>>,
    pub attempts: int,
    pub failed: bool,
}

/// The attempts left for a block: at least one.
pub open spec fn attempts_left(max_attempts: int, used: int) -> int {
    if max_attempts - used > 1 {
        max_attempts - used
    } else {
        1
    }
}

/// The outcomes handed in for block `b`, none if there are none.
pub open spec fn outcomes_for(outcomes: Seq<Vec<Option<ErasureOutcome>>>, b: int) -> Seq<
    Option<ErasureOutcome>,
> {
    if b < outcomes.len() {
        outcomes[b]@
    } else {
        Seq::empty()
    }
}

/// The search over the first `n` blocks, which share one budget of attempts.
pub open spec fn blocks_searched(
    blocks: Seq<Seq<u8>>,
    reliabilities: Seq<Seq<u32>>,
    specs: Seq<BlockSpec>,
    uncertain_bits: int,
    max_attempts: int,
    outcomes: Seq<Vec<Option<ErasureOutcome>>>,
    n: int,
) -> BlockLists
    decreases n,
{
    if n <= 0 {
        BlockLists { lists: Seq::empty(), attempts: 0, failed: false }
    } else {
        let before = blocks_searched(
            blocks,
            reliabilities,
            specs,
            uncertain_bits,
            max_attempts,
            outcomes,
            n - 1,
        );
        if before.failed {
            before
        } else {
            let search = block_search(
                blocks[n - 1],
                reliabilities[n - 1],
                specs[n - 1].ecc_codewords as int,
                uncertain_bits,
                Limits {
                    attempts: attempts_left(max_attempts, before.attempts),
                    results: RESULTS_PER_BLOCK as int,
                },
                outcomes_for(outcomes, n - 1),
            );
            let list = best(search.found, RESULTS_PER_BLOCK as int);
            BlockLists {
                lists: if list.len() == 0 {
                    before.lists
                } else {
                    before.lists.push(list)
                },
                attempts: before.attempts + search.attempts,
                failed: list.len() == 0,
            }
        }
    }
}

/// All ways to extend `prefix` to one choice per place, where place `b` has
/// `sizes[b]` choices, in dictionary order.
pub open spec fn choices(sizes: Seq<usize>, prefix: Seq<usize>) -> Seq<Seq<usize>>
    decreases sizes.len() - prefix.len(), usize::MAX + 1,
{
    if prefix.len() >= sizes.len() {
        seq![prefix]
    } else {
        choices_below(sizes, prefix, sizes[prefix.len() as int] as nat)
    }
}

/// The choices whose next place is below `c`.
pub open spec fn choices_below(sizes: Seq<usize>, prefix: Seq<usize>, c: nat) -> Seq<Seq<usize>>
    decreases sizes.len() - prefix.len(), c,
{
    if c == 0 || prefix.len() >= sizes.len() {
        Seq::empty()
    } else {
        choices_below(sizes, prefix, (c - 1) as nat) + choices(
            sizes,
            prefix.push((c - 1) as usize),
        )
    }
}

/// At most the first `limit` of a sequence.
pub open spec fn at_most<T>(list: Seq<T>, limit: int) -> Seq<T> {
    if limit < list.len() {
        list.take(limit)
    } else {
        list
    }
}

/// The words that a choice picks.
pub open spec fn picked(lists: Seq<Seq<Corrected>>, choice: Seq<usize>) -> Seq<Seq<u8>> {
    Seq::new(lists.len(), |b: int| lists[b][choice[b] as int].codewords)
}

/// How many codewords the first `n` picked words changed.
pub open spec fn picked_symbols(lists: Seq<Seq<Corrected>>, choice: Seq<usize>, n: int) -> int
    decreases n,
{
    if n <= 0 {
        0
    } else {
        picked_symbols(lists, choice, n - 1) + lists[n - 1][choice[n - 1] as int].corrected_symbols
    }
}

/// What the first `n` picked words cost.
pub open spec fn picked_cost(lists: Seq<Seq<Corrected>>, choice: Seq<usize>, n: int) -> int
    decreases n,
{
    if n <= 0 {
        0
    } else {
        picked_cost(lists, choice, n - 1) + lists[n - 1][choice[n - 1] as int].search_cost
    }
}

/// The stream that a choice of one word per block makes.
pub open spec fn chosen_stream(
    lists: Seq<Seq<Corrected>>,
    specs: Seq<BlockSpec>,
    choice: Seq<usize>,
) -> Corrected {
    Corrected {
        codewords: interleaved(picked(lists, choice), specs),
        corrected_symbols: picked_symbols(lists, choice, lists.len() as int),
        search_cost: picked_cost(lists, choice, lists.len() as int),
    }
}

/// The streams of the first `n` choices in rank order.
pub open spec fn ranked_streams(
    lists: Seq<Seq<Corrected>>,
    specs: Seq<BlockSpec>,
    all: Seq<Seq<usize>>,
    n: int,
) -> Seq<Corrected>
    decreases n,
{
    if n <= 0 {
        Seq::empty()
    } else {
        with_ranked(
            ranked_streams(lists, specs, all, n - 1),
            chosen_stream(lists, specs, all[n - 1]),
        )
    }
}

/// How many choices each block has.
pub open spec fn list_sizes(lists: Seq<Seq<Corrected>>) -> Seq<usize> {
    Seq::new(lists.len(), |b: int| lists[b].len() as usize)
}

/// The streams to which a received stream can be corrected, and the attempts
/// that finding them took.
pub open spec fn streams_found(
    codewords: Seq<u8>,
    reliability: Seq<u32>,
    version: int,
    level: EcLevel,
    uncertain_bits: int,
    max_attempts: int,
    max_combinations: int,
    outcomes: Seq<Vec<Option<ErasureOutcome>>>,
) -> (Seq<Corrected>, int) {
    let specs = layout(version, level);
    let searched = blocks_searched(
        deinterleaved(codewords, specs),
        deinterleaved_reliability(reliability, specs),
        specs,
        uncertain_bits,
        max_attempts,
        outcomes,
        specs.len() as int,
    );
    if searched.failed {
        (Seq::empty(), searched.attempts)
    } else {
        let all = at_most(
            choices(list_sizes(searched.lists), Seq::empty()),
            max_combinations,
        );
        (ranked_streams(searched.lists, specs, all, all.len() as int), searched.attempts)
    }
}

proof fn lemma_at_most<T>(a: Seq<T>, b: Seq<T>, limit: int)
    requires
        0 <= limit,
    ensures
        at_most(at_most(a, limit) + b, limit) == at_most(a + b, limit),
        a.len() >= limit ==> at_most(a + b, limit) == at_most(a, limit),
{
    assert(at_most(at_most(a, limit) + b, limit) =~= at_most(a + b, limit));
    if a.len() >= limit {
        assert(at_most(a + b, limit) =~= at_most(a, limit));
    }
}

proof fn lemma_choices_begin(sizes: Seq<usize>, prefix: Seq<usize>, c: nat, d: nat)
    requires
        c <= d,
    ensures
        exists|rest: Seq<Seq<usize>>| #[trigger]
            (choices_below(sizes, prefix, c) + rest) == choices_below(sizes, prefix, d),
    decreases d,
{
    if c == d {
        let none = Seq::<Seq<usize>>::empty();
        assert(choices_below(sizes, prefix, c) + none =~= choices_below(sizes, prefix, d));
    } else {
        lemma_choices_begin(sizes, prefix, c, (d - 1) as nat);
        let rest = choose|rest: Seq<Seq<usize>>| #[trigger]
            (choices_below(sizes, prefix, c) + rest) == choices_below(
                sizes,
                prefix,
                (d - 1) as nat,
            );
        if prefix.len() < sizes.len() {
            let more = rest + choices(sizes, prefix.push((d - 1) as usize));
            assert(choices_below(sizes, prefix, c) + more =~= choices_below(sizes, prefix, d));
        } else {
            assert(choices_below(sizes, prefix, c) + rest == choices_below(sizes, prefix, d));
        }
    }
}

/// Every choice has one place per list, within its size.
pub(crate) proof fn lemma_choices_valid(sizes: Seq<usize>, prefix: Seq<usize>, c: nat)
    requires
        prefix.len() <= sizes.len(),
        forall|b: int| 0 <= b < prefix.len() ==> (#[trigger] prefix[b]) < sizes[b],
        prefix.len() < sizes.len() ==> c <= sizes[prefix.len() as int],
    ensures
        forall|k: int|
            0 <= k < choices(sizes, prefix).len() ==> is_choice(
                sizes,
                #[trigger] choices(sizes, prefix)[k],
            ),
        prefix.len() < sizes.len() ==> forall|k: int|
            0 <= k < choices_below(sizes, prefix, c).len() ==> is_choice(
                sizes,
                #[trigger] choices_below(sizes, prefix, c)[k],
            ),
    decreases sizes.len() - prefix.len(), usize::MAX + 1 + c,
{
    if prefix.len() < sizes.len() {
        lemma_choices_below_valid(sizes, prefix, c);
        lemma_choices_below_valid(sizes, prefix, sizes[prefix.len() as int] as nat);
        assert(choices(sizes, prefix) == choices_below(
            sizes,
            prefix,
            sizes[prefix.len() as int] as nat,
        ));
    } else {
        assert(choices(sizes, prefix) =~= seq![prefix]);
    }
}

proof fn lemma_choices_below_valid(sizes: Seq<usize>, prefix: Seq<usize>, c: nat)
    requires
        prefix.len() < sizes.len(),
        forall|b: int| 0 <= b < prefix.len() ==> (#[trigger] prefix[b]) < sizes[b],
        c <= sizes[prefix.len() as int],
    ensures
        forall|k: int|
            0 <= k < choices_below(sizes, prefix, c).len() ==> is_choice(
                sizes,
                #[trigger] choices_below(sizes, prefix, c)[k],
            ),
    decreases sizes.len() - prefix.len(), c as int,
{
    if c > 0 {
        lemma_choices_below_valid(sizes, prefix, (c - 1) as nat);
        let longer = prefix.push((c - 1) as usize);
        lemma_choices_valid(sizes, longer, 0);
        let earlier = choices_below(sizes, prefix, (c - 1) as nat);
        let all = choices_below(sizes, prefix, c);
        assert forall|k: int| 0 <= k < all.len() implies is_choice(sizes, #[trigger] all[k]) by {
            if k < earlier.len() {
                assert(all[k] == earlier[k]);
            } else {
                assert(all[k] == choices(sizes, longer)[k - earlier.len()]);
            }
        }
    }
}

/// Whether no two choices of a list are the same, and all start with `prefix`.
spec fn distinct_choices(list: Seq<Seq<usize>>, prefix: Seq<usize>) -> bool {
    &&& forall|i: int, j: int| 0 <= i < j < list.len() ==> #[trigger] list[i] != #[trigger] list[j]
    &&& forall|k: int|
        0 <= k < list.len() ==> (#[trigger] list[k]).len() >= prefix.len() && list[k].take(
            prefix.len() as int,
        ) == prefix
}

proof fn lemma_choices_distinct(sizes: Seq<usize>, prefix: Seq<usize>)
    ensures
        distinct_choices(choices(sizes, prefix), prefix),
    decreases sizes.len() - prefix.len(), usize::MAX + 1,
{
    if prefix.len() < sizes.len() {
        lemma_choices_below_distinct(sizes, prefix, sizes[prefix.len() as int] as nat);
    } else {
        assert(choices(sizes, prefix) =~= seq![prefix]);
        assert(prefix.take(prefix.len() as int) =~= prefix);
    }
}

proof fn lemma_choices_below_distinct(sizes: Seq<usize>, prefix: Seq<usize>, c: nat)
    requires
        prefix.len() < sizes.len(),
        c <= sizes[prefix.len() as int],
    ensures
        distinct_choices(choices_below(sizes, prefix, c), prefix),
        forall|k: int|
            0 <= k < choices_below(sizes, prefix, c).len() ==> {
                let choice = #[trigger] choices_below(sizes, prefix, c)[k];
                choice.len() > prefix.len() && choice[prefix.len() as int] < c
            },
    decreases sizes.len() - prefix.len(), c as int,
{
    if c > 0 {
        lemma_choices_below_distinct(sizes, prefix, (c - 1) as nat);
        let longer = prefix.push((c - 1) as usize);
        lemma_choices_distinct(sizes, longer);
        let earlier = choices_below(sizes, prefix, (c - 1) as nat);
        let later = choices(sizes, longer);
        let all = choices_below(sizes, prefix, c);
        let m = prefix.len() as int;
        assert forall|k: int| 0 <= k < all.len() implies {
            let choice = #[trigger] all[k];
            &&& choice.len() > m && choice[m] < c
            &&& choice.take(m) == prefix
            &&& k >= earlier.len() ==> choice[m] == c - 1
        } by {
            if k < earlier.len() {
                assert(all[k] == earlier[k]);
            } else {
                let choice = later[k - earlier.len()];
                assert(all[k] == choice);
                assert(choice.take(m + 1) == longer);
                assert(choice[m] == choice.take(m + 1)[m]);
                assert(choice.take(m) =~= choice.take(m + 1).take(m));
                assert(longer.take(m) =~= prefix);
            }
        }
        assert forall|i: int, j: int| 0 <= i < j < all.len() implies #[trigger] all[i]
            != #[trigger] all[j] by {
            if j < earlier.len() {
                assert(all[i] == earlier[i] && all[j] == earlier[j]);
            } else if i >= earlier.len() {
                assert(all[i] == later[i - earlier.len()] && all[j] == later[j - earlier.len()]);
            } else {
                assert(all[i] == earlier[i]);
                assert(all[j][m] == c - 1);
            }
        }
    }
}

/// One place per list, within its size.
pub open spec fn is_choice(sizes: Seq<usize>, choice: Seq<usize>) -> bool {
    &&& choice.len() == sizes.len()
    &&& forall|b: int| 0 <= b < choice.len() ==> (#[trigger] choice[b]) < sizes[b]
}

/// Collects the choices that extend `prefix`, up to `limit` in all.
fn collect_choices(
    sizes: &Vec<usize>,
    prefix: &mut Vec<usize>,
    output: &mut Vec<Vec<usize>>,
    limit: usize,
)
    requires
        old(prefix)@.len() <= sizes@.len(),
        old(output)@.len() <= limit,
    ensures
        final(prefix)@ == old(prefix)@,
        contents(final(output)@) == at_most(
            contents(old(output)@) + choices(sizes@, old(prefix)@),
            limit as int,
        ),
        final(output)@.len() <= limit,
    decreases sizes@.len() - old(prefix)@.len(),
{
    let ghost before = contents(output@);
    let ghost start = prefix@;
    if output.len() >= limit {
        assert(contents(output@) =~= at_most(before + choices(sizes@, start), limit as int));
        return ;
    }
    if prefix.len() == sizes.len() {
        let choice: Vec<usize> = prefix.clone();
        output.push(choice);
        assert(contents(output@) =~= before + seq![start]);
        assert(contents(output@) =~= at_most(before + choices(sizes@, start), limit as int));
        return ;
    }
    let size: usize = sizes[prefix.len()];
    let mut c: usize = 0;
    assert(contents(output@) =~= at_most(
        before + choices_below(sizes@, start, 0),
        limit as int,
    ));
    while c < size && output.len() < limit
        invariant
            prefix@ == start,
            old(prefix)@ == start,
            start.len() < sizes@.len(),
            size == sizes@[start.len() as int],
            c <= size,
            output@.len() <= limit,
            contents(output@) == at_most(
                before + choices_below(sizes@, start, c as nat),
                limit as int,
            ),
        decreases size - c,
    {
        let ghost done = choices_below(sizes@, start, c as nat);
        let ghost more = choices(sizes@, start.push(c));
        prefix.push(c);
        collect_choices(sizes, prefix, output, limit);
        prefix.pop();
        proof {
            lemma_at_most(before + done, more, limit as int);
            assert(before + done + more =~= before + choices_below(sizes@, start, (c + 1) as nat));
            assert(prefix@ =~= start);
        }
        c += 1;
    }
    proof {
        if c < size {
            lemma_choices_begin(sizes@, start, c as nat, size as nat);
            let rest = choose|rest: Seq<Seq<usize>>| #[trigger]
                (choices_below(sizes@, start, c as nat) + rest) == choices_below(
                    sizes@,
                    start,
                    size as nat,
                );
            let part = choices_below(sizes@, start, c as nat);
            lemma_at_most(before + part, rest, limit as int);
            assert(before + part + rest =~= before + (part + rest));
            assert(contents(output@).len() == output@.len());
            assert((before + part).len() >= limit);
        }
    }
}

/// The words of a block list.
pub(crate) open spec fn list_contents(lists: Seq<Vec<CorrectedBlock>>) -> Seq<Seq<Corrected>> {
    Seq::new(lists.len(), |b: int| corrected(lists[b]@))
}

/// What the words found for the blocks are known to be.
spec fn lists_sound(lists: Seq<Seq<Corrected>>, specs: Seq<BlockSpec>) -> bool {
    &&& lists.len() <= specs.len() <= 81
    &&& forall|b: int, i: int|
        0 <= b < lists.len() && 0 <= i < lists[b].len() ==> {
            let word = #[trigger] lists[b][i];
            &&& word.codewords.len() == specs[b].data_codewords + specs[b].ecc_codewords
            &&& is_code_word(word.codewords, specs[b].ecc_codewords as int)
            &&& 0 <= word.search_cost <= 600
            &&& 0 <= word.corrected_symbols <= 255
        }
    &&& forall|b: int|
        0 <= b < lists.len() ==> 1 <= (#[trigger] lists[b]).len() <= 3 && distinct_words(lists[b])
}

/// Puts the stream of one choice together.
fn choose_stream(
    lists: &Vec<Vec<CorrectedBlock>>,
    specs: &Vec<BlockSpec>,
    choice: &Vec<usize>,
    Ghost(version): Ghost<int>,
    Ghost(level): Ghost<EcLevel>,
) -> (stream: CorrectedBlock)
    requires
        valid_version(version),
        specs@ == layout(version, level),
        lists@.len() == specs@.len(),
        lists_sound(list_contents(lists@), specs@),
        is_choice(list_sizes(list_contents(lists@)), choice@),
    ensures
        stream@ == chosen_stream(list_contents(lists@), specs@, choice@),
        stream@.codewords.len() == total_codewords(version),
        blocks_are_code_words(stream@.codewords, version, level),
        0 <= stream@.search_cost <= 600 * 81,
        0 <= stream@.corrected_symbols <= 255 * 81,
{
    let ghost views = list_contents(lists@);
    let mut blocks: Vec<Vec<u8>> = Vec::new();
    let mut corrected_symbols: usize = 0;
    let mut search_cost: u64 = 0;
    let mut b: usize = 0;
    while b < specs.len()
        invariant
            views == list_contents(lists@),
            lists@.len() == specs@.len() <= 81,
            lists_sound(views, specs@),
            is_choice(list_sizes(views), choice@),
            b <= specs@.len(),
            blocks@.len() == b,
            forall|c: int|
                0 <= c < b ==> (#[trigger] blocks@[c])@ == views[c][choice@[c] as int].codewords,
            corrected_symbols == picked_symbols(views, choice@, b as int),
            search_cost == picked_cost(views, choice@, b as int),
            corrected_symbols <= 255 * b,
            search_cost <= 600 * b,
        decreases specs@.len() - b,
    {
        assert(choice@[b as int] < list_sizes(views)[b as int]);
        assert(1 <= views[b as int].len() <= 3);
        assert(views[b as int].len() == lists@[b as int]@.len());
        let word: &CorrectedBlock = &lists[b][choice[b]];
        assert(views[b as int][choice@[b as int] as int] == word@);
        blocks.push(copy_bytes(word.codewords.as_slice()));
        corrected_symbols += word.corrected_symbols;
        search_cost += word.search_cost;
        b += 1;
    }
    proof {
        assert(contents(blocks@) =~= picked(views, choice@));
        layout_is_regular(version, level);
        layout_fills_symbol(version, level);
        slots_fill_blocks(specs@);
        assert forall|c: int| 0 <= c < specs@.len() implies {
            &&& (#[trigger] contents(blocks@)[c]).len() == specs@[c].data_codewords
                + specs@[c].ecc_codewords
            &&& is_code_word(contents(blocks@)[c], specs@[c].ecc_codewords as int)
        } by {
            let block = blocks@[c];
            assert(choice@[c] < list_sizes(views)[c]);
            assert(1 <= views[c].len() <= 3);
            let word = views[c][choice@[c] as int];
        }
        assert(shaped(contents(blocks@), specs@));
        deinterleaving_undoes_interleaving(contents(blocks@), specs@);
    }
    let codewords: Vec<u8> = match interleave_native(&blocks, specs) {
        Ok(codewords) => codewords,
        Err(_) => Vec::new(),
    };
    CorrectedBlock { codewords, corrected_symbols, search_cost }
}

/// What every corrected stream is: made of code words, of the right length and
/// of bounded cost.
pub open spec fn stream_sound(stream: Corrected, version: int, level: EcLevel) -> bool {
    &&& stream.codewords.len() == total_codewords(version)
    &&& blocks_are_code_words(stream.codewords, version, level)
    &&& 0 <= stream.search_cost <= 600 * 81
    &&& 0 <= stream.corrected_symbols <= 255 * 81
}

/// A corrected stream's words, changes and cost.
pub open spec fn stream_view(stream: CorrectedStream) -> Corrected {
    Corrected {
        codewords: stream.codewords@,
        corrected_symbols: stream.corrected_symbols as int,
        search_cost: stream.search_cost as int,
    }
}

/// What a list of streams holds.
pub open spec fn stream_views(list: Seq<CorrectedStream>) -> Seq<Corrected> {
    Seq::new(list.len(), |i: int| stream_view(list[i]))
}

fn as_streams(list: Vec<CorrectedBlock>) -> (streams: Vec<CorrectedStream>)
    ensures
        stream_views(streams@) == corrected(list@),
{
    let ghost all = corrected(list@);
    let mut rest: Vec<CorrectedBlock> = list;
    let mut streams: Vec<CorrectedStream> = Vec::new();
    assert(stream_views(streams@) =~= all.subrange(rest@.len() as int, all.len() as int));
    while rest.len() > 0
        invariant
            rest@.len() <= all.len(),
            corrected(rest@) == all.take(rest@.len() as int),
            stream_views(streams@) == all.subrange(rest@.len() as int, all.len() as int),
        decreases rest@.len(),
    {
        let ghost before = rest@;
        let last: Option<CorrectedBlock> = rest.pop();
        if let Some(word) = last {
            let stream = CorrectedStream {
                codewords: word.codewords,
                corrected_symbols: word.corrected_symbols,
                search_cost: word.search_cost,
            };
            let ghost later = streams@;
            streams.insert(0, stream);
            proof {
                assert(stream_view(stream) == corrected(before)[before.len() - 1]);
                assert(corrected(rest@) =~= all.take(rest@.len() as int));
                assert(stream_views(streams@) =~= seq![stream_view(stream)] + stream_views(later));
                assert(stream_views(streams@) =~= all.subrange(
                    rest@.len() as int,
                    all.len() as int,
                ));
            }
        }
    }
    assert(all.subrange(0, all.len() as int) =~= all);
    streams
}

/// Ranks the streams of the first choices.
proof fn lemma_ranked_distinct(list: Seq<Corrected>, word: Corrected)
    requires
        distinct_words(list),
        forall|i: int| 0 <= i < list.len() ==> (#[trigger] list[i]).codewords != word.codewords,
    ensures
        distinct_words(with_ranked(list, word)),
    decreases list.len(),
{
    let next = with_ranked(list, word);
    if list.len() > 0 && ranks_before(word, list.last()) {
        let rest = list.drop_last();
        let n = rest.len() as int;
        assert(distinct_words(rest)) by {
            assert forall|i: int, j: int|
                0 <= i < rest.len() && 0 <= j < rest.len() && i != j implies (
            #[trigger] rest[i]).codewords != (#[trigger] rest[j]).codewords by {
                assert(list[i].codewords != list[j].codewords);
            }
        }
        assert forall|i: int| 0 <= i < rest.len() implies (#[trigger] rest[i]).codewords
            != word.codewords by {
            assert(list[i].codewords != word.codewords);
        }
        lemma_ranked_distinct(rest, word);
        lemma_with_ranked(rest, word);
        let inner = with_ranked(rest, word);
        assert forall|i: int| 0 <= i < inner.len() implies (#[trigger] inner[i]).codewords
            != list[n].codewords by {
            if inner[i] != word {
                let k = rest.index_of(inner[i]);
                assert(rest[k] == inner[i]);
                assert(list[k].codewords != list[n].codewords);
            }
        }
        assert forall|i: int, j: int|
            0 <= i < next.len() && 0 <= j < next.len() && i != j implies (
        #[trigger] next[i]).codewords != (#[trigger] next[j]).codewords by {
            if i < inner.len() {
                assert(next[i] == inner[i]);
            }
            if j < inner.len() {
                assert(next[j] == inner[j]);
            }
        }
    }
}

proof fn lemma_picks_differ(
    lists: Seq<Seq<Corrected>>,
    version: int,
    level: EcLevel,
    a: Seq<usize>,
    b: Seq<usize>,
)
    requires
        valid_version(version),
        lists.len() == layout(version, level).len(),
        lists_sound(lists, layout(version, level)),
        is_choice(list_sizes(lists), a),
        is_choice(list_sizes(lists), b),
        a != b,
    ensures
        chosen_stream(lists, layout(version, level), a).codewords != chosen_stream(
            lists,
            layout(version, level),
            b,
        ).codewords,
{
    let specs = layout(version, level);
    layout_is_regular(version, level);
    lemma_picked_shaped(lists, specs, a);
    lemma_picked_shaped(lists, specs, b);
    deinterleaving_undoes_interleaving(picked(lists, a), specs);
    deinterleaving_undoes_interleaving(picked(lists, b), specs);
    if picked(lists, a) == picked(lists, b) {
        assert forall|c: int| 0 <= c < a.len() implies a[c] == b[c] by {
            assert(a[c] < list_sizes(lists)[c] && b[c] < list_sizes(lists)[c]);
            let list = lists[c];
            assert(picked(lists, a)[c] == picked(lists, b)[c]);
            assert(list[a[c] as int].codewords == list[b[c] as int].codewords);
            assert(1 <= list.len() <= 3 && distinct_words(list));
        }
        assert(a =~= b);
    }
}

proof fn lemma_picked_shaped(lists: Seq<Seq<Corrected>>, specs: Seq<BlockSpec>, choice: Seq<usize>)
    requires
        lists.len() == specs.len(),
        lists_sound(lists, specs),
        is_choice(list_sizes(lists), choice),
    ensures
        shaped(picked(lists, choice), specs),
{
    assert forall|c: int| 0 <= c < specs.len() implies (#[trigger] picked(lists, choice)[c]).len()
        == specs[c].data_codewords + specs[c].ecc_codewords by {
        assert(choice[c] < list_sizes(lists)[c]);
        assert(1 <= lists[c].len() <= 3);
        let word = lists[c][choice[c] as int];
    }
}

proof fn lemma_ranked_streams_distinct(
    lists: Seq<Seq<Corrected>>,
    version: int,
    level: EcLevel,
    all: Seq<Seq<usize>>,
    n: int,
)
    requires
        valid_version(version),
        lists.len() == layout(version, level).len(),
        lists_sound(lists, layout(version, level)),
        0 <= n <= all.len(),
        forall|k: int| 0 <= k < all.len() ==> is_choice(list_sizes(lists), #[trigger] all[k]),
        forall|i: int, j: int| 0 <= i < j < all.len() ==> #[trigger] all[i] != #[trigger] all[j],
    ensures
        distinct_words(ranked_streams(lists, layout(version, level), all, n)),
        forall|i: int|
            0 <= i < ranked_streams(lists, layout(version, level), all, n).len() ==> exists|k: int|
                0 <= k < n && #[trigger] ranked_streams(lists, layout(version, level), all, n)[i]
                    == chosen_stream(lists, layout(version, level), #[trigger] all[k]),
    decreases n,
{
    let specs = layout(version, level);
    if n > 0 {
        lemma_ranked_streams_distinct(lists, version, level, all, n - 1);
        let before = ranked_streams(lists, specs, all, n - 1);
        let after = ranked_streams(lists, specs, all, n);
        let word = chosen_stream(lists, specs, all[n - 1]);
        assert forall|i: int| 0 <= i < before.len() implies (#[trigger] before[i]).codewords
            != word.codewords by {
            let k = choose|k: int|
                0 <= k < n - 1 && before[i] == chosen_stream(lists, specs, #[trigger] all[k]);
            lemma_picks_differ(lists, version, level, all[k], all[n - 1]);
        }
        lemma_ranked_distinct(before, word);
        lemma_with_ranked(before, word);
        assert forall|i: int| 0 <= i < after.len() implies exists|k: int|
            0 <= k < n && #[trigger] after[i] == chosen_stream(lists, specs, #[trigger] all[k]) by {
            if after[i] == word {
                assert(after[i] == chosen_stream(lists, specs, all[n - 1]));
            } else {
                let m = before.index_of(after[i]);
                assert(before[m] == after[i]);
                let k = choose|k: int|
                    0 <= k < n - 1 && before[m] == chosen_stream(lists, specs, #[trigger] all[k]);
                assert(after[i] == chosen_stream(lists, specs, all[k]));
            }
        }
    }
}

fn rank_streams(
    lists: &Vec<Vec<CorrectedBlock>>,
    specs: &Vec<BlockSpec>,
    max_combinations: usize,
    Ghost(version): Ghost<int>,
    Ghost(level): Ghost<EcLevel>,
) -> (ranked: Vec<CorrectedBlock>)
    requires
        valid_version(version),
        specs@ == layout(version, level),
        lists@.len() == specs@.len(),
        lists_sound(list_contents(lists@), specs@),
    ensures
        ({
            let views = list_contents(lists@);
            let all = at_most(choices(list_sizes(views), Seq::empty()), max_combinations as int);
            corrected(ranked@) == ranked_streams(views, specs@, all, all.len() as int)
        }),
        ranked@.len() <= max_combinations,
        is_sorted(corrected(ranked@)),
        distinct_words(corrected(ranked@)),
        forall|i: int|
            0 <= i < ranked@.len() ==> stream_sound(
                #[trigger] corrected(ranked@)[i],
                version,
                level,
            ),
{
    let ghost views = list_contents(lists@);
    let mut sizes: Vec<usize> = Vec::new();
    let mut b: usize = 0;
    while b < lists.len()
        invariant
            views == list_contents(lists@),
            b <= lists@.len(),
            sizes@ == list_sizes(views).take(b as int),
        decreases lists@.len() - b,
    {
        sizes.push(lists[b].len());
        b += 1;
        assert(sizes@ =~= list_sizes(views).take(b as int));
    }
    assert(sizes@ =~= list_sizes(views));
    let mut prefix: Vec<usize> = Vec::new();
    let mut chosen: Vec<Vec<usize>> = Vec::new();
    let ghost none = contents(chosen@);
    collect_choices(&sizes, &mut prefix, &mut chosen, max_combinations);
    let ghost all = at_most(choices(list_sizes(views), Seq::empty()), max_combinations as int);
    proof {
        assert(none + choices(sizes@, Seq::empty()) =~= choices(sizes@, Seq::empty()));
        assert(contents(chosen@) == all);
        lemma_choices_valid(sizes@, Seq::empty(), 0);
    }
    let mut ranked: Vec<CorrectedBlock> = Vec::new();
    let mut n: usize = 0;
    assert(corrected(ranked@) =~= Seq::<Corrected>::empty());
    while n < chosen.len()
        invariant
            valid_version(version),
            specs@ == layout(version, level),
            lists@.len() == specs@.len(),
            views == list_contents(lists@),
            lists_sound(views, specs@),
            all == contents(chosen@),
            forall|k: int|
                0 <= k < all.len() ==> is_choice(list_sizes(views), #[trigger] all[k]),
            n <= chosen@.len() <= max_combinations,
            ranked@.len() == n,
            corrected(ranked@) == ranked_streams(views, specs@, all, n as int),
            is_sorted(corrected(ranked@)),
            forall|i: int|
                0 <= i < ranked@.len() ==> stream_sound(
                    #[trigger] corrected(ranked@)[i],
                    version,
                    level,
                ),
        decreases chosen@.len() - n,
    {
        assert(all[n as int] == chosen@[n as int]@);
        let stream: CorrectedBlock = choose_stream(
            lists,
            specs,
            &chosen[n],
            Ghost(version),
            Ghost(level),
        );
        let ghost before = corrected(ranked@);
        proof {
            lemma_with_ranked(before, stream@);
            lemma_with_ranked_sorted(before, stream@);
        }
        rank_block(&mut ranked, stream);
        proof {
            let after = corrected(ranked@);
            assert(after.len() == before.len() + 1);
            assert forall|i: int| 0 <= i < ranked@.len() implies stream_sound(
                #[trigger] after[i],
                version,
                level,
            ) by {
                if after[i] != stream@ {
                    let k = before.index_of(after[i]);
                    assert(before[k] == after[i]);
                }
            }
        }
        n += 1;
    }
    proof {
        let every = choices(list_sizes(views), Seq::empty());
        lemma_choices_distinct(list_sizes(views), Seq::empty());
        assert forall|i: int, j: int| 0 <= i < j < all.len() implies #[trigger] all[i]
            != #[trigger] all[j] by {
            assert(all[i] == every[i] && all[j] == every[j]);
        }
        lemma_ranked_streams_distinct(views, version, level, all, all.len() as int);
    }
    ranked
}

/// Whether no erasure outcome turns a block of a stream into another word for
/// free.
pub open spec fn all_changes_cost(
    outcomes: Seq<Vec<Option<ErasureOutcome>>>,
    blocks: Seq<Seq<u8>>,
) -> bool {
    forall|b: int|
        0 <= b < blocks.len() ==> changes_cost(outcomes_for(outcomes, b), #[trigger] blocks[b])
}

/// Whether a stream needs no correction, and no erasure outcome pretends that it
/// does.
pub open spec fn is_clean(
    codewords: Seq<u8>,
    version: int,
    level: EcLevel,
    outcomes: Seq<Vec<Option<ErasureOutcome>>>,
) -> bool {
    &&& blocks_are_code_words(codewords, version, level)
    &&& all_changes_cost(outcomes, deinterleaved(codewords, layout(version, level)))
}

/// Whether every list starts with an unchanged block.
pub(crate) open spec fn all_lead_unchanged(lists: Seq<Seq<Corrected>>, blocks: Seq<Seq<u8>>) -> bool {
    forall|b: int| 0 <= b < lists.len() ==> leads_unchanged(#[trigger] lists[b], blocks[b])
}

pub(crate) proof fn lemma_first_choice(sizes: Seq<usize>, prefix: Seq<usize>)
    requires
        prefix.len() <= sizes.len(),
        forall|b: int| 0 <= b < sizes.len() ==> (#[trigger] sizes[b]) > 0,
        forall|b: int| 0 <= b < prefix.len() ==> (#[trigger] prefix[b]) == 0,
    ensures
        choices(sizes, prefix).len() > 0,
        choices(sizes, prefix)[0].len() == sizes.len(),
        forall|b: int| 0 <= b < sizes.len() ==> (#[trigger] choices(sizes, prefix)[0][b]) == 0,
    decreases sizes.len() - prefix.len(),
{
    if prefix.len() < sizes.len() {
        let c = sizes[prefix.len() as int] as nat;
        let longer = prefix.push(0);
        lemma_first_choice(sizes, longer);
        lemma_choices_begin(sizes, prefix, 1, c);
        let first = choices_below(sizes, prefix, 1);
        assert(choices_below(sizes, prefix, 0) =~= Seq::<Seq<usize>>::empty());
        assert(first =~= choices(sizes, longer));
        let rest = choose|rest: Seq<Seq<usize>>| #[trigger]
            (choices_below(sizes, prefix, 1) + rest) == choices_below(sizes, prefix, c);
        assert(choices(sizes, prefix) == first + rest);
        assert(choices(sizes, prefix)[0] == first[0]);
    } else {
        assert(choices(sizes, prefix)[0] == prefix);
    }
}

proof fn lemma_picked_clean(
    lists: Seq<Seq<Corrected>>,
    blocks: Seq<Seq<u8>>,
    choice: Seq<usize>,
    n: int,
)
    requires
        0 <= n <= lists.len(),
        all_lead_unchanged(lists, blocks),
        is_choice(list_sizes(lists), choice),
        forall|b: int| 0 <= b < lists.len() ==> (#[trigger] lists[b]).len() <= 3,
    ensures
        picked_cost(lists, choice, n) >= 0,
        picked_cost(lists, choice, n) == 0 ==> picked_symbols(lists, choice, n) == 0,
        picked_cost(lists, choice, n) == 0 ==> forall|b: int|
            0 <= b < n ==> (#[trigger] choice[b]) == 0,
        (forall|b: int| 0 <= b < n ==> (#[trigger] choice[b]) == 0) ==> picked_cost(
            lists,
            choice,
            n,
        ) == 0,
    decreases n,
{
    if n > 0 {
        lemma_picked_clean(lists, blocks, choice, n - 1);
        let list = lists[n - 1];
        assert(leads_unchanged(list, blocks[n - 1]));
        assert(choice[n - 1] < list_sizes(lists)[n - 1]);
        if choice[n - 1] > 0 {
            assert(list[choice[n - 1] as int].search_cost > 0);
        }
    }
}

proof fn lemma_chosen_clean(
    lists: Seq<Seq<Corrected>>,
    codewords: Seq<u8>,
    version: int,
    level: EcLevel,
    choice: Seq<usize>,
)
    requires
        valid_version(version),
        codewords.len() == total_codewords(version),
        lists.len() == layout(version, level).len(),
        all_lead_unchanged(lists, deinterleaved(codewords, layout(version, level))),
        is_choice(list_sizes(lists), choice),
        forall|b: int| 0 <= b < lists.len() ==> (#[trigger] lists[b]).len() <= 3,
    ensures
        ({
            let stream = chosen_stream(lists, layout(version, level), choice);
            &&& stream.search_cost > 0 || stream == unchanged(codewords)
            &&& (forall|b: int| 0 <= b < choice.len() ==> (#[trigger] choice[b]) == 0) ==> stream
                == unchanged(codewords)
        }),
{
    let specs = layout(version, level);
    let blocks = deinterleaved(codewords, specs);
    let n = lists.len() as int;
    lemma_picked_clean(lists, blocks, choice, n);
    if picked_cost(lists, choice, n) == 0 {
        assert forall|b: int| 0 <= b < n implies picked(lists, choice)[b] == blocks[b] by {
            assert(choice[b] == 0);
            assert(leads_unchanged(lists[b], blocks[b]));
        }
        assert(picked(lists, choice) =~= blocks);
        layout_is_regular(version, level);
        layout_fills_symbol(version, level);
        interleaving_undoes_deinterleaving(codewords, specs);
    }
}

proof fn lemma_ranked_first(list: Seq<Corrected>, word: Corrected, first: Corrected)
    requires
        list.len() > 0,
        list[0] == first,
        first.search_cost == 0,
        word == first || word.search_cost > 0,
    ensures
        with_ranked(list, word).len() > 0,
        with_ranked(list, word)[0] == first,
    decreases list.len(),
{
    lemma_before_irreflexive(first.codewords, 0);
    if list.len() > 1 && ranks_before(word, list.last()) {
        lemma_ranked_first(list.drop_last(), word, first);
    }
}

proof fn lemma_clean_leads(
    lists: Seq<Seq<Corrected>>,
    codewords: Seq<u8>,
    version: int,
    level: EcLevel,
    all: Seq<Seq<usize>>,
    n: int,
)
    requires
        valid_version(version),
        codewords.len() == total_codewords(version),
        lists.len() == layout(version, level).len(),
        all_lead_unchanged(lists, deinterleaved(codewords, layout(version, level))),
        forall|b: int| 0 <= b < lists.len() ==> (#[trigger] lists[b]).len() <= 3,
        forall|k: int| 0 <= k < all.len() ==> is_choice(list_sizes(lists), #[trigger] all[k]),
        0 < n <= all.len(),
        forall|b: int| 0 <= b < all[0].len() ==> (#[trigger] all[0][b]) == 0,
    ensures
        ranked_streams(lists, layout(version, level), all, n).len() > 0,
        ranked_streams(lists, layout(version, level), all, n)[0] == unchanged(codewords),
    decreases n,
{
    let specs = layout(version, level);
    lemma_chosen_clean(lists, codewords, version, level, all[n - 1]);
    let before = ranked_streams(lists, specs, all, n - 1);
    if n == 1 {
        assert(before =~= Seq::<Corrected>::empty());
    } else {
        lemma_clean_leads(lists, codewords, version, level, all, n - 1);
        lemma_ranked_first(
            before,
            chosen_stream(lists, specs, all[n - 1]),
            unchanged(codewords),
        );
    }
}

pub(crate) proof fn lemma_clean_found(
    lists: Seq<Seq<Corrected>>,
    codewords: Seq<u8>,
    version: int,
    level: EcLevel,
    max_combinations: int,
)
    requires
        valid_version(version),
        codewords.len() == total_codewords(version),
        lists.len() == layout(version, level).len(),
        all_lead_unchanged(lists, deinterleaved(codewords, layout(version, level))),
        forall|b: int| 0 <= b < lists.len() ==> 1 <= (#[trigger] lists[b]).len() <= 3,
        max_combinations > 0,
    ensures
        ({
            let all = at_most(choices(list_sizes(lists), Seq::empty()), max_combinations);
            let streams = ranked_streams(lists, layout(version, level), all, all.len() as int);
            &&& streams.len() > 0
            &&& streams[0] == unchanged(codewords)
        }),
{
    let sizes = list_sizes(lists);
    let every = choices(sizes, Seq::empty());
    let all = at_most(every, max_combinations);
    assert forall|b: int| 0 <= b < sizes.len() implies (#[trigger] sizes[b]) > 0 by {
        assert(lists[b].len() >= 1);
    }
    lemma_first_choice(sizes, Seq::empty());
    lemma_choices_valid(sizes, Seq::empty(), 0);
    assert(all[0] == every[0]);
    assert forall|k: int| 0 <= k < all.len() implies is_choice(sizes, #[trigger] all[k]) by {
        assert(all[k] == every[k]);
    }
    lemma_clean_leads(lists, codewords, version, level, all, all.len() as int);
}

pub(crate) fn correct_interleaved_of(
    codewords: &[u8],
    bit_reliability: &[u32],
    version: u8,
    level: EcLevel,
    uncertain_bits: usize,
    max_attempts: usize,
    max_combinations: usize,
    erasure_outcomes: &Vec<Vec<Option<ErasureOutcome>>>,
) -> (searched: (Vec<CorrectedStream>, usize))
    requires
        valid_version(version as int),
        codewords@.len() == total_codewords(version as int),
        bit_reliability@.len() == 8 * codewords@.len(),
        max_attempts <= usize::MAX - 81,
    ensures
        (stream_views(searched.0@), searched.1 as int) == streams_found(
            codewords@,
            bit_reliability@,
            version as int,
            level,
            uncertain_bits as int,
            max_attempts as int,
            max_combinations as int,
            erasure_outcomes@,
        ),
        searched.0@.len() <= max_combinations,
        searched.1 <= max_attempts + 81,
        is_sorted(stream_views(searched.0@)),
        distinct_words(stream_views(searched.0@)),
        forall|i: int|
            0 <= i < searched.0@.len() ==> stream_sound(
                #[trigger] stream_views(searched.0@)[i],
                version as int,
                level,
            ),
        is_clean(codewords@, version as int, level, erasure_outcomes@) && max_combinations > 0
            ==> searched.0@.len() > 0 && stream_views(searched.0@)[0] == unchanged(codewords@),
{
    let ghost v = version as int;
    let ghost clean = is_clean(codewords@, v, level, erasure_outcomes@);
    let taken: Deinterleaved = deinterleave_of(codewords, bit_reliability, version, level);
    let ghost blocks = contents(taken.blocks@);
    let ghost soft = contents(taken.reliabilities@);
    let ghost specs = taken.specs@;
    proof {
        assert(blocks.len() == taken.blocks@.len() && deinterleaved(codewords@, specs).len()
            == specs.len());
        assert(soft.len() == taken.reliabilities@.len() && deinterleaved_reliability(
            bit_reliability@,
            specs,
        ).len() == specs.len());
    }
    proof {
        layout_bounds(v, level);
    }
    let none: Vec<Option<ErasureOutcome>> = Vec::new();
    let mut lists: Vec<Vec<CorrectedBlock>> = Vec::new();
    let mut attempts: usize = 0;
    let mut b: usize = 0;
    assert(list_contents(lists@) =~= Seq::<Seq<Corrected>>::empty());
    while b < taken.specs.len()
        invariant
            v == version,
            valid_version(v),
            max_attempts <= usize::MAX - 81,
            specs == taken.specs@,
            specs == layout(v, level),
            specs.len() <= 81,
            blocks == contents(taken.blocks@),
            blocks == deinterleaved(codewords@, specs),
            soft == contents(taken.reliabilities@),
            blocks.len() == taken.blocks@.len() == specs.len(),
            soft.len() == taken.reliabilities@.len() == specs.len(),
            soft == deinterleaved_reliability(bit_reliability@, specs),
            none@.len() == 0,
            b <= specs.len(),
            attempts <= max_attempts + b,
            lists@.len() == b,
            lists_sound(list_contents(lists@), specs),
            clean == is_clean(codewords@, v, level, erasure_outcomes@),
            clean ==> all_lead_unchanged(list_contents(lists@), blocks),
            blocks_searched(
                blocks,
                soft,
                specs,
                uncertain_bits as int,
                max_attempts as int,
                erasure_outcomes@,
                b as int,
            ) == (BlockLists {
                lists: list_contents(lists@),
                attempts: attempts as int,
                failed: false,
            }),
        decreases specs.len() - b,
    {
        proof {
            layout_bounds(v, level);
            let spec = layout(v, level)[b as int];
            assert(blocks[b as int] == taken.blocks@[b as int]@);
            assert(soft[b as int] == taken.reliabilities@[b as int]@);
            assert(none@ =~= Seq::<Option<ErasureOutcome>>::empty());
            if clean {
                let block = deinterleaved(codewords@, specs)[b as int];
                assert(is_code_word(block, specs[b as int].ecc_codewords as int));
            }
        }
        let left: usize = if attempts < max_attempts && max_attempts - attempts > 1 {
            max_attempts - attempts
        } else {
            1
        };
        let outcomes: &Vec<Option<ErasureOutcome>> = if b < erasure_outcomes.len() {
            &erasure_outcomes[b]
        } else {
            &none
        };
        assert(outcomes@ == outcomes_for(erasure_outcomes@, b as int));
        match correct_block_candidates_native(
            taken.blocks[b].as_slice(),
            taken.reliabilities[b].as_slice(),
            taken.specs[b].ecc_codewords,
            uncertain_bits,
            left,
            RESULTS_PER_BLOCK,
            outcomes,
        ) {
            Ok((candidates, used)) => {
                attempts += used;
                if candidates.len() == 0 {
                    let streams: Vec<CorrectedStream> = Vec::new();
                    assert(corrected(candidates@).len() == 0);
                    assert(stream_views(streams@) =~= Seq::<Corrected>::empty());
                    proof {
                        lemma_failed_stays(
                            blocks,
                            soft,
                            specs,
                            uncertain_bits as int,
                            max_attempts as int,
                            erasure_outcomes@,
                            b + 1,
                            specs.len() as int,
                        );
                    }
                    return (streams, attempts);
                }
                let ghost before = list_contents(lists@);
                let ghost words = corrected(candidates@);
                lists.push(candidates);
                proof {
                    let after = list_contents(lists@);
                    assert(after =~= before.push(words));
                    if clean {
                        assert forall|c: int| 0 <= c < after.len() implies leads_unchanged(
                            #[trigger] after[c],
                            blocks[c],
                        ) by {
                            if c < before.len() {
                                assert(after[c] == before[c]);
                            }
                        }
                    }
                    assert forall|c: int, i: int|
                        0 <= c < after.len() && 0 <= i < after[c].len() implies {
                        let word = #[trigger] after[c][i];
                        &&& word.codewords.len() == specs[c].data_codewords
                            + specs[c].ecc_codewords
                        &&& is_code_word(word.codewords, specs[c].ecc_codewords as int)
                        &&& 0 <= word.search_cost <= 600
                        &&& 0 <= word.corrected_symbols <= 255
                    } by {
                        if c < before.len() {
                            assert(after[c] == before[c]);
                            let word = before[c][i];
                        } else {
                            let word = words[i];
                        }
                    }
                    assert forall|c: int| 0 <= c < after.len() implies 1 <= (
                    #[trigger] after[c]).len() <= 3 && distinct_words(after[c]) by {
                        if c < before.len() {
                            assert(after[c] == before[c]);
                        }
                    }
                }
            },
            Err(_) => {
                assert(false);
            },
        }
        b += 1;
    }
    proof {
        if clean && max_combinations > 0 {
            lemma_clean_found(
                list_contents(lists@),
                codewords@,
                v,
                level,
                max_combinations as int,
            );
        }
    }
    let ranked: Vec<CorrectedBlock> = rank_streams(
        &lists,
        &taken.specs,
        max_combinations,
        Ghost(v),
        Ghost(level),
    );
    let streams: Vec<CorrectedStream> = as_streams(ranked);
    assert(stream_views(streams@).len() == corrected(ranked@).len());
    (streams, attempts)
}

proof fn lemma_failed_stays(
    blocks: Seq<Seq<u8>>,
    reliabilities: Seq<Seq<u32>>,
    specs: Seq<BlockSpec>,
    uncertain_bits: int,
    max_attempts: int,
    outcomes: Seq<Vec<Option<ErasureOutcome>>>,
    m: int,
    n: int,
)
    requires
        0 <= m <= n,
        blocks_searched(
            blocks,
            reliabilities,
            specs,
            uncertain_bits,
            max_attempts,
            outcomes,
            m,
        ).failed,
    ensures
        blocks_searched(blocks, reliabilities, specs, uncertain_bits, max_attempts, outcomes, n)
            == blocks_searched(
            blocks,
            reliabilities,
            specs,
            uncertain_bits,
            max_attempts,
            outcomes,
            m,
        ),
    decreases n,
{
    if m < n {
        lemma_failed_stays(
            blocks,
            reliabilities,
            specs,
            uncertain_bits,
            max_attempts,
            outcomes,
            m,
            n - 1,
        );
    }
}

/// Searches for the streams to which a received stream can be corrected:
/// cheapest first, at most `max_combinations` of them.
///
/// `erasure_outcomes` holds the outcomes for each block, as
/// [`erasure_plans`] orders them; missing ones count as failed attempts.
pub fn correct_interleaved_native(
    codewords: &[u8],
    bit_reliability: &[u32],
    version: u8,
    ec_level: &str,
    uncertain_bits: usize,
    max_attempts: usize,
    max_combinations: usize,
    erasure_outcomes: &Vec<Vec<Option<ErasureOutcome>>>,
) -> (searched: Result<(Vec<CorrectedStream>, usize), QrError>)
    requires
        max_attempts <= usize::MAX - 81,
    ensures
        match stream_refusal(codewords@.len(), bit_reliability@.len(), version, ec_level@) {
            Some(error) => searched is Err && searched->Err_0 == error,
            None => searched is Ok && {
                let level = level_named(ec_level@)->Some_0;
                let streams = stream_views(searched->Ok_0.0@);
                &&& (streams, searched->Ok_0.1 as int) == streams_found(
                    codewords@,
                    bit_reliability@,
                    version as int,
                    level,
                    uncertain_bits as int,
                    max_attempts as int,
                    max_combinations as int,
                    erasure_outcomes@,
                )
                &&& streams.len() <= max_combinations
                &&& searched->Ok_0.1 <= max_attempts + 81
                &&& is_sorted(streams)
                &&& distinct_words(streams)
                &&& forall|i: int|
                    0 <= i < streams.len() ==> stream_sound(
                        #[trigger] streams[i],
                        version as int,
                        level,
                    )
                &&& is_clean(codewords@, version as int, level, erasure_outcomes@)
                    && max_combinations > 0 ==> streams.len() > 0 && streams[0] == unchanged(
                    codewords@,
                )
            },
        },
{
    match check_stream(codewords, bit_reliability.len(), version, ec_level) {
        Ok(level) => Ok(
            correct_interleaved_of(
                codewords,
                bit_reliability,
                version,
                level,
                uncertain_bits,
                max_attempts,
                max_combinations,
                erasure_outcomes,
            ),
        ),
        Err(error) => Err(error),
    }
}

/// Whether every block of a received stream can be decoded as it is, without
/// erasures or flips.
pub open spec fn decodes_hard(codewords: Seq<u8>, version: int, level: EcLevel) -> bool {
    let specs = layout(version, level);
    forall|b: int|
        0 <= b < specs.len() ==> rs_corrected(
            #[trigger] deinterleaved(codewords, specs)[b],
            specs[b].ecc_codewords as nat,
        ) is Some
}

pub(crate) fn decodes_hard_of(
    codewords: &[u8],
    bit_reliability: &[u32],
    version: u8,
    level: EcLevel,
) -> (decodes: bool)
    requires
        valid_version(version as int),
        codewords@.len() == total_codewords(version as int),
        bit_reliability@.len() == 8 * codewords@.len(),
    ensures
        decodes == decodes_hard(codewords@, version as int, level),
{
    let taken: Deinterleaved = deinterleave_of(codewords, bit_reliability, version, level);
    let ghost blocks = deinterleaved(codewords@, taken.specs@);
    proof {
        layout_bounds(version as int, level);
        assert(contents(taken.blocks@).len() == taken.blocks@.len());
    }
    let mut b: usize = 0;
    while b < taken.specs.len()
        invariant
            valid_version(version as int),
            taken.specs@ == layout(version as int, level),
            blocks == deinterleaved(codewords@, taken.specs@),
            contents(taken.blocks@) == blocks,
            blocks.len() == taken.blocks@.len() == taken.specs@.len(),
            b <= taken.specs@.len(),
            forall|c: int|
                0 <= c < b ==> rs_corrected(
                    #[trigger] blocks[c],
                    taken.specs@[c].ecc_codewords as nat,
                ) is Some,
        decreases taken.specs@.len() - b,
    {
        proof {
            layout_bounds(version as int, level);
            let spec = layout(version as int, level)[b as int];
            assert(blocks[b as int] == taken.blocks@[b as int]@);
        }
        if rs_correct(taken.blocks[b].as_slice(), taken.specs[b].ecc_codewords).is_none() {
            assert(rs_corrected(
                deinterleaved(codewords@, layout(version as int, level))[b as int],
                taken.specs@[b as int].ecc_codewords as nat,
            ) is None);
            return false;
        }
        b += 1;
    }
    true
}

/// A block and the erasures that are worth trying for it.
#[derive(Debug)]
pub struct ErasurePlan {
    pub block: Vec<u8>,
    pub ecc_codewords: usize,
    pub erasures: Vec<Vec<u8>>,
}

/// What is to be decoded with which erasures, block by block.
pub open spec fn are_erasure_plans(
    list: Seq<ErasurePlan>,
    codewords: Seq<u8>,
    bit_reliability: Seq<u32>,
    version: int,
    level: EcLevel,
) -> bool {
    let specs = layout(version, level);
    &&& list.len() == specs.len()
    &&& forall|b: int|
        0 <= b < list.len() ==> {
            &&& (#[trigger] list[b]).block@ == deinterleaved(codewords, specs)[b]
            &&& list[b].ecc_codewords == specs[b].ecc_codewords
            &&& contents(list[b].erasures@) == erasure_lists(
                deinterleaved_reliability(bit_reliability, specs)[b],
                list[b].block@.len(),
                specs[b].ecc_codewords as int,
            )
        }
}

/// Takes a stream apart and lists for each block the erasures worth trying.
pub fn erasure_plans(codewords: &[u8], bit_reliability: &[u32], version: u8, ec_level: &str) -> (
plans: Result<Vec<ErasurePlan>, QrError>)
    ensures
        match stream_refusal(codewords@.len(), bit_reliability@.len(), version, ec_level@) {
            Some(error) => plans is Err && plans->Err_0 == error,
            None => plans is Ok && are_erasure_plans(
                plans->Ok_0@,
                codewords@,
                bit_reliability@,
                version as int,
                level_named(ec_level@)->Some_0,
            ),
        },
{
    match check_stream(codewords, bit_reliability.len(), version, ec_level) {
        Ok(level) => Ok(erasure_plans_of(codewords, bit_reliability, version, level)),
        Err(error) => Err(error),
    }
}

pub(crate) fn erasure_plans_of(
    codewords: &[u8],
    bit_reliability: &[u32],
    version: u8,
    level: EcLevel,
) -> (plans: Vec<ErasurePlan>)
    requires
        valid_version(version as int),
        codewords@.len() == total_codewords(version as int),
        bit_reliability@.len() == 8 * codewords@.len(),
    ensures
        are_erasure_plans(plans@, codewords@, bit_reliability@, version as int, level),
{
    let ghost v = version as int;
    let taken: Deinterleaved = deinterleave_of(codewords, bit_reliability, version, level);
    let ghost blocks = contents(taken.blocks@);
    let ghost soft = contents(taken.reliabilities@);
    let ghost specs = taken.specs@;
    proof {
        assert(blocks.len() == taken.blocks@.len() && deinterleaved(codewords@, specs).len()
            == specs.len());
        assert(soft.len() == taken.reliabilities@.len() && deinterleaved_reliability(
            bit_reliability@,
            specs,
        ).len() == specs.len());
    }
    let mut plans: Vec<ErasurePlan> = Vec::new();
    let mut b: usize = 0;
    while b < taken.specs.len()
        invariant
            v == version,
            valid_version(v),
            specs == taken.specs@,
            specs == layout(v, level),
            blocks == contents(taken.blocks@),
            blocks == deinterleaved(codewords@, specs),
            soft == contents(taken.reliabilities@),
            blocks.len() == taken.blocks@.len() == specs.len(),
            soft.len() == taken.reliabilities@.len() == specs.len(),
            soft == deinterleaved_reliability(bit_reliability@, specs),
            b <= specs.len(),
            plans@.len() == b,
            forall|c: int|
                0 <= c < b ==> {
                    &&& (#[trigger] plans@[c]).block@ == blocks[c]
                    &&& plans@[c].ecc_codewords == specs[c].ecc_codewords
                    &&& contents(plans@[c].erasures@) == erasure_lists(
                        soft[c],
                        plans@[c].block@.len(),
                        specs[c].ecc_codewords as int,
                    )
                },
        decreases specs.len() - b,
    {
        proof {
            layout_bounds(v, level);
            let spec = layout(v, level)[b as int];
            assert(blocks[b as int] == taken.blocks@[b as int]@);
            assert(soft[b as int] == taken.reliabilities@[b as int]@);
        }
        let ecc_codewords: usize = taken.specs[b].ecc_codewords;
        let erasures: Vec<Vec<u8>> = match erasure_plan(
            taken.blocks[b].as_slice(),
            taken.reliabilities[b].as_slice(),
            ecc_codewords,
        ) {
            Ok(erasures) => erasures,
            Err(_) => Vec::new(),
        };
        plans.push(
            ErasurePlan {
                block: copy_bytes(taken.blocks[b].as_slice()),
                ecc_codewords,
                erasures,
            },
        );
        b += 1;
    }
    plans
}

} // verus!
