//! Ranked lists of corrected words.

use vstd::prelude::*;

use crate::order::{
    byte_string_before, comes_before, copy_bytes, lemma_before_total, lemma_before_transitive,
    same_bytes,
};

verus! {

/// A corrected word, how many codewords were changed for it, and what finding
/// it cost. Costs count half units.
pub ghost struct Corrected {
    pub codewords: Seq<u8>,
    pub corrected_symbols: int,
    pub search_cost: int,
}

/// A corrected Reed-Solomon block. Search costs count half units: two per
/// corrected codeword and one per flipped bit.
#[derive(Debug)]
pub struct CorrectedBlock {
    pub codewords: Vec<u8>,
    pub corrected_symbols: usize,
    pub search_cost: u64,
}

impl View for CorrectedBlock {
    type V = Corrected;

    open spec fn view(&self) -> Corrected {
        Corrected {
            codewords: self.codewords@,
            corrected_symbols: self.corrected_symbols as int,
            search_cost: self.search_cost as int,
        }
    }
}

impl CorrectedBlock {
    pub(crate) fn copy(&self) -> (copied: CorrectedBlock)
        ensures
            copied@ == self@,
    {
        CorrectedBlock {
            codewords: copy_bytes(self.codewords.as_slice()),
            corrected_symbols: self.corrected_symbols,
            search_cost: self.search_cost,
        }
    }
}

/// What a list of blocks holds.
pub open spec fn corrected(list: Seq<CorrectedBlock>) -> Seq<Corrected> {
    Seq::new(list.len(), |i: int| list[i]@)
}

/// Cheaper words come first; among equally cheap ones the dictionary decides.
pub open spec fn ranks_before(a: Corrected, b: Corrected) -> bool {
    a.search_cost < b.search_cost || (a.search_cost == b.search_cost && comes_before(
        a.codewords,
        b.codewords,
    ))
}

/// A list in rank order without two equal words.
pub open spec fn is_ranked(list: Seq<Corrected>) -> bool {
    forall|i: int, j: int|
        0 <= i < j < list.len() ==> ranks_before(#[trigger] list[i], #[trigger] list[j])
}

/// `word` put into a list in front of everything that ranks behind it.
pub open spec fn with_ranked(list: Seq<Corrected>, word: Corrected) -> Seq<Corrected>
    decreases list.len(),
{
    if list.len() == 0 || !ranks_before(word, list.last()) {
        list.push(word)
    } else {
        with_ranked(list.drop_last(), word).push(list.last())
    }
}

/// The place among the first `n` of a word with the given codewords, or -1.
pub open spec fn place_of(list: Seq<Corrected>, codewords: Seq<u8>, n: int) -> int
    decreases n,
{
    if n <= 0 {
        -1
    } else if list[n - 1].codewords == codewords {
        n - 1
    } else {
        place_of(list, codewords, n - 1)
    }
}

/// The list after `word` was found: of two findings of one word the cheaper one
/// is kept.
pub open spec fn with_found(list: Seq<Corrected>, word: Corrected) -> Seq<Corrected> {
    let at = place_of(list, word.codewords, list.len() as int);
    if at < 0 {
        with_ranked(list, word)
    } else if list[at].search_cost <= word.search_cost {
        list
    } else {
        with_ranked(list.remove(at), word)
    }
}

pub proof fn lemma_place_of(list: Seq<Corrected>, codewords: Seq<u8>, n: int)
    requires
        0 <= n <= list.len(),
    ensures
        -1 <= place_of(list, codewords, n) < n || place_of(list, codewords, n) == -1,
        place_of(list, codewords, n) >= 0 ==> list[place_of(list, codewords, n)].codewords
            == codewords,
        forall|i: int|
            place_of(list, codewords, n) < i < n ==> (#[trigger] list[i]).codewords != codewords,
    decreases n,
{
    if n > 0 {
        lemma_place_of(list, codewords, n - 1);
    }
}

proof fn lemma_ranks_total(a: Corrected, b: Corrected)
    ensures
        ranks_before(a, b) || ranks_before(b, a) || (a.codewords == b.codewords && a.search_cost
            == b.search_cost),
        !(ranks_before(a, b) && ranks_before(b, a)),
{
    lemma_before_total(a.codewords, b.codewords, 0);
}

proof fn lemma_ranks_transitive(a: Corrected, b: Corrected, c: Corrected)
    requires
        ranks_before(a, b),
        ranks_before(b, c),
    ensures
        ranks_before(a, c),
{
    if a.search_cost == c.search_cost {
        lemma_before_transitive(a.codewords, b.codewords, c.codewords, 0);
    }
}

/// Where `word` goes in a ranked list.
spec fn rank_of(list: Seq<Corrected>, word: Corrected) -> int
    decreases list.len(),
{
    if list.len() == 0 || !ranks_before(word, list.last()) {
        list.len() as int
    } else {
        rank_of(list.drop_last(), word)
    }
}

proof fn lemma_with_ranked_at(list: Seq<Corrected>, word: Corrected, at: int)
    requires
        0 <= at <= list.len(),
        at == 0 || !ranks_before(word, list[at - 1]),
        forall|i: int| at <= i < list.len() ==> ranks_before(word, #[trigger] list[i]),
    ensures
        with_ranked(list, word) == list.insert(at, word),
    decreases list.len(),
{
    if at == list.len() {
        assert(list.insert(at, word) =~= list.push(word));
    } else {
        assert(list.last() == list[list.len() - 1]);
        lemma_with_ranked_at(list.drop_last(), word, at);
        assert(list.insert(at, word) =~= list.drop_last().insert(at, word).push(list.last()));
    }
}

proof fn lemma_rank_of(list: Seq<Corrected>, word: Corrected)
    ensures
        0 <= rank_of(list, word) <= list.len(),
        rank_of(list, word) == 0 || !ranks_before(word, list[rank_of(list, word) - 1]),
        forall|i: int|
            rank_of(list, word) <= i < list.len() ==> ranks_before(word, #[trigger] list[i]),
    decreases list.len(),
{
    if list.len() > 0 && ranks_before(word, list.last()) {
        let rest = list.drop_last();
        lemma_rank_of(rest, word);
        assert forall|i: int| rank_of(list, word) <= i < list.len() implies ranks_before(
            word,
            #[trigger] list[i],
        ) by {
            if i < rest.len() {
                assert(rest[i] == list[i]);
            }
        }
    }
}

/// The shape of a list after one more word was put into it.
pub proof fn lemma_with_ranked(list: Seq<Corrected>, word: Corrected)
    ensures
        with_ranked(list, word).len() == list.len() + 1,
        forall|i: int|
            0 <= i < with_ranked(list, word).len() ==> #[trigger] with_ranked(list, word)[i] == word
                || list.contains(with_ranked(list, word)[i]),
        is_ranked(list) && (forall|i: int|
            0 <= i < list.len() ==> (#[trigger] list[i]).codewords != word.codewords)
            ==> is_ranked(with_ranked(list, word)),
{
    let at = rank_of(list, word);
    lemma_rank_of(list, word);
    lemma_with_ranked_at(list, word, at);
    let next = list.insert(at, word);
    assert forall|i: int| 0 <= i < next.len() implies #[trigger] next[i] == word || list.contains(
        next[i],
    ) by {
        if i < at {
            assert(list.contains(list[i]));
        } else if i > at {
            assert(list.contains(list[i - 1]));
        }
    }
    if is_ranked(list) && (forall|i: int|
        0 <= i < list.len() ==> (#[trigger] list[i]).codewords != word.codewords) {
        assert forall|i: int, j: int| 0 <= i < j < next.len() implies ranks_before(
            #[trigger] next[i],
            #[trigger] next[j],
        ) by {
            if j == at {
                assert(next[i] == list[i]);
                lemma_ranks_total(list[at - 1], word);
                if i < at - 1 {
                    assert(ranks_before(list[i], list[at - 1]));
                    lemma_ranks_transitive(list[i], list[at - 1], word);
                }
            } else if i == at {
                assert(next[j] == list[j - 1]);
            } else {
                let oi = if i < at {
                    i
                } else {
                    i - 1
                };
                let oj = if j < at {
                    j
                } else {
                    j - 1
                };
                assert(next[i] == list[oi] && next[j] == list[oj]);
            }
        }
    }
}

/// A ranked list stays ranked when a word is found, and holds nothing else.
pub proof fn lemma_with_found(list: Seq<Corrected>, word: Corrected)
    requires
        is_ranked(list),
        forall|i: int, j: int|
            0 <= i < list.len() && 0 <= j < list.len() && i != j ==> (#[trigger] list[i]).codewords
                != (#[trigger] list[j]).codewords,
    ensures
        is_ranked(with_found(list, word)),
        forall|i: int, j: int|
            0 <= i < with_found(list, word).len() && 0 <= j < with_found(list, word).len() && i != j
                ==> (#[trigger] with_found(list, word)[i]).codewords != (#[trigger] with_found(
                list,
                word,
            )[j]).codewords,
        forall|i: int|
            0 <= i < with_found(list, word).len() ==> #[trigger] with_found(list, word)[i] == word
                || list.contains(with_found(list, word)[i]),
        list.len() <= with_found(list, word).len() <= list.len() + 1,
{
    let at = place_of(list, word.codewords, list.len() as int);
    lemma_place_of(list, word.codewords, list.len() as int);
    let base = if at < 0 {
        list
    } else {
        list.remove(at)
    };
    if at >= 0 && list[at].search_cost <= word.search_cost {
        assert forall|i: int| 0 <= i < list.len() implies list.contains(#[trigger] list[i]) by {
        }
    } else {
        assert forall|i: int, j: int| 0 <= i < j < base.len() implies ranks_before(
            #[trigger] base[i],
            #[trigger] base[j],
        ) by {
            let oi = if at < 0 || i < at {
                i
            } else {
                i + 1
            };
            let oj = if at < 0 || j < at {
                j
            } else {
                j + 1
            };
            assert(base[i] == list[oi] && base[j] == list[oj]);
        }
        assert forall|i: int| 0 <= i < base.len() implies (#[trigger] base[i]).codewords
            != word.codewords && list.contains(base[i]) by {
            let oi = if at < 0 || i < at {
                i
            } else {
                i + 1
            };
            assert(base[i] == list[oi]);
            if at >= 0 {
                assert(list[oi].codewords != list[at].codewords);
            }
        }
        lemma_with_ranked(base, word);
        let next = with_ranked(base, word);
        lemma_rank_of(base, word);
        lemma_with_ranked_at(base, word, rank_of(base, word));
        let rank = rank_of(base, word);
        assert forall|i: int, j: int| 0 <= i < next.len() && 0 <= j < next.len() && i != j implies (
        #[trigger] next[i]).codewords != (#[trigger] next[j]).codewords by {
            let (lo, hi) = if i < j {
                (i, j)
            } else {
                (j, i)
            };
            assert(ranks_before(next[lo], next[hi]));
            if lo == rank {
                assert(next[hi] == base[hi - 1]);
            } else if hi == rank {
                assert(next[lo] == base[lo]);
            } else {
                let bl = if lo < rank {
                    lo
                } else {
                    lo - 1
                };
                let bh = if hi < rank {
                    hi
                } else {
                    hi - 1
                };
                assert(next[lo] == base[bl] && next[hi] == base[bh]);
                let ol = if at < 0 || bl < at {
                    bl
                } else {
                    bl + 1
                };
                let oh = if at < 0 || bh < at {
                    bh
                } else {
                    bh + 1
                };
                assert(base[bl] == list[ol] && base[bh] == list[oh]);
            }
        }
        assert forall|i: int| 0 <= i < next.len() implies #[trigger] next[i] == word
            || list.contains(next[i]) by {
            if next[i] != word {
                let k = base.index_of(next[i]);
                assert(base[k] == next[i]);
            }
        }
    }
}

/// A list in rank order, possibly with equally ranked words.
pub open spec fn is_sorted(list: Seq<Corrected>) -> bool {
    forall|i: int, j: int|
        0 <= i < j < list.len() ==> !ranks_before(#[trigger] list[j], #[trigger] list[i])
}

/// A sorted list stays sorted.
pub proof fn lemma_with_ranked_sorted(list: Seq<Corrected>, word: Corrected)
    requires
        is_sorted(list),
    ensures
        is_sorted(with_ranked(list, word)),
{
    let at = rank_of(list, word);
    lemma_rank_of(list, word);
    lemma_with_ranked_at(list, word, at);
    let next = list.insert(at, word);
    assert forall|i: int, j: int| 0 <= i < j < next.len() implies !ranks_before(
        #[trigger] next[j],
        #[trigger] next[i],
    ) by {
        if j == at {
            assert(next[i] == list[i]);
            if ranks_before(word, list[i]) {
                if i < at - 1 {
                    assert(!ranks_before(list[at - 1], list[i]));
                    lemma_ranks_total(list[at - 1], list[i]);
                    if ranks_before(list[i], list[at - 1]) {
                        lemma_ranks_transitive(word, list[i], list[at - 1]);
                    }
                }
            }
        } else if i == at {
            assert(next[j] == list[j - 1]);
            lemma_ranks_total(word, list[j - 1]);
        } else {
            let oi = if i < at {
                i
            } else {
                i - 1
            };
            let oj = if j < at {
                j
            } else {
                j - 1
            };
            assert(next[i] == list[oi] && next[j] == list[oj]);
        }
    }
}

fn ranks_before_of(
    cost: u64,
    codewords: &Vec<u8>,
    other_cost: u64,
    other: &Vec<u8>,
) -> (result: bool)
    ensures
        result == (cost < other_cost || (cost == other_cost && comes_before(
            codewords@,
            other@,
        ))),
{
    cost < other_cost || (cost == other_cost && byte_string_before(codewords, other))
}

/// Puts `word` into a list in front of everything that ranks behind it.
pub(crate) fn rank_block(list: &mut Vec<CorrectedBlock>, word: CorrectedBlock)
    ensures
        corrected(final(list)@) == with_ranked(corrected(old(list)@), word@),
{
    let mut at: usize = list.len();
    while at > 0 && ranks_before_of(
        word.search_cost,
        &word.codewords,
        list[at - 1].search_cost,
        &list[at - 1].codewords,
    )
        invariant
            at <= list@.len(),
            list@ == old(list)@,
            forall|i: int|
                at <= i < list@.len() ==> ranks_before(word@, #[trigger] corrected(list@)[i]),
        decreases at,
    {
        at -= 1;
    }
    proof {
        lemma_with_ranked_at(corrected(list@), word@, at as int);
        assert(corrected(list@.insert(at as int, word)) =~= corrected(list@).insert(
            at as int,
            word@,
        ));
    }
    list.insert(at, word);
}

/// Notes that `word` was found.
pub(crate) fn note_found(list: &mut Vec<CorrectedBlock>, word: CorrectedBlock)
    ensures
        corrected(final(list)@) == with_found(corrected(old(list)@), word@),
{
    let mut n: usize = list.len();
    let ghost all = corrected(list@);
    while n > 0 && !same_bytes(list[n - 1].codewords.as_slice(), word.codewords.as_slice())
        invariant
            n <= list@.len(),
            list@ == old(list)@,
            all == corrected(list@),
            place_of(all, word.codewords@, list@.len() as int) == place_of(
                all,
                word.codewords@,
                n as int,
            ),
        decreases n,
    {
        n -= 1;
    }
    if n > 0 {
        if list[n - 1].search_cost <= word.search_cost {
            return ;
        }
        assert(corrected(list@.remove(n - 1)) =~= all.remove(n - 1));
        list.remove(n - 1);
    }
    rank_block(list, word);
}

} // verus!
