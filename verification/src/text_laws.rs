//! What numbers in decimal show, and how texts and payloads are ordered.

use vstd::prelude::*;

use crate::layout::{data_total, BlockSpec};
use crate::order::{before_from, comes_before};
use crate::phrases::{text_before, text_before_from};
use crate::repair::{differences, joined_data};
use crate::text::{decimal, digit};

verus! {

/// The number that a text shows, read digit by digit.
pub open spec fn shown_number(text: Seq<char>) -> int
    decreases text.len(),
{
    if text.len() == 0 {
        0
    } else {
        10 * shown_number(text.drop_last()) + (text.last() as int - '0' as int)
    }
}

/// Whether a text is made of digits, the first of which is 0 only if it stands
/// alone.
pub open spec fn is_plain_number(text: Seq<char>) -> bool {
    &&& text.len() >= 1
    &&& forall|i: int| 0 <= i < text.len() ==> '0' <= #[trigger] text[i] <= '9'
    &&& text.len() > 1 ==> text[0] != '0'
}

/// A number in decimal shows the number, in digits without leading zeros.
pub proof fn decimals_show_their_number(value: nat)
    ensures
        shown_number(decimal(value)) == value,
        is_plain_number(decimal(value)),
        value > 0 ==> decimal(value)[0] != '0',
    decreases value,
{
    let text = decimal(value);
    if value < 10 {
        assert(text.drop_last() =~= Seq::empty());
        assert(text.last() == digit(value));
        reveal_with_fuel(shown_number, 2);
    } else {
        decimals_show_their_number(value / 10);
        let rest = decimal(value / 10);
        assert(text == rest.push(digit(value % 10)));
        assert(text.drop_last() =~= rest);
        assert forall|i: int| 0 <= i < text.len() implies '0' <= #[trigger] text[i] <= '9' by {
            if i < rest.len() {
                assert(text[i] == rest[i]);
            }
        }
        assert(text[0] == rest[0]);
    }
}

/// Whether `i` is the first place in which two texts differ, or the end of the
/// first, and the first has the smaller character there or none.
pub open spec fn text_smaller_at(a: Seq<char>, b: Seq<char>, i: int) -> bool {
    &&& 0 <= i < b.len()
    &&& i <= a.len()
    &&& forall|j: int| 0 <= j < i ==> #[trigger] a[j] == b[j]
    &&& i < a.len() ==> a[i] < b[i]
}

/// Whether `i` is the first place in which two sequences of bytes differ, or the end of the
/// first, and the first has the smaller byte there or none.
pub open spec fn bytes_smaller_at(a: Seq<u8>, b: Seq<u8>, i: int) -> bool {
    &&& 0 <= i < b.len()
    &&& i <= a.len()
    &&& forall|j: int| 0 <= j < i ==> #[trigger] a[j] == b[j]
    &&& i < a.len() ==> a[i] < b[i]
}

proof fn lemma_text_before(a: Seq<char>, b: Seq<char>, i: int)
    requires
        0 <= i <= a.len(),
        i <= b.len(),
        forall|j: int| 0 <= j < i ==> #[trigger] a[j] == b[j],
    ensures
        text_before_from(a, b, i) <==> exists|k: int|
            #[trigger] text_smaller_at(a, b, k),
    decreases b.len() - i,
{
    if i < b.len() && i < a.len() && a[i] == b[i] {
        lemma_text_before(a, b, i + 1);
    } else {
        if text_before_from(a, b, i) {
            assert(text_smaller_at(a, b, i));
        }
        assert forall|k: int| #[trigger] text_smaller_at(a, b, k) implies text_before_from(
            a,
            b,
            i,
        ) by {
            if k > i {
                assert(a[i] == b[i]);
            } else if k < i {
                assert(a[k] == b[k]);
            }
        }
    }
}

/// A text comes before another if its first different character is smaller, or if
/// it is the beginning of the other.
pub proof fn texts_are_ordered_by_their_first_difference(a: Seq<char>, b: Seq<char>)
    ensures
        text_before(a, b) <==> exists|k: int|
            #[trigger] text_smaller_at(a, b, k),
{
    lemma_text_before(a, b, 0);
}

proof fn lemma_bytes_before(a: Seq<u8>, b: Seq<u8>, i: int)
    requires
        0 <= i <= a.len(),
        i <= b.len(),
        forall|j: int| 0 <= j < i ==> #[trigger] a[j] == b[j],
    ensures
        before_from(a, b, i) <==> exists|k: int|
            #[trigger] bytes_smaller_at(a, b, k),
    decreases b.len() - i,
{
    if i < b.len() && i < a.len() && a[i] == b[i] {
        lemma_bytes_before(a, b, i + 1);
    } else {
        if before_from(a, b, i) {
            assert(bytes_smaller_at(a, b, i));
        }
        assert forall|k: int| #[trigger] bytes_smaller_at(a, b, k) implies before_from(a, b, i)
            by {
            if k > i {
                assert(a[i] == b[i]);
            } else if k < i {
                assert(a[k] == b[k]);
            }
        }
    }
}

/// Bytes come before others if their first different byte is smaller, or if they
/// are the beginning of the others.
pub proof fn bytes_are_ordered_by_their_first_difference(a: Seq<u8>, b: Seq<u8>)
    ensures
        comes_before(a, b) <==> exists|k: int|
            #[trigger] bytes_smaller_at(a, b, k),
{
    lemma_bytes_before(a, b, 0);
}

/// The places below `n` in which two sequences differ.
pub open spec fn different_places(a: Seq<u8>, b: Seq<u8>, n: int) -> Set<int> {
    vstd::set_lib::set_int_range(0, n).filter(|i: int| a[i] != b[i])
}

/// What is counted as corrected are the places in which two streams differ.
pub proof fn differences_are_counted_once(a: Seq<u8>, b: Seq<u8>, n: int)
    requires
        0 <= n,
    ensures
        different_places(a, b, n).finite(),
        differences(a, b, n) == different_places(a, b, n).len(),
    decreases n,
{
    vstd::set_lib::lemma_int_range(0, n);
    if n > 0 {
        differences_are_counted_once(a, b, n - 1);
        let before = different_places(a, b, n - 1);
        let after = different_places(a, b, n);
        if a[n - 1] != b[n - 1] {
            assert(after =~= before.insert(n - 1));
        } else {
            assert(after =~= before);
        }
    } else {
        assert(different_places(a, b, n) =~= Set::empty());
    }
}

/// The data of a symbol are the data codewords of its blocks, one block after the
/// other.
pub proof fn data_run_through_the_blocks(
    blocks: Seq<Seq<u8>>,
    specs: Seq<BlockSpec>,
    n: int,
    b: int,
    j: int,
)
    requires
        0 <= b < n <= blocks.len(),
        n <= specs.len(),
        forall|c: int|
            0 <= c < n ==> (#[trigger] blocks[c]).len() >= specs[c].data_codewords,
        0 <= j < specs[b].data_codewords,
    ensures
        joined_data(blocks, specs, n).len() == data_total(specs, n),
        0 <= data_total(specs, b) + j < joined_data(blocks, specs, n).len(),
        joined_data(blocks, specs, n)[data_total(specs, b) + j] == blocks[b][j],
    decreases n,
{
    lemma_joined_length(blocks, specs, n - 1);
    let part = blocks[n - 1].take(specs[n - 1].data_codewords as int);
    assert(part.len() == specs[n - 1].data_codewords);
    assert(joined_data(blocks, specs, n) == joined_data(blocks, specs, n - 1) + part);
    if b < n - 1 {
        data_run_through_the_blocks(blocks, specs, n - 1, b, j);
    } else {
        assert(part[j] == blocks[b][j]);
    }
}

proof fn lemma_joined_length(blocks: Seq<Seq<u8>>, specs: Seq<BlockSpec>, n: int)
    requires
        0 <= n <= blocks.len(),
        n <= specs.len(),
        forall|c: int|
            0 <= c < n ==> (#[trigger] blocks[c]).len() >= specs[c].data_codewords,
    ensures
        joined_data(blocks, specs, n).len() == data_total(specs, n),
    decreases n,
{
    if n > 0 {
        lemma_joined_length(blocks, specs, n - 1);
        assert(blocks[n - 1].len() >= specs[n - 1].data_codewords);
    }
}

} // verus!
