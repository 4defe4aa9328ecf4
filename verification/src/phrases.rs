//! Searching in text.

use vstd::prelude::*;

verus! {

/// Whether `part` stands in `text` from `at` on.
pub open spec fn stands_at(text: Seq<char>, part: Seq<char>, at: int) -> bool {
    0 <= at && at + part.len() <= text.len() && text.subrange(at, at + part.len()) == part
}

/// Whether `part` stands anywhere in `text`.
pub open spec fn contains_part(text: Seq<char>, part: Seq<char>) -> bool {
    exists|at: int| stands_at(text, part, at)
}

fn stands_at_place(text: &str, part: &str, at: usize, length: usize) -> (found: bool)
    requires
        length == part@.len(),
        at + length <= text@.len() <= usize::MAX,
    ensures
        found == stands_at(text@, part@, at as int),
{
    let mut i: usize = 0;
    while i < length
        invariant
            length == part@.len(),
            at + length <= text@.len() <= usize::MAX,
            i <= length,
            forall|j: int| 0 <= j < i ==> text@[at + j] == part@[j],
        decreases length - i,
    {
        if text.get_char(at + i) != part.get_char(i) {
            assert(text@.subrange(at as int, at + part@.len())[i as int] == text@[at + i]);
            return false;
        }
        i += 1;
    }
    assert(text@.subrange(at as int, at + part@.len()) =~= part@);
    true
}

/// Whether `text` begins with `part`.
pub fn begins_with(text: &str, part: &str) -> (found: bool)
    ensures
        found == stands_at(text@, part@, 0),
{
    let whole: usize = text.unicode_len();
    let length: usize = part.unicode_len();
    length <= whole && stands_at_place(text, part, 0, length)
}

/// Whether `part` stands anywhere in `text`.
pub fn has_part(text: &str, part: &str) -> (found: bool)
    ensures
        found == contains_part(text@, part@),
{
    let whole: usize = text.unicode_len();
    let length: usize = part.unicode_len();
    if length > whole {
        return false;
    }
    let last: usize = whole - length;
    let mut at: usize = 0;
    loop
        invariant
            whole == text@.len(),
            length == part@.len(),
            last == whole - length,
            at <= last,
            forall|j: int| 0 <= j < at ==> !stands_at(text@, part@, j),
        decreases last - at,
    {
        if stands_at_place(text, part, at, length) {
            return true;
        }
        if at == last {
            return false;
        }
        at += 1;
    }
}

/// Whether `a` comes before `b` in the order of their characters, both read
/// from `i` on.
pub open spec fn text_before_from(a: Seq<char>, b: Seq<char>, i: int) -> bool
    decreases b.len() - i,
{
    if i >= b.len() {
        false
    } else if i >= a.len() {
        true
    } else if a[i] != b[i] {
        a[i] < b[i]
    } else {
        text_before_from(a, b, i + 1)
    }
}

/// Whether `a` comes before `b` in the order of their characters.
pub open spec fn text_before(a: Seq<char>, b: Seq<char>) -> bool {
    text_before_from(a, b, 0)
}

/// Of two texts that agree up to `i`, one comes first or they are equal.
pub proof fn lemma_text_before_total(a: Seq<char>, b: Seq<char>, i: int)
    requires
        0 <= i <= a.len(),
        i <= b.len(),
        forall|k: int| 0 <= k < i ==> a[k] == b[k],
    ensures
        text_before_from(a, b, i) || text_before_from(b, a, i) || a == b,
        !(text_before_from(a, b, i) && text_before_from(b, a, i)),
    decreases b.len() - i,
{
    if i < a.len() && i < b.len() && a[i] == b[i] {
        lemma_text_before_total(a, b, i + 1);
    } else if i == a.len() && i == b.len() {
        assert(a =~= b);
    }
}

pub proof fn lemma_text_before_transitive(a: Seq<char>, b: Seq<char>, c: Seq<char>, i: int)
    requires
        0 <= i,
        text_before_from(a, b, i),
        text_before_from(b, c, i),
    ensures
        text_before_from(a, c, i),
    decreases b.len() - i,
{
    if i < a.len() && i < b.len() && i < c.len() && a[i] == b[i] && b[i] == c[i] {
        lemma_text_before_transitive(a, b, c, i + 1);
    }
}

/// Whether `a` comes before `b` in the order of their characters.
pub(crate) fn comes_before_text(a: &String, b: &String) -> (result: bool)
    ensures
        result == text_before(a@, b@),
{
    let (na, nb): (usize, usize) = (a.as_str().unicode_len(), b.as_str().unicode_len());
    let mut i: usize = 0;
    while i < na && i < nb
        invariant
            na == a@.len(),
            nb == b@.len(),
            i <= na,
            i <= nb,
            text_before(a@, b@) == text_before_from(a@, b@, i as int),
        decreases na - i,
    {
        let (ca, cb): (char, char) = (a.as_str().get_char(i), b.as_str().get_char(i));
        if ca != cb {
            return ca < cb;
        }
        i += 1;
    }
    i < nb
}

} // verus!
