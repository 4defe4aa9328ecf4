//! The segments of a data stream and the tail that follows them.

use vstd::arithmetic::power2::{lemma2_to64, lemma_pow2_strictly_increases};
use vstd::prelude::*;

use crate::bits::{bit_at, bit_is_set, bit_of, bits_value, lemma_bits_value_bound};

verus! {

/// The bits of `data` from `at` on, `count` of them.
pub open spec fn bits_from(data: Seq<u8>, at: int, count: int) -> Seq<bool> {
    Seq::new(count as nat, |i: int| bit_at(data, at + i))
}

/// The number in the `count` bits from `at` on, if the data is that long.
pub open spec fn number_at(data: Seq<u8>, at: int, count: int) -> Option<int> {
    if at + count <= 8 * data.len() {
        Some(bits_value(bits_from(data, at, count)))
    } else {
        None
    }
}

/// How many bits the character count of a segment takes: numeric (1),
/// alphanumeric (2), byte (4), Kanji (8) and Hanzi (13) segments, in three
/// groups of versions.
pub open spec fn count_bits(mode: int, version: int) -> int {
    let group = if version <= 9 {
        0int
    } else if version <= 26 {
        1
    } else {
        2
    };
    if mode == 1 {
        10 + 2 * group
    } else if mode == 2 {
        9 + 2 * group
    } else if mode == 4 {
        if group == 0 {
            8
        } else {
            16
        }
    } else {
        8 + 2 * group
    }
}

/// How many bits `count` characters of a segment take.
pub open spec fn character_bits(mode: int, count: int) -> int {
    if mode == 1 {
        count / 3 * 10 + (if count % 3 == 0 {
            0int
        } else if count % 3 == 1 {
            4
        } else {
            7
        })
    } else if mode == 2 {
        count / 2 * 11 + count % 2 * 6
    } else if mode == 4 {
        8 * count
    } else {
        13 * count
    }
}

/// Where a segment with characters ends, if the data holds all of it. Its
/// character count starts `header` bits after its first bit.
pub open spec fn characters_end(
    data: Seq<u8>,
    version: int,
    mode: int,
    start: int,
    header: int,
) -> Option<int> {
    let field = count_bits(mode, version);
    match number_at(data, start + header, field) {
        None => None,
        Some(count) => {
            let end = start + header + field + character_bits(mode, count);
            if end <= 8 * data.len() {
                Some(end)
            } else {
                None
            }
        },
    }
}

/// A position, if the data reaches it.
pub open spec fn reached(data: Seq<u8>, position: int) -> Option<int> {
    if position <= 8 * data.len() {
        Some(position)
    } else {
        None
    }
}

/// Where the segment that starts at `start` ends, and whether it carries
/// characters: structured append (3), FNC1 (5 and 9) and ECI (7) headers carry
/// none. The terminator (0) is no segment.
pub open spec fn segment_end(data: Seq<u8>, version: int, start: int) -> Option<(int, bool)> {
    match number_at(data, start, 4) {
        None => None,
        Some(mode) => if mode == 1 || mode == 2 || mode == 4 || mode == 8 {
            match characters_end(data, version, mode, start, 4) {
                Some(end) => Some((end, true)),
                None => None,
            }
        } else if mode == 13 {
            // A Hanzi segment names its subset in four bits first.
            match characters_end(data, version, mode, start, 8) {
                Some(end) => Some((end, true)),
                None => None,
            }
        } else {
            let end = if mode == 3 {
                reached(data, start + 20)
            } else if mode == 5 {
                Some(start + 4)
            } else if mode == 9 {
                reached(data, start + 12)
            } else if mode == 7 {
                match number_at(data, start + 4, 8) {
                    None => None,
                    Some(first) => if first < 128 {
                        Some(start + 12)
                    } else if first < 192 {
                        reached(data, start + 20)
                    } else if first < 224 {
                        reached(data, start + 28)
                    } else {
                        None
                    },
                }
            } else {
                None
            };
            match end {
                Some(end) => Some((end, false)),
                None => None,
            }
        },
    }
}

/// Where the terminator stands, reading segments from `start` on: at the first
/// zero mode after a segment with characters.
pub open spec fn terminator_from(
    data: Seq<u8>,
    version: int,
    start: int,
    saw_characters: bool,
) -> Option<int>
    decreases 8 * data.len() - start,
{
    if number_at(data, start, 4) == Some(0int) && saw_characters {
        Some(start)
    } else {
        match segment_end(data, version, start) {
            Some((end, characters)) => if start < end <= 8 * data.len() {
                terminator_from(data, version, end, saw_characters || characters)
            } else {
                None
            },
            None => None,
        }
    }
}

/// Where the terminator of a data stream stands.
pub open spec fn terminator(data: Seq<u8>, version: int) -> Option<int> {
    match terminator_from(data, version, 0, false) {
        Some(start) => if start >= 12 {
            Some(start)
        } else {
            None
        },
        None => None,
    }
}

/// The first `count` bits of a byte, followed by zeros.
pub open spec fn leading_bits(byte: u8, count: int) -> u8 {
    if count <= 0 {
        0
    } else if count >= 8 {
        byte
    } else {
        (byte >> (8 - count) as u8) << (8 - count) as u8
    }
}

/// The first padding byte after a terminator at `start`.
pub open spec fn padding_start(start: int) -> int {
    (start + 11) / 8
}

/// The data with everything from the terminator on rebuilt: zeros up to the
/// next byte boundary after the terminator, then the two padding bytes in turn.
pub open spec fn with_canonical_tail(data: Seq<u8>, start: int) -> Seq<u8> {
    Seq::new(
        data.len(),
        |i: int|
            if i < padding_start(start) {
                leading_bits(data[i], start - 8 * i)
            } else if (i - padding_start(start)) % 2 == 0 {
                0xec
            } else {
                0x11
            },
    )
}

/// Only what follows the segments is rebuilt: every bit before the terminator
/// is kept.
pub proof fn canonical_tail_keeps_payload(data: Seq<u8>, start: int, i: int)
    requires
        0 <= i < start,
        start + 4 <= 8 * data.len(),
    ensures
        bit_at(with_canonical_tail(data, start), i) == bit_at(data, i),
{
    lemma_leading_bits(data[i / 8], start - 8 * (i / 8), i % 8);
}

/// The terminator that the rebuilt data shows is four zero bits.
pub proof fn canonical_tail_terminates(data: Seq<u8>, start: int, i: int)
    requires
        0 <= start <= i < 8 * padding_start(start),
        start + 4 <= 8 * data.len(),
    ensures
        !bit_at(with_canonical_tail(data, start), i),
        start + 4 <= 8 * padding_start(start),
{
    lemma_leading_bits(data[i / 8], start - 8 * (i / 8), i % 8);
}

/// Rebuilding a rebuilt tail changes nothing.
pub proof fn canonical_tail_is_stable(data: Seq<u8>, start: int)
    requires
        0 <= start,
        start + 4 <= 8 * data.len(),
    ensures
        with_canonical_tail(with_canonical_tail(data, start), start) == with_canonical_tail(
            data,
            start,
        ),
{
    let once = with_canonical_tail(data, start);
    let twice = with_canonical_tail(once, start);
    assert forall|i: int| 0 <= i < data.len() implies once[i] == twice[i] by {
        let count = start - 8 * i;
        if 0 < count < 8 {
            let byte = data[i];
            let shift = (8 - count) as u8;
            assert((((byte >> shift) << shift) >> shift) << shift == (byte >> shift) << shift)
                by (bit_vector)
                requires
                    0 < shift < 8,
            ;
        }
    }
    assert(once =~= twice);
}

proof fn lemma_same_number(a: Seq<u8>, b: Seq<u8>, at: int, count: int, t: int)
    requires
        a.len() == b.len(),
        0 <= at,
        0 <= count,
        at + count <= t,
        forall|i: int| 0 <= i < t ==> #[trigger] bit_at(a, i) == bit_at(b, i),
    ensures
        number_at(a, at, count) == number_at(b, at, count),
        number_at(a, at, count) matches Some(value) ==> value >= 0,
{
    assert(bits_from(a, at, count) =~= bits_from(b, at, count)) by {
        assert forall|i: int| 0 <= i < count implies bits_from(a, at, count)[i] == bits_from(
            b,
            at,
            count,
        )[i] by {
            assert(bit_at(a, at + i) == bit_at(b, at + i));
        }
    }
    lemma_bits_value_bound(bits_from(a, at, count));
}

proof fn lemma_segment_ends_later(data: Seq<u8>, version: int, start: int)
    requires
        0 <= start,
    ensures
        segment_end(data, version, start) matches Some((end, characters)) ==> end >= start + 4 && (
        number_at(data, start, 4) == Some(7int) ==> end >= start + 12) && ({
            let mode = number_at(data, start, 4)->Some_0;
            let header = if mode == 13 {
                8int
            } else {
                4
            };
            characters ==> end >= start + header + count_bits(mode, version)
        }),
{
    let mode = number_at(data, start, 4)->Some_0;
    let header = if mode == 13 {
        8int
    } else {
        4
    };
    lemma_bits_value_bound(bits_from(data, start + header, count_bits(mode, version)));
}

proof fn lemma_same_segment(a: Seq<u8>, b: Seq<u8>, version: int, start: int, t: int)
    requires
        a.len() == b.len(),
        0 <= start,
        forall|i: int| 0 <= i < t ==> #[trigger] bit_at(a, i) == bit_at(b, i),
        segment_end(a, version, start) matches Some((end, characters)) && end <= t,
    ensures
        segment_end(b, version, start) == segment_end(a, version, start),
        number_at(b, start, 4) == number_at(a, start, 4),
{
    lemma_segment_ends_later(a, version, start);
    lemma_same_number(a, b, start, 4, t);
    let mode = number_at(a, start, 4)->Some_0;
    let field = count_bits(mode, version);
    if mode == 7 {
        lemma_same_number(a, b, start + 4, 8, t);
    } else if mode == 13 {
        lemma_same_number(a, b, start + 8, field, t);
    } else if mode == 1 || mode == 2 || mode == 4 || mode == 8 {
        lemma_same_number(a, b, start + 4, field, t);
    }
}

proof fn lemma_terminator_place(data: Seq<u8>, version: int, start: int, saw_characters: bool)
    ensures
        terminator_from(data, version, start, saw_characters) matches Some(t) ==> start <= t
            && number_at(data, t, 4) == Some(0int),
    decreases 8 * data.len() - start,
{
    if !(number_at(data, start, 4) == Some(0int) && saw_characters) {
        if let Some((end, characters)) = segment_end(data, version, start) {
            if start < end <= 8 * data.len() {
                lemma_terminator_place(data, version, end, saw_characters || characters);
            }
        }
    }
}

proof fn lemma_same_terminator(
    a: Seq<u8>,
    b: Seq<u8>,
    version: int,
    start: int,
    saw_characters: bool,
    t: int,
)
    requires
        a.len() == b.len(),
        0 <= start <= 8 * a.len(),
        terminator_from(a, version, start, saw_characters) == Some(t),
        forall|i: int| 0 <= i < t ==> #[trigger] bit_at(a, i) == bit_at(b, i),
        number_at(b, t, 4) == Some(0int),
    ensures
        start <= t,
        t + 4 <= 8 * a.len(),
        terminator_from(b, version, start, saw_characters) == Some(t),
    decreases 8 * a.len() - start,
{
    if !(number_at(a, start, 4) == Some(0int) && saw_characters) {
        let (end, characters) = segment_end(a, version, start)->Some_0;
        lemma_same_terminator(a, b, version, end, saw_characters || characters, t);
        lemma_same_segment(a, b, version, start, t);
    }
}

/// Where data ends can be read from its canonical form as well, so the canonical
/// form is its own.
pub proof fn canonical_data_is_canonical(data: Seq<u8>, version: int)
    requires
        terminator(data, version) is Some,
    ensures
        ({
            let start = terminator(data, version)->Some_0;
            let canonical = with_canonical_tail(data, start);
            &&& terminator(canonical, version) == Some(start)
            &&& with_canonical_tail(canonical, start) == canonical
        }),
{
    let start = terminator(data, version)->Some_0;
    let canonical = with_canonical_tail(data, start);
    lemma_terminator_place(data, version, 0, false);
    canonical_tail_is_stable(data, start);
    assert forall|i: int| 0 <= i < start implies #[trigger] bit_at(data, i) == bit_at(
        canonical,
        i,
    ) by {
        canonical_tail_keeps_payload(data, start, i);
    }
    let zeros = bits_from(canonical, start, 4);
    assert forall|i: int| 0 <= i < 4 implies !(#[trigger] zeros[i]) by {
        canonical_tail_terminates(data, start, start);
        canonical_tail_terminates(data, start, start + i);
    }
    assert(zeros =~= seq![false, false, false, false]);
    assert(bits_value(zeros) == 0) by {
        reveal_with_fuel(bits_value, 5);
    }
    lemma_same_terminator(data, canonical, version, 0, false, start);
}

proof fn lemma_leading_bits(byte: u8, count: int, i: int)
    requires
        0 <= i < 8,
    ensures
        bit_of(leading_bits(byte, count), i) == (i < count && bit_of(byte, i)),
{
    let at = (7 - i) as u8;
    if count <= 0 {
        assert((0u8 >> at) & 1 == 0) by (bit_vector);
    } else if count < 8 {
        let shift = (8 - count) as u8;
        assert(((((byte >> shift) << shift) >> at) & 1) == (if at >= shift {
            (byte >> at) & 1
        } else {
            0
        })) by (bit_vector)
            requires
                0 < shift < 8,
                at < 8,
        ;
    }
}

/// Reads the number in the `count` bits from `at` on.
fn read_bits(data: &[u8], at: usize, count: usize) -> (value: Option<usize>)
    requires
        count <= 16,
        8 * data@.len() + 64 <= usize::MAX,
        at <= 8 * data@.len() + 32,
    ensures
        match value {
            Some(number) => number_at(data@, at as int, count as int) == Some(number as int)
                && number < 65536,
            None => number_at(data@, at as int, count as int) is None,
        },
        value is Some && count == 4 ==> value->Some_0 < 16,
        value is Some && count == 8 ==> value->Some_0 < 256,
{
    if at + count > data.len() * 8 {
        return None;
    }
    let mut value: usize = 0;
    let mut i: usize = 0;
    let ghost all = bits_from(data@, at as int, count as int);
    assert(all.take(0) =~= Seq::<bool>::empty());
    while i < count
        invariant
            i <= count <= 16,
            at + count <= 8 * data@.len(),
            8 * data@.len() <= usize::MAX,
            all == bits_from(data@, at as int, count as int),
            value == bits_value(all.take(i as int)),
        decreases count - i,
    {
        proof {
            lemma_bits_value_bound(all.take(i as int));
            lemma2_to64();
            lemma_pow2_strictly_increases(i as nat, 16);
            assert(all.take(i + 1).drop_last() =~= all.take(i as int));
            assert(all.take(i + 1).last() == all[i as int]);
        }
        let bit: bool = bit_is_set(data[(at + i) / 8], (at + i) % 8);
        value = 2 * value + (if bit {
            1
        } else {
            0
        });
        i += 1;
    }
    proof {
        assert(all.take(count as int) =~= all);
        lemma_bits_value_bound(all);
        lemma2_to64();
        if count < 16 {
            lemma_pow2_strictly_increases(count as nat, 16);
        }
    }
    Some(value)
}

fn character_count_bits(mode: usize, version: u8) -> (bits: usize)
    requires
        mode == 1 || mode == 2 || mode == 4 || mode == 8 || mode == 13,
    ensures
        bits == count_bits(mode as int, version as int),
        8 <= bits <= 16,
{
    let group: usize = if version <= 9 {
        0
    } else if version <= 26 {
        1
    } else {
        2
    };
    match mode {
        1 => 10 + 2 * group,
        2 => 9 + 2 * group,
        4 => if group == 0 {
            8
        } else {
            16
        },
        _ => 8 + 2 * group,
    }
}

fn segment_data_bits(mode: usize, count: usize) -> (bits: usize)
    requires
        mode == 1 || mode == 2 || mode == 4 || mode == 8 || mode == 13,
        count < 65536,
    ensures
        bits == character_bits(mode as int, count as int),
        bits < 1000000,
{
    match mode {
        1 => count / 3 * 10 + (match count % 3 {
            0 => 0,
            1 => 4,
            _ => 7,
        }),
        2 => count / 2 * 11 + count % 2 * 6,
        4 => 8 * count,
        _ => 13 * count,
    }
}

/// The end of a segment with characters.
fn characters_end_at(data: &[u8], version: u8, mode: usize, start: usize, header: usize) -> (end:
    Option<usize>)
    requires
        8 * data@.len() + 2000000 <= usize::MAX,
        start <= 8 * data@.len(),
        header <= 8,
        mode == 1 || mode == 2 || mode == 4 || mode == 8 || mode == 13,
    ensures
        match end {
            Some(end) => characters_end(
                data@,
                version as int,
                mode as int,
                start as int,
                header as int,
            ) == Some(end as int) && start + header < end <= 8 * data@.len(),
            None => characters_end(
                data@,
                version as int,
                mode as int,
                start as int,
                header as int,
            ) is None,
        },
{
    let field: usize = character_count_bits(mode, version);
    match read_bits(data, start + header, field) {
        None => None,
        Some(count) => {
            let end: usize = start + header + field + segment_data_bits(mode, count);
            if end <= data.len() * 8 {
                Some(end)
            } else {
                None
            }
        },
    }
}

/// The end of a segment that starts with the given mode.
fn segment_end_at(data: &[u8], version: u8, mode: usize, start: usize) -> (end: Option<
    (usize, bool),
>)
    requires
        8 * data@.len() + 2000000 <= usize::MAX,
        start <= 8 * data@.len(),
        number_at(data@, start as int, 4) == Some(mode as int),
    ensures
        match end {
            Some((end, characters)) => segment_end(data@, version as int, start as int) == Some(
                (end as int, characters),
            ) && start < end <= 8 * data@.len(),
            None => segment_end(data@, version as int, start as int) is None,
        },
{
    let total: usize = data.len() * 8;
    let header: usize = match mode {
        1 | 2 | 4 | 8 => match characters_end_at(data, version, mode, start, 4) {
            Some(end) => {
                return Some((end, true));
            },
            None => {
                return None;
            },
        },
        13 => match characters_end_at(data, version, mode, start, 8) {
            Some(end) => {
                return Some((end, true));
            },
            None => {
                return None;
            },
        },
        3 => 20,
        5 => 4,
        9 => 12,
        7 => match read_bits(data, start + 4, 8) {
            None => {
                return None;
            },
            Some(first) => if first < 128 {
                12
            } else if first < 192 {
                20
            } else if first < 224 {
                28
            } else {
                return None;
            },
        },
        _ => {
            return None;
        },
    };
    if start + header <= total {
        Some((start + header, false))
    } else {
        None
    }
}

/// Finds the terminator of a data stream.
fn terminator_of(data: &[u8], version: u8) -> (found: Option<usize>)
    requires
        8 * data@.len() + 2000000 <= usize::MAX,
    ensures
        match found {
            Some(start) => terminator(data@, version as int) == Some(start as int) && start + 4
                <= 8 * data@.len(),
            None => terminator(data@, version as int) is None,
        },
{
    let mut start: usize = 0;
    let mut saw_characters: bool = false;
    loop
        invariant
            8 * data@.len() + 2000000 <= usize::MAX,
            start <= 8 * data@.len(),
            terminator_from(data@, version as int, 0, false) == terminator_from(
                data@,
                version as int,
                start as int,
                saw_characters,
            ),
        decreases 8 * data@.len() - start,
    {
        let mode: usize = match read_bits(data, start, 4) {
            Some(mode) => mode,
            None => {
                return None;
            },
        };
        if mode == 0 && saw_characters {
            return if start >= 12 {
                Some(start)
            } else {
                None
            };
        }
        match segment_end_at(data, version, mode, start) {
            Some((end, characters)) => {
                start = end;
                saw_characters = saw_characters || characters;
            },
            None => {
                return None;
            },
        }
    }
}

/// Rebuilds terminator and padding of a data stream whose segments can be read
/// to their end.
pub fn canonicalize_qr_data_tail(data: &[u8], version: u8) -> (repaired: Option<Vec<u8>>)
    requires
        8 * data@.len() + 2000000 <= usize::MAX,
    ensures
        match terminator(data@, version as int) {
            Some(start) => repaired is Some && repaired->Some_0@ == with_canonical_tail(
                data@,
                start,
            ) && terminator(repaired->Some_0@, version as int) == Some(start)
                && with_canonical_tail(repaired->Some_0@, start) == repaired->Some_0@,
            None => repaired is None,
        },
{
    let start: usize = match terminator_of(data, version) {
        Some(start) => start,
        None => {
            return None;
        },
    };
    let padding: usize = (start + 11) / 8;
    let mut repaired: Vec<u8> = Vec::new();
    let mut i: usize = 0;
    while i < data.len()
        invariant
            8 * data@.len() + 2000000 <= usize::MAX,
            start + 4 <= 8 * data@.len(),
            padding == padding_start(start as int),
            i <= data@.len(),
            repaired@ == with_canonical_tail(data@, start as int).take(i as int),
        decreases data@.len() - i,
    {
        let byte: u8 = if i >= padding {
            if (i - padding) % 2 == 0 {
                0xec
            } else {
                0x11
            }
        } else if 8 * i >= start {
            0
        } else if start - 8 * i >= 8 {
            data[i]
        } else {
            let shift: u8 = (8 - (start - 8 * i)) as u8;
            (data[i] >> shift) << shift
        };
        repaired.push(byte);
        assert(repaired@ =~= with_canonical_tail(data@, start as int).take(i + 1));
        i += 1;
    }
    assert(repaired@ =~= with_canonical_tail(data@, start as int));
    proof {
        canonical_data_is_canonical(data@, version as int);
    }
    Some(repaired)
}

} // verus!
