//! What is read of a data stream, held against how messages are encoded.

use vstd::arithmetic::power2::{lemma2_to64, lemma_pow2_pos, lemma_pow2_unfold, pow2};
use vstd::prelude::*;

use crate::bits::{bit_at, bit_of, bits_value};
use crate::search_laws::lemma_same_bits;
use crate::segments::{
    bits_from, canonical_tail_keeps_payload, canonical_tail_terminates, character_bits,
    characters_end, count_bits, number_at, padding_start, segment_end, terminator, terminator_from,
    with_canonical_tail,
};

verus! {

/// A number in so many bits, most significant first.
pub open spec fn number_bits(value: int, width: int) -> Seq<bool>
    decreases width,
{
    if width <= 0 {
        Seq::empty()
    } else {
        number_bits(value / 2, width - 1).push(value % 2 == 1)
    }
}

/// Digits in threes, each three in ten bits; two left over take seven bits and
/// one takes four.
pub open spec fn digit_bits(digits: Seq<int>) -> Seq<bool>
    decreases digits.len(),
{
    if digits.len() == 0 {
        Seq::empty()
    } else if digits.len() == 1 {
        number_bits(digits[0], 4)
    } else if digits.len() == 2 {
        number_bits(10 * digits[0] + digits[1], 7)
    } else {
        number_bits(100 * digits[0] + 10 * digits[1] + digits[2], 10) + digit_bits(digits.skip(3))
    }
}

/// Characters of an alphabet of forty-five in pairs, each pair in eleven bits;
/// one left over takes six.
pub open spec fn pair_bits(characters: Seq<int>) -> Seq<bool>
    decreases characters.len(),
{
    if characters.len() == 0 {
        Seq::empty()
    } else if characters.len() == 1 {
        number_bits(characters[0], 6)
    } else {
        number_bits(45 * characters[0] + characters[1], 11) + pair_bits(characters.skip(2))
    }
}

/// Characters in so many bits each.
pub open spec fn plain_bits(characters: Seq<int>, width: int) -> Seq<bool>
    decreases characters.len(),
{
    if characters.len() == 0 {
        Seq::empty()
    } else {
        number_bits(characters[0], width) + plain_bits(characters.skip(1), width)
    }
}

/// A segment of a message.
pub ghost enum Segment {
    Numeric { digits: Seq<int> },
    Alphanumeric { characters: Seq<int> },
    Bytes { bytes: Seq<int> },
    Kanji { characters: Seq<int> },
    Hanzi { subset: int, characters: Seq<int> },
    StructuredAppend { index: int, last: int, parity: int },
    FirstFnc1,
    SecondFnc1 { application: int },
    Eci { designator: int },
}

/// One of three numbers: for versions up to 9, up to 26, and from 27 on.
pub open spec fn by_version(version: int, low: int, middle: int, high: int) -> int {
    if version < 10 {
        low
    } else if version < 27 {
        middle
    } else {
        high
    }
}

/// How a segment is encoded: its mode in four bits, what its mode prescribes,
/// and for characters their number in front of them.
pub open spec fn segment_bits(segment: Segment, version: int) -> Seq<bool> {
    match segment {
        Segment::Numeric { digits } => seq![false, false, false, true] + number_bits(
            digits.len() as int,
            by_version(version, 10, 12, 14),
        ) + digit_bits(digits),
        Segment::Alphanumeric { characters } => seq![false, false, true, false] + number_bits(
            characters.len() as int,
            by_version(version, 9, 11, 13),
        ) + pair_bits(characters),
        Segment::Bytes { bytes } => seq![false, true, false, false] + number_bits(
            bytes.len() as int,
            by_version(version, 8, 16, 16),
        ) + plain_bits(bytes, 8),
        Segment::Kanji { characters } => seq![true, false, false, false] + number_bits(
            characters.len() as int,
            by_version(version, 8, 10, 12),
        ) + plain_bits(characters, 13),
        Segment::Hanzi { subset, characters } => seq![true, true, false, true] + number_bits(
            subset,
            4,
        ) + number_bits(characters.len() as int, by_version(version, 8, 10, 12)) + plain_bits(
            characters,
            13,
        ),
        Segment::StructuredAppend { index, last, parity } => seq![false, false, true, true]
            + number_bits(index, 4) + number_bits(last, 4) + number_bits(parity, 8),
        Segment::FirstFnc1 => seq![false, true, false, true],
        Segment::SecondFnc1 { application } => seq![true, false, false, true] + number_bits(
            application,
            8,
        ),
        Segment::Eci { designator } => if designator < 128 {
            seq![false, true, true, true] + number_bits(designator, 8)
        } else if designator < 16384 {
            seq![false, true, true, true] + seq![true, false] + number_bits(designator, 14)
        } else {
            seq![false, true, true, true] + seq![true, true, false] + number_bits(designator, 21)
        },
    }
}

/// Whether a segment can be encoded: its characters are in their alphabet and
/// their number fits in its field.
pub open spec fn can_be_encoded(segment: Segment, version: int) -> bool {
    match segment {
        Segment::Numeric { digits } => digits.len() < pow2(
            by_version(version, 10, 12, 14) as nat,
        ) && forall|i: int| 0 <= i < digits.len() ==> 0 <= #[trigger] digits[i] < 10,
        Segment::Alphanumeric { characters } => characters.len() < pow2(
            by_version(version, 9, 11, 13) as nat,
        ) && forall|i: int| 0 <= i < characters.len() ==> 0 <= #[trigger] characters[i] < 45,
        Segment::Bytes { bytes } => bytes.len() < pow2(by_version(version, 8, 16, 16) as nat)
            && forall|i: int| 0 <= i < bytes.len() ==> 0 <= #[trigger] bytes[i] < 256,
        Segment::Kanji { characters } => characters.len() < pow2(
            by_version(version, 8, 10, 12) as nat,
        ) && forall|i: int| 0 <= i < characters.len() ==> 0 <= #[trigger] characters[i] < 8192,
        Segment::Hanzi { subset, characters } => 0 <= subset < 16 && characters.len() < pow2(
            by_version(version, 8, 10, 12) as nat,
        ) && forall|i: int| 0 <= i < characters.len() ==> 0 <= #[trigger] characters[i] < 8192,
        Segment::StructuredAppend { index, last, parity } => 0 <= index < 16 && 0 <= last < 16
            && 0 <= parity < 256,
        Segment::FirstFnc1 => true,
        Segment::SecondFnc1 { application } => 0 <= application < 256,
        Segment::Eci { designator } => 0 <= designator < 1_000_000,
    }
}

/// Whether a segment carries characters.
pub open spec fn has_characters(segment: Segment) -> bool {
    match segment {
        Segment::Numeric { .. } => true,
        Segment::Alphanumeric { .. } => true,
        Segment::Bytes { .. } => true,
        Segment::Kanji { .. } => true,
        Segment::Hanzi { .. } => true,
        _ => false,
    }
}

/// The segments of a message, one behind the other.
pub open spec fn message_bits(segments: Seq<Segment>, version: int) -> Seq<bool>
    decreases segments.len(),
{
    if segments.len() == 0 {
        Seq::empty()
    } else {
        segment_bits(segments[0], version) + message_bits(segments.skip(1), version)
    }
}

/// A message that can be encoded and has characters.
pub open spec fn is_message(segments: Seq<Segment>, version: int) -> bool {
    &&& forall|i: int| 0 <= i < segments.len() ==> can_be_encoded(#[trigger] segments[i], version)
    &&& exists|i: int| 0 <= i < segments.len() && has_characters(#[trigger] segments[i])
}

/// Whether data shows the given bits from `at` on.
pub open spec fn shows(data: Seq<u8>, at: int, bits: Seq<bool>) -> bool {
    &&& at + bits.len() <= 8 * data.len()
    &&& forall|i: int| 0 <= i < bits.len() ==> bit_at(data, at + i) == #[trigger] bits[i]
}

/// The four zero bits behind the segments.
pub open spec fn terminator_bits() -> Seq<bool> {
    seq![false, false, false, false]
}

proof fn lemma_number_bits(value: int, width: int)
    requires
        0 <= width,
        0 <= value < pow2(width as nat),
    ensures
        number_bits(value, width).len() == width,
        bits_value(number_bits(value, width)) == value,
    decreases width,
{
    lemma_pow2_pos(width as nat);
    if width > 0 {
        lemma_pow2_unfold(width as nat);
        lemma_number_bits(value / 2, width - 1);
        let bits = number_bits(value, width);
        assert(bits.drop_last() =~= number_bits(value / 2, width - 1));
    } else {
        lemma2_to64();
    }
}

proof fn lemma_width(value: int, width: int)
    ensures
        number_bits(value, width).len() == (if width > 0 {
            width
        } else {
            0
        }),
    decreases width,
{
    if width > 0 {
        lemma_width(value / 2, width - 1);
    }
}

proof fn lemma_shown_value(data: Seq<u8>, at: int, bits: Seq<bool>)
    requires
        0 <= at,
        shows(data, at, bits),
    ensures
        number_at(data, at, bits.len() as int) == Some(bits_value(bits)),
{
    assert(bits_from(data, at, bits.len() as int) =~= bits);
}

proof fn lemma_shown_number(data: Seq<u8>, at: int, value: int, width: int)
    requires
        0 <= at,
        0 <= width,
        0 <= value < pow2(width as nat),
        shows(data, at, number_bits(value, width)),
    ensures
        number_at(data, at, width) == Some(value),
{
    lemma_number_bits(value, width);
    lemma_shown_value(data, at, number_bits(value, width));
}

proof fn lemma_shown_parts(data: Seq<u8>, at: int, first: Seq<bool>, second: Seq<bool>)
    requires
        shows(data, at, first + second),
    ensures
        shows(data, at, first),
        shows(data, at + first.len(), second),
{
    let both = first + second;
    assert forall|i: int| 0 <= i < first.len() implies bit_at(data, at + i) == #[trigger] first[i] by {
        assert(both[i] == first[i]);
    }
    assert forall|i: int| 0 <= i < second.len() implies bit_at(data, at + first.len() + i)
        == #[trigger] second[i] by {
        assert(both[first.len() + i] == second[i]);
        assert(at + first.len() + i == at + (first.len() + i));
    }
}

proof fn lemma_nibble(data: Seq<u8>, at: int, a: bool, b: bool, c: bool, d: bool)
    requires
        0 <= at,
        shows(data, at, seq![a, b, c, d]),
    ensures
        number_at(data, at, 4) == Some(
            (if a {
                8int
            } else {
                0
            }) + (if b {
                4int
            } else {
                0
            }) + (if c {
                2int
            } else {
                0
            }) + (if d {
                1int
            } else {
                0
            }),
        ),
{
    let bits = seq![a, b, c, d];
    lemma_shown_value(data, at, bits);
    reveal_with_fuel(bits_value, 5);
    assert(bits.drop_last() =~= seq![a, b, c]);
    assert(seq![a, b, c].drop_last() =~= seq![a, b]);
    assert(seq![a, b].drop_last() =~= seq![a]);
    assert(seq![a].drop_last() =~= Seq::<bool>::empty());
}

proof fn lemma_digits_length(digits: Seq<int>)
    ensures
        digit_bits(digits).len() == character_bits(1, digits.len() as int),
    decreases digits.len(),
{
    if digits.len() == 1 {
        lemma_width(digits[0], 4);
    } else if digits.len() == 2 {
        lemma_width(10 * digits[0] + digits[1], 7);
    } else if digits.len() >= 3 {
        lemma_width(100 * digits[0] + 10 * digits[1] + digits[2], 10);
        lemma_digits_length(digits.skip(3));
    }
}

proof fn lemma_pairs_length(characters: Seq<int>)
    ensures
        pair_bits(characters).len() == character_bits(2, characters.len() as int),
    decreases characters.len(),
{
    if characters.len() == 1 {
        lemma_width(characters[0], 6);
    } else if characters.len() >= 2 {
        lemma_width(45 * characters[0] + characters[1], 11);
        lemma_pairs_length(characters.skip(2));
    }
}

proof fn lemma_plain_length(characters: Seq<int>, width: int)
    requires
        0 <= width,
    ensures
        plain_bits(characters, width).len() == width * characters.len(),
    decreases characters.len(),
{
    if characters.len() > 0 {
        lemma_width(characters[0], width);
        lemma_plain_length(characters.skip(1), width);
        assert(width * characters.len() == width + width * (characters.len() - 1))
            by (nonlinear_arith);
    } else {
        assert(width * characters.len() == 0) by (nonlinear_arith)
            requires
                characters.len() == 0,
        ;
    }
}

/// The characters of a segment end where their encoding ends.
proof fn lemma_characters_end(
    data: Seq<u8>,
    version: int,
    mode: int,
    start: int,
    header: Seq<bool>,
    count: int,
    field: int,
    body: Seq<bool>,
)
    requires
        0 <= start,
        0 <= count < pow2(field as nat),
        field == count_bits(mode, version),
        body.len() == character_bits(mode, count),
        shows(data, start, header + number_bits(count, field) + body),
    ensures
        characters_end(data, version, mode, start, header.len() as int) == Some(
            start + (header + number_bits(count, field) + body).len(),
        ),
        shows(data, start, header),
{
    lemma_shown_parts(data, start, header + number_bits(count, field), body);
    lemma_shown_parts(data, start, header, number_bits(count, field));
    lemma_shown_number(data, start + header.len(), count, field);
    lemma_width(count, field);
}

/// A segment is read to the end of its encoding.
pub proof fn encoded_segments_are_read_to_their_end(
    data: Seq<u8>,
    version: int,
    start: int,
    segment: Segment,
)
    requires
        0 <= start,
        can_be_encoded(segment, version),
        shows(data, start, segment_bits(segment, version)),
    ensures
        segment_end(data, version, start) == Some(
            (start + segment_bits(segment, version).len(), has_characters(segment)),
        ),
        number_at(data, start, 4) != Some(0int),
        segment_bits(segment, version).len() >= 4,
        has_characters(segment) ==> segment_bits(segment, version).len() >= 12,
{
    let bits = segment_bits(segment, version);
    lemma2_to64();
    match segment {
        Segment::Numeric { digits } => {
            let field = by_version(version, 10, 12, 14);
            let mode = seq![false, false, false, true];
            lemma_digits_length(digits);
            lemma_width(digits.len() as int, field);
            lemma_characters_end(
                data,
                version,
                1,
                start,
                mode,
                digits.len() as int,
                field,
                digit_bits(digits),
            );
            lemma_nibble(data, start, false, false, false, true);
        },
        Segment::Alphanumeric { characters } => {
            let field = by_version(version, 9, 11, 13);
            let mode = seq![false, false, true, false];
            lemma_pairs_length(characters);
            lemma_width(characters.len() as int, field);
            lemma_characters_end(
                data,
                version,
                2,
                start,
                mode,
                characters.len() as int,
                field,
                pair_bits(characters),
            );
            lemma_nibble(data, start, false, false, true, false);
        },
        Segment::Bytes { bytes } => {
            let field = by_version(version, 8, 16, 16);
            let mode = seq![false, true, false, false];
            lemma_plain_length(bytes, 8);
            lemma_width(bytes.len() as int, field);
            lemma_characters_end(
                data,
                version,
                4,
                start,
                mode,
                bytes.len() as int,
                field,
                plain_bits(bytes, 8),
            );
            lemma_nibble(data, start, false, true, false, false);
        },
        Segment::Kanji { characters } => {
            let field = by_version(version, 8, 10, 12);
            let mode = seq![true, false, false, false];
            lemma_plain_length(characters, 13);
            lemma_width(characters.len() as int, field);
            lemma_characters_end(
                data,
                version,
                8,
                start,
                mode,
                characters.len() as int,
                field,
                plain_bits(characters, 13),
            );
            lemma_nibble(data, start, true, false, false, false);
        },
        Segment::Hanzi { subset, characters } => {
            let field = by_version(version, 8, 10, 12);
            let mode = seq![true, true, false, true];
            lemma_plain_length(characters, 13);
            lemma_width(characters.len() as int, field);
            lemma_width(subset, 4);
            lemma_characters_end(
                data,
                version,
                13,
                start,
                mode + number_bits(subset, 4),
                characters.len() as int,
                field,
                plain_bits(characters, 13),
            );
            lemma_shown_parts(data, start, mode, number_bits(subset, 4));
            lemma_nibble(data, start, true, true, false, true);
        },
        Segment::StructuredAppend { index, last, parity } => {
            let mode = seq![false, false, true, true];
            lemma_width(index, 4);
            lemma_width(last, 4);
            lemma_width(parity, 8);
            lemma_shown_parts(
                data,
                start,
                mode + number_bits(index, 4) + number_bits(last, 4),
                number_bits(parity, 8),
            );
            lemma_shown_parts(data, start, mode + number_bits(index, 4), number_bits(last, 4));
            lemma_shown_parts(data, start, mode, number_bits(index, 4));
            lemma_nibble(data, start, false, false, true, true);
        },
        Segment::FirstFnc1 => {
            lemma_nibble(data, start, false, true, false, true);
        },
        Segment::SecondFnc1 { application } => {
            let mode = seq![true, false, false, true];
            lemma_width(application, 8);
            lemma_shown_parts(data, start, mode, number_bits(application, 8));
            lemma_nibble(data, start, true, false, false, true);
        },
        Segment::Eci { designator } => {
            lemma_eci_end(data, version, start, designator);
        },
    }
}

proof fn lemma_eci_end(data: Seq<u8>, version: int, start: int, designator: int)
    requires
        0 <= start,
        0 <= designator < 1_000_000,
        shows(data, start, segment_bits(Segment::Eci { designator }, version)),
    ensures
        segment_end(data, version, start) == Some(
            (start + segment_bits(Segment::Eci { designator }, version).len(), false),
        ),
        number_at(data, start, 4) == Some(7int),
        segment_bits(Segment::Eci { designator }, version).len() >= 4,
{
    let mode = seq![false, true, true, true];
    lemma2_to64();
    if designator < 128 {
        lemma_shown_parts(data, start, mode, number_bits(designator, 8));
        lemma_shown_number(data, start + 4, designator, 8);
        lemma_width(designator, 8);
    } else if designator < 16384 {
        let mark = seq![true, false];
        lemma_shown_parts(data, start, mode + mark, number_bits(designator, 14));
        lemma_shown_parts(data, start, mode, mark);
        lemma_width(designator, 14);
        lemma_marked_byte(data, start + 4, mark, number_bits(designator, 14));
        lemma_two_marks(mark, number_bits(designator, 14));
    } else {
        let mark = seq![true, true, false];
        lemma_shown_parts(data, start, mode + mark, number_bits(designator, 21));
        lemma_shown_parts(data, start, mode, mark);
        lemma_width(designator, 21);
        lemma_marked_byte(data, start + 4, mark, number_bits(designator, 21));
        lemma_three_marks(mark, number_bits(designator, 21));
    }
    lemma_nibble(data, start, false, true, true, true);
}

proof fn lemma_marked_byte(data: Seq<u8>, at: int, mark: Seq<bool>, rest: Seq<bool>)
    requires
        0 <= at,
        mark.len() + rest.len() >= 8,
        shows(data, at, mark),
        shows(data, at + mark.len(), rest),
    ensures
        number_at(data, at, 8) == Some(bits_value((mark + rest).take(8))),
{
    let byte = (mark + rest).take(8);
    assert forall|i: int| 0 <= i < 8 implies bit_at(data, at + i) == #[trigger] byte[i] by {
        if i < mark.len() {
            assert(byte[i] == mark[i]);
        } else {
            assert(byte[i] == rest[i - mark.len()]);
            assert(at + mark.len() + (i - mark.len()) == at + i);
        }
    }
    lemma_shown_value(data, at, byte);
}

proof fn lemma_unfold_eight(byte: Seq<bool>)
    requires
        byte.len() == 8,
    ensures
        bits_value(byte) == bit_weight(byte[0], 128) + bit_weight(byte[1], 64) + bit_weight(
            byte[2],
            32,
        ) + bit_weight(byte[3], 16) + bit_weight(byte[4], 8) + bit_weight(byte[5], 4)
            + bit_weight(byte[6], 2) + bit_weight(byte[7], 1),
{
    reveal_with_fuel(bits_value, 9);
    assert(byte.drop_last() =~= byte.take(7));
    assert(byte.take(7).drop_last() =~= byte.take(6));
    assert(byte.take(6).drop_last() =~= byte.take(5));
    assert(byte.take(5).drop_last() =~= byte.take(4));
    assert(byte.take(4).drop_last() =~= byte.take(3));
    assert(byte.take(3).drop_last() =~= byte.take(2));
    assert(byte.take(2).drop_last() =~= byte.take(1));
    assert(byte.take(1).drop_last() =~= byte.take(0));
}

spec fn bit_weight(bit: bool, weight: int) -> int {
    if bit {
        weight
    } else {
        0
    }
}

proof fn lemma_two_marks(mark: Seq<bool>, rest: Seq<bool>)
    requires
        mark == seq![true, false],
        rest.len() >= 6,
    ensures
        128 <= bits_value((mark + rest).take(8)) < 192,
{
    let byte = (mark + rest).take(8);
    lemma_unfold_eight(byte);
    assert(byte[0] && !byte[1]);
}

proof fn lemma_three_marks(mark: Seq<bool>, rest: Seq<bool>)
    requires
        mark == seq![true, true, false],
        rest.len() >= 5,
    ensures
        192 <= bits_value((mark + rest).take(8)) < 224,
{
    let byte = (mark + rest).take(8);
    lemma_unfold_eight(byte);
    assert(byte[0] && byte[1] && !byte[2]);
}

proof fn lemma_message_end(
    data: Seq<u8>,
    version: int,
    start: int,
    segments: Seq<Segment>,
    saw_characters: bool,
)
    requires
        0 <= start,
        forall|i: int|
            0 <= i < segments.len() ==> can_be_encoded(#[trigger] segments[i], version),
        saw_characters || exists|i: int|
            0 <= i < segments.len() && has_characters(#[trigger] segments[i]),
        shows(data, start, message_bits(segments, version) + terminator_bits()),
    ensures
        terminator_from(data, version, start, saw_characters) == Some(
            start + message_bits(segments, version).len(),
        ),
        !saw_characters ==> message_bits(segments, version).len() >= 12,
    decreases segments.len(),
{
    if segments.len() == 0 {
        assert(message_bits(segments, version) + terminator_bits() =~= terminator_bits());
        lemma_nibble(data, start, false, false, false, false);
    } else {
        let first = segment_bits(segments[0], version);
        let rest = segments.skip(1);
        let behind = message_bits(rest, version);
        assert(message_bits(segments, version) + terminator_bits() =~= first + (behind
            + terminator_bits()));
        lemma_shown_parts(data, start, first, behind + terminator_bits());
        encoded_segments_are_read_to_their_end(data, version, start, segments[0]);
        assert forall|i: int| 0 <= i < rest.len() implies can_be_encoded(
            #[trigger] rest[i],
            version,
        ) by {
            assert(rest[i] == segments[i + 1]);
        }
        let saw = saw_characters || has_characters(segments[0]);
        if !saw {
            let i = choose|i: int|
                0 <= i < segments.len() && has_characters(#[trigger] segments[i]);
            assert(rest[i - 1] == segments[i]);
        }
        lemma_message_end(data, version, start + first.len(), rest, saw);
    }
}

/// Encoding and measuring agree: the terminator behind an encoded message is
/// found right where the message ends.
pub proof fn terminators_stand_behind_their_message(
    data: Seq<u8>,
    version: int,
    segments: Seq<Segment>,
)
    requires
        is_message(segments, version),
        shows(data, 0, message_bits(segments, version) + terminator_bits()),
    ensures
        terminator(data, version) == Some(message_bits(segments, version).len() as int),
{
    lemma_message_end(data, version, 0, segments, false);
}

/// A mode that no segment has is not read, nor is a terminator in front of all
/// characters, nor a segment that the data does not hold to its end.
pub proof fn only_segments_are_read(data: Seq<u8>, version: int, start: int)
    requires
        0 <= start,
    ensures
        segment_end(data, version, start) matches Some((end, characters)) ==> {
            &&& end <= 8 * data.len()
            &&& number_at(data, start, 4) matches Some(mode) && seq![1int, 2, 3, 4, 5, 7, 8, 9, 13]
                .contains(mode)
            &&& characters <==> seq![1int, 2, 4, 8, 13].contains(number_at(data, start, 4)->Some_0)
        },
{
    let known = seq![1int, 2, 3, 4, 5, 7, 8, 9, 13];
    let lettered = seq![1int, 2, 4, 8, 13];
    assert(known[0] == 1 && known[1] == 2 && known[2] == 3 && known[3] == 4 && known[4] == 5
        && known[5] == 7 && known[6] == 8 && known[7] == 9 && known[8] == 13);
    assert(lettered[0] == 1 && lettered[1] == 2 && lettered[2] == 4 && lettered[3] == 8
        && lettered[4] == 13);
}

/// The bits of the two padding bytes.
pub open spec fn padding_bits(odd: bool) -> Seq<bool> {
    if odd {
        seq![false, false, false, true, false, false, false, true]
    } else {
        seq![true, true, true, false, true, true, false, false]
    }
}

/// Bit `i` of a full data stream that carries a message: the message, the
/// terminator, zeros up to the next whole byte, and the padding bytes in turn.
pub open spec fn encoded_bit(segments: Seq<Segment>, version: int, i: int) -> bool {
    let message = message_bits(segments, version);
    let whole = (message.len() + 4 + 7) / 8 * 8;
    if i < message.len() {
        message[i]
    } else if i < whole {
        false
    } else {
        padding_bits((i - whole) / 8 % 2 == 1)[i % 8]
    }
}

proof fn lemma_padding_bits(i: int)
    requires
        0 <= i < 8,
    ensures
        bit_of(0xec, i) == padding_bits(false)[i],
        bit_of(0x11, i) == padding_bits(true)[i],
{
    assert((0xecu8 >> 7u8) & 1 == 1 && (0xecu8 >> 6u8) & 1 == 1 && (0xecu8 >> 5u8) & 1 == 1 && (
    0xecu8 >> 4u8) & 1 == 0 && (0xecu8 >> 3u8) & 1 == 1 && (0xecu8 >> 2u8) & 1 == 1 && (0xecu8
        >> 1u8) & 1 == 0 && (0xecu8 >> 0u8) & 1 == 0) by (bit_vector);
    assert((0x11u8 >> 7u8) & 1 == 0 && (0x11u8 >> 6u8) & 1 == 0 && (0x11u8 >> 5u8) & 1 == 0 && (
    0x11u8 >> 4u8) & 1 == 1 && (0x11u8 >> 3u8) & 1 == 0 && (0x11u8 >> 2u8) & 1 == 0 && (0x11u8
        >> 1u8) & 1 == 0 && (0x11u8 >> 0u8) & 1 == 1) by (bit_vector);
    assert(i == 0 || i == 1 || i == 2 || i == 3 || i == 4 || i == 5 || i == 6 || i == 7);
}

/// Rebuilding the tail gives the encoding of the message, whatever stood behind
/// the terminator.
pub proof fn rebuilt_tails_are_encodings(
    data: Seq<u8>,
    version: int,
    segments: Seq<Segment>,
    i: int,
)
    requires
        is_message(segments, version),
        shows(data, 0, message_bits(segments, version) + terminator_bits()),
        0 <= i < 8 * data.len(),
    ensures
        ({
            let start = terminator(data, version)->Some_0;
            let rebuilt = with_canonical_tail(data, start);
            &&& rebuilt.len() == data.len()
            &&& bit_at(rebuilt, i) == encoded_bit(segments, version, i)
        }),
{
    let message = message_bits(segments, version);
    terminators_stand_behind_their_message(data, version, segments);
    lemma_shown_parts(data, 0, message, terminator_bits());
    let start = message.len() as int;
    if i < start {
        canonical_tail_keeps_payload(data, start, i);
        assert(bit_at(data, 0 + i) == message[i]);
    } else if i < 8 * padding_start(start) {
        canonical_tail_terminates(data, start, i);
    } else {
        lemma_padding_bits(i % 8);
        let whole = (start + 4 + 7) / 8 * 8;
        assert(whole == 8 * padding_start(start));
        assert((i - whole) / 8 == i / 8 - padding_start(start));
    }
}

/// Two streams of one length that carry the same message are rebuilt to the same
/// stream.
pub proof fn one_message_has_one_encoding(
    a: Seq<u8>,
    b: Seq<u8>,
    version: int,
    segments: Seq<Segment>,
)
    requires
        a.len() == b.len(),
        is_message(segments, version),
        shows(a, 0, message_bits(segments, version) + terminator_bits()),
        shows(b, 0, message_bits(segments, version) + terminator_bits()),
    ensures
        with_canonical_tail(a, terminator(a, version)->Some_0) == with_canonical_tail(
            b,
            terminator(b, version)->Some_0,
        ),
{
    let first = with_canonical_tail(a, terminator(a, version)->Some_0);
    let second = with_canonical_tail(b, terminator(b, version)->Some_0);
    assert forall|i: int| 0 <= i < 8 * first.len() implies #[trigger] bit_at(first, i) == bit_at(
        second,
        i,
    ) by {
        rebuilt_tails_are_encodings(a, version, segments, i);
        rebuilt_tails_are_encodings(b, version, segments, i);
    }
    lemma_same_bits(first, second);
}

} // verus!
