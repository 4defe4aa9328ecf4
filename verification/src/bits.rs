//! Bits as numbers, most significant first.

use vstd::arithmetic::power2::{lemma2_to64, lemma_pow2_unfold, pow2};
use vstd::prelude::*;

verus! {

/// Bit `i` of a byte, counted from the most significant.
pub open spec fn bit_of(byte: u8, i: int) -> bool {
    (byte >> (7 - i) as u8) & 1 != 0
}

/// The bits of a byte string, each byte from its most significant bit on.
pub open spec fn bit_at(bytes: Seq<u8>, i: int) -> bool {
    bit_of(bytes[i / 8], i % 8)
}

/// The number that `bits` write, most significant first.
pub open spec fn bits_value(bits: Seq<bool>) -> int
    decreases bits.len(),
{
    if bits.len() == 0 {
        0
    } else {
        2 * bits_value(bits.drop_last()) + (if bits.last() {
            1int
        } else {
            0
        })
    }
}

pub proof fn lemma_bits_value_bound(bits: Seq<bool>)
    ensures
        0 <= bits_value(bits) < pow2(bits.len()),
    decreases bits.len(),
{
    if bits.len() == 0 {
        lemma2_to64();
    } else {
        lemma_bits_value_bound(bits.drop_last());
        lemma_pow2_unfold(bits.len());
    }
}

/// The eight bits of a byte.
pub open spec fn byte_bits(byte: u8) -> Seq<bool> {
    Seq::new(8, |i: int| bit_of(byte, i))
}

/// A byte is the number its bits write.
pub proof fn lemma_byte_bits(byte: u8)
    ensures
        bits_value(byte_bits(byte)) == byte,
{
    let s = byte_bits(byte);
    reveal_with_fuel(bits_value, 9);
    assert(s.drop_last() =~= s.take(7));
    assert(s.take(7).drop_last() =~= s.take(6));
    assert(s.take(6).drop_last() =~= s.take(5));
    assert(s.take(5).drop_last() =~= s.take(4));
    assert(s.take(4).drop_last() =~= s.take(3));
    assert(s.take(3).drop_last() =~= s.take(2));
    assert(s.take(2).drop_last() =~= s.take(1));
    assert(s.take(1).drop_last() =~= s.take(0));
    let b = byte;
    assert(b == 128 * ((b >> 7u8) & 1) + 64 * ((b >> 6u8) & 1) + 32 * ((b >> 5u8) & 1) + 16 * ((b
        >> 4u8) & 1) + 8 * ((b >> 3u8) & 1) + 4 * ((b >> 2u8) & 1) + 2 * ((b >> 1u8) & 1) + ((b
        >> 0u8) & 1)) by (bit_vector);
    assert(forall|i: u8| #[trigger] ((b >> i) & 1) == 0 || (b >> i) & 1 == 1) by (bit_vector);
}

/// Reads bit `i` of a byte, counted from the most significant.
pub(crate) fn bit_is_set(byte: u8, i: usize) -> (set: bool)
    requires
        i < 8,
    ensures
        set == bit_of(byte, i as int),
{
    (byte >> (7 - i) as u8) & 1 != 0
}

} // verus!
