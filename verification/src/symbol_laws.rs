//! What a symbol looks like, module by module and codeword by codeword.

use vstd::prelude::*;

use crate::bch::{
    format_data, format_register, format_word, format_word_shows_data, version_register,
    version_word, version_word_shows_version,
};
use crate::bits::bit_at;
use crate::codewords::{lemma_coordinate_cell, shown_reliability, symbol_matrix};
use crate::function_pattern::{
    alignment_centre, alignment_module, alignment_ring, function_module, in_band, is_function,
    lemma_alignment_module, lemma_function_map, ring,
};
use crate::interleave::{
    data_row, data_slots, ecc_row, ecc_slots, interleaved, max_data, regular, slots,
};
use crate::layout::{
    alignment_count, alignment_position, alignment_positions_spread, alignment_step, block_count,
    block_ecc, symbol_side, total_codewords, valid_version, BlockSpec, EcLevel,
};
use crate::mask::mask_inverts;
use crate::traversal::{
    coordinates, coordinates_fill_capacity, pair_count, pair_data, pair_module, pairs_data,
};

verus! {

/// Whether a bit of a word is set, counted from the least significant.
pub open spec fn has_bit(word: u32, k: int) -> bool {
    (word >> k as u32) & 1 != 0
}

/// In how many of the lowest `n` bits two words differ.
pub open spec fn bit_distance(a: u32, b: u32, n: int) -> int
    decreases n,
{
    if n <= 0 {
        0
    } else {
        bit_distance(a, b, n - 1) + (if has_bit(a, n - 1) != has_bit(b, n - 1) {
            1int
        } else {
            0
        })
    }
}

/// The product of two polynomials over two elements, the first of them with at
/// most six coefficients, both written as the bits of numbers.
pub open spec fn polynomial_product(q: u32, g: u32) -> u32 {
    ((q & 1) * g) as u32 ^ (((q >> 1u32) & 1) * (g << 1u32)) as u32 ^ (((q >> 2u32) & 1) * (g
        << 2u32)) as u32 ^ (((q >> 3u32) & 1) * (g << 3u32)) as u32 ^ (((q >> 4u32) & 1) * (g
        << 4u32)) as u32 ^ (((q >> 5u32) & 1) * (g << 5u32)) as u32
}

/// The two bits by which format information names a level.
pub open spec fn level_bits(level: EcLevel) -> int {
    match level {
        EcLevel::M => 0,
        EcLevel::L => 1,
        EcLevel::H => 2,
        EcLevel::Q => 3,
    }
}

proof fn lemma_format_multiple(d: u16) -> (q: u32)
    requires
        d < 32,
    ensures
        q < 32,
        ((d << 10u16) | format_register(d, 10)) as u32 == polynomial_product(q, 0x537),
        format_register(d, 10) < 1024,
{
    reveal_with_fuel(format_register, 11);
    let r1 = format_register(d, 1);
    let r2 = format_register(d, 2);
    let r3 = format_register(d, 3);
    let r4 = format_register(d, 4);
    let r5 = format_register(d, 5);
    let r6 = format_register(d, 6);
    let r7 = format_register(d, 7);
    let r8 = format_register(d, 8);
    let r9 = format_register(d, 9);
    let r = format_register(d, 10);
    let q: u32 = ((((r5 >> 9u16) & 1) << 4u16) | (((r6 >> 9u16) & 1) << 3u16) | (((r7 >> 9u16) & 1)
        << 2u16) | (((r8 >> 9u16) & 1) << 1u16) | ((r9 >> 9u16) & 1)) as u32;
    assert(r < 1024 && q < 32 && ((d << 10u16) | r) as u32 == polynomial_product(q, 0x537))
        by (bit_vector)
        requires
            d < 32,
            r1 == (d << 1u16) ^ ((d >> 9u16) * 0x537) as u16,
            r2 == (r1 << 1u16) ^ ((r1 >> 9u16) * 0x537) as u16,
            r3 == (r2 << 1u16) ^ ((r2 >> 9u16) * 0x537) as u16,
            r4 == (r3 << 1u16) ^ ((r3 >> 9u16) * 0x537) as u16,
            r5 == (r4 << 1u16) ^ ((r4 >> 9u16) * 0x537) as u16,
            r6 == (r5 << 1u16) ^ ((r5 >> 9u16) * 0x537) as u16,
            r7 == (r6 << 1u16) ^ ((r6 >> 9u16) * 0x537) as u16,
            r8 == (r7 << 1u16) ^ ((r7 >> 9u16) * 0x537) as u16,
            r9 == (r8 << 1u16) ^ ((r8 >> 9u16) * 0x537) as u16,
            r == (r9 << 1u16) ^ ((r9 >> 9u16) * 0x537) as u16,
            q == ((((r5 >> 9u16) & 1) << 4u16) | (((r6 >> 9u16) & 1) << 3u16) | (((r7 >> 9u16) & 1)
                << 2u16) | (((r8 >> 9u16) & 1) << 1u16) | ((r9 >> 9u16) & 1)) as u32,
    ;
    q
}

/// Under the fixed mask 101010000010010 a format word shows the two bits of the
/// level and the three of the data mask, and is a multiple of the polynomial with
/// the coefficients 10100110111.
pub proof fn format_words_are_multiples(level: EcLevel, mask: int)
    requires
        0 <= mask <= 7,
    ensures
        exists|q: u32|
            q < 32 && (format_word(level, mask) ^ 0b101010000010010) as u32 == #[trigger]
            polynomial_product(q, 0b10100110111),
        (format_word(level, mask) ^ 0b101010000010010) >> 10u16 == 8 * level_bits(level) + mask,
        format_word(level, mask) < 32768,
{
    let d = format_data(level, mask);
    format_word_shows_data(level, mask);
    let q = lemma_format_multiple(d);
    let r = format_register(d, 10);
    let w = format_word(level, mask);
    assert(w ^ 0x5412 == (d << 10u16) | r) by (bit_vector)
        requires
            w == ((d << 10u16) | r) ^ 0x5412,
    ;
    assert(polynomial_product(q, 0x537) == (w ^ 0x5412) as u32);
}

proof fn lemma_distance_unfolds(a: u32, b: u32)
    ensures
        bit_distance(a, b, 18) == bit_distance(a, b, 15) + (if has_bit(a, 15) != has_bit(b, 15) {
            1int
        } else {
            0
        }) + (if has_bit(a, 16) != has_bit(b, 16) {
            1int
        } else {
            0
        }) + (if has_bit(a, 17) != has_bit(b, 17) {
            1int
        } else {
            0
        }),
        bit_distance(a, b, 15) == fifteen_differences(a, b),
{
    reveal_with_fuel(bit_distance, 19);
}

spec fn difference(a: u32, b: u32, k: int) -> int {
    if has_bit(a, k) != has_bit(b, k) {
        1
    } else {
        0
    }
}

spec fn fifteen_differences(a: u32, b: u32) -> int {
    difference(a, b, 0) + difference(a, b, 1) + difference(a, b, 2) + difference(a, b, 3)
        + difference(a, b, 4) + difference(a, b, 5) + difference(a, b, 6) + difference(a, b, 7)
        + difference(a, b, 8) + difference(a, b, 9) + difference(a, b, 10) + difference(a, b, 11)
        + difference(a, b, 12) + difference(a, b, 13) + difference(a, b, 14)
}

proof fn lemma_weight(a: u32, b: u32, x: u32)
    requires
        x == a ^ b,
    ensures
        bit_distance(a, b, 15) == ((x >> 0u32) & 1) + ((x >> 1u32) & 1) + ((x >> 2u32) & 1) + ((x
            >> 3u32) & 1) + ((x >> 4u32) & 1) + ((x >> 5u32) & 1) + ((x >> 6u32) & 1) + ((x
            >> 7u32) & 1) + ((x >> 8u32) & 1) + ((x >> 9u32) & 1) + ((x >> 10u32) & 1) + ((x
            >> 11u32) & 1) + ((x >> 12u32) & 1) + ((x >> 13u32) & 1) + ((x >> 14u32) & 1),
        bit_distance(a, b, 18) == bit_distance(a, b, 15) + ((x >> 15u32) & 1) + ((x >> 16u32) & 1)
            + ((x >> 17u32) & 1),
{
    lemma_distance_unfolds(a, b);
    assert(forall|k: u32|
        (#[trigger] (x >> k) & 1 == 0 || (x >> k) & 1 == 1) && (((a >> k) & 1 != 0) != ((b >> k) & 1
            != 0) <==> (x >> k) & 1 == 1)) by (bit_vector)
        requires
            x == a ^ b,
    ;
    assert((x >> 0u32) & 1 == difference(a, b, 0));
    assert((x >> 1u32) & 1 == difference(a, b, 1));
    assert((x >> 2u32) & 1 == difference(a, b, 2));
    assert((x >> 3u32) & 1 == difference(a, b, 3));
    assert((x >> 4u32) & 1 == difference(a, b, 4));
    assert((x >> 5u32) & 1 == difference(a, b, 5));
    assert((x >> 6u32) & 1 == difference(a, b, 6));
    assert((x >> 7u32) & 1 == difference(a, b, 7));
    assert((x >> 8u32) & 1 == difference(a, b, 8));
    assert((x >> 9u32) & 1 == difference(a, b, 9));
    assert((x >> 10u32) & 1 == difference(a, b, 10));
    assert((x >> 11u32) & 1 == difference(a, b, 11));
    assert((x >> 12u32) & 1 == difference(a, b, 12));
    assert((x >> 13u32) & 1 == difference(a, b, 13));
    assert((x >> 14u32) & 1 == difference(a, b, 14));
    assert((x >> 15u32) & 1 == difference(a, b, 15));
    assert((x >> 16u32) & 1 == difference(a, b, 16));
    assert((x >> 17u32) & 1 == difference(a, b, 17));
}

/// Any two of the thirty-two format words differ in seven bits at least, so three
/// wrong bits never hide which one was meant.
pub proof fn format_words_are_far_apart(
    level: EcLevel,
    mask: int,
    other_level: EcLevel,
    other_mask: int,
)
    requires
        0 <= mask <= 7,
        0 <= other_mask <= 7,
        level != other_level || mask != other_mask,
    ensures
        bit_distance(
            format_word(level, mask) as u32,
            format_word(other_level, other_mask) as u32,
            15,
        ) >= 7,
{
    let d = format_data(level, mask);
    let e = format_data(other_level, other_mask);
    let q = lemma_format_multiple(d);
    let p = lemma_format_multiple(e);
    let r = format_register(d, 10);
    let s = format_register(e, 10);
    let a = format_word(level, mask) as u32;
    let b = format_word(other_level, other_mask) as u32;
    let x = a ^ b;
    let (v, w) = (format_word(level, mask), format_word(other_level, other_mask));
    lemma_weight(a, b, x);
    assert(d != e);
    assert(((x >> 0u32) & 1) + ((x >> 1u32) & 1) + ((x >> 2u32) & 1) + ((x >> 3u32) & 1) + ((x
        >> 4u32) & 1) + ((x >> 5u32) & 1) + ((x >> 6u32) & 1) + ((x >> 7u32) & 1) + ((x >> 8u32)
        & 1) + ((x >> 9u32) & 1) + ((x >> 10u32) & 1) + ((x >> 11u32) & 1) + ((x >> 12u32) & 1) + ((
    x >> 13u32) & 1) + ((x >> 14u32) & 1) >= 7) by (bit_vector)
        requires
            d < 32,
            e < 32,
            d != e,
            q < 32,
            p < 32,
            ((d << 10u16) | r) as u32 == polynomial_product(q, 0x537),
            ((e << 10u16) | s) as u32 == polynomial_product(p, 0x537),
            r < 1024,
            s < 1024,
            v == ((d << 10u16) | r) ^ 0x5412,
            w == ((e << 10u16) | s) ^ 0x5412,
            a == v as u32,
            b == w as u32,
            x == a ^ b,
    ;
}

proof fn lemma_version_multiple(d: u32) -> (q: u32)
    requires
        d < 64,
    ensures
        q < 64,
        (d << 12u32) | version_register(d, 12) == polynomial_product(q, 0x1f25),
        version_register(d, 12) < 4096,
{
    reveal_with_fuel(version_register, 13);
    let r1 = version_register(d, 1);
    let r2 = version_register(d, 2);
    let r3 = version_register(d, 3);
    let r4 = version_register(d, 4);
    let r5 = version_register(d, 5);
    let r6 = version_register(d, 6);
    let r7 = version_register(d, 7);
    let r8 = version_register(d, 8);
    let r9 = version_register(d, 9);
    let r10 = version_register(d, 10);
    let r11 = version_register(d, 11);
    let r = version_register(d, 12);
    let q: u32 = (((r6 >> 11u32) & 1) << 5u32) | (((r7 >> 11u32) & 1) << 4u32) | (((r8 >> 11u32)
        & 1) << 3u32) | (((r9 >> 11u32) & 1) << 2u32) | (((r10 >> 11u32) & 1) << 1u32) | ((r11
        >> 11u32) & 1);
    assert(r < 4096 && q < 64 && (d << 12u32) | r == polynomial_product(q, 0x1f25)) by (bit_vector)
        requires
            d < 64,
            r1 == (d << 1u32) ^ ((d >> 11u32) * 0x1f25) as u32,
            r2 == (r1 << 1u32) ^ ((r1 >> 11u32) * 0x1f25) as u32,
            r3 == (r2 << 1u32) ^ ((r2 >> 11u32) * 0x1f25) as u32,
            r4 == (r3 << 1u32) ^ ((r3 >> 11u32) * 0x1f25) as u32,
            r5 == (r4 << 1u32) ^ ((r4 >> 11u32) * 0x1f25) as u32,
            r6 == (r5 << 1u32) ^ ((r5 >> 11u32) * 0x1f25) as u32,
            r7 == (r6 << 1u32) ^ ((r6 >> 11u32) * 0x1f25) as u32,
            r8 == (r7 << 1u32) ^ ((r7 >> 11u32) * 0x1f25) as u32,
            r9 == (r8 << 1u32) ^ ((r8 >> 11u32) * 0x1f25) as u32,
            r10 == (r9 << 1u32) ^ ((r9 >> 11u32) * 0x1f25) as u32,
            r11 == (r10 << 1u32) ^ ((r10 >> 11u32) * 0x1f25) as u32,
            r == (r11 << 1u32) ^ ((r11 >> 11u32) * 0x1f25) as u32,
            q == (((r6 >> 11u32) & 1) << 5u32) | (((r7 >> 11u32) & 1) << 4u32) | (((r8 >> 11u32)
                & 1) << 3u32) | (((r9 >> 11u32) & 1) << 2u32) | (((r10 >> 11u32) & 1) << 1u32) | ((
            r11 >> 11u32) & 1),
    ;
    q
}

/// A version word shows the version in its upper six bits, and is a multiple of
/// the polynomial with the coefficients 1111100100101. Two version words differ in
/// eight bits at least.
pub proof fn version_words_are_far_apart(version: int, other: int)
    requires
        valid_version(version),
        valid_version(other),
        version != other,
    ensures
        version_word(version) >> 12u32 == version,
        exists|q: u32|
            q < 64 && version_word(version) == #[trigger] polynomial_product(q, 0b1111100100101),
        bit_distance(version_word(version), version_word(other), 18) >= 8,
{
    let d = version as u32;
    let e = other as u32;
    version_word_shows_version(version);
    let q = lemma_version_multiple(d);
    let p = lemma_version_multiple(e);
    assert(version_word(version) == polynomial_product(q, 0x1f25));
    let r = version_register(d, 12);
    let s = version_register(e, 12);
    let a = version_word(version);
    let b = version_word(other);
    let x = a ^ b;
    lemma_weight(a, b, x);
    assert(((x >> 0u32) & 1) + ((x >> 1u32) & 1) + ((x >> 2u32) & 1) + ((x >> 3u32) & 1) + ((x
        >> 4u32) & 1) + ((x >> 5u32) & 1) + ((x >> 6u32) & 1) + ((x >> 7u32) & 1) + ((x >> 8u32)
        & 1) + ((x >> 9u32) & 1) + ((x >> 10u32) & 1) + ((x >> 11u32) & 1) + ((x >> 12u32) & 1) + ((
    x >> 13u32) & 1) + ((x >> 14u32) & 1) + ((x >> 15u32) & 1) + ((x >> 16u32) & 1) + ((x >> 17u32)
        & 1) >= 8) by (bit_vector)
        requires
            d < 64,
            e < 64,
            d != e,
            q < 64,
            p < 64,
            (d << 12u32) | r == polynomial_product(q, 0x1f25),
            (e << 12u32) | s == polynomial_product(p, 0x1f25),
            r < 4096,
            s < 4096,
            a == (d << 12u32) | r,
            b == (e << 12u32) | s,
            x == a ^ b,
    ;
}

/// The eight data masks: a checkerboard, every other row, every third column,
/// diagonals in threes, a checkerboard of blocks three wide and two high, and three
/// patterns made of the product of column and row.
pub proof fn masks_have_their_patterns(x: int, y: int)
    requires
        0 <= x,
        0 <= y,
    ensures
        mask_inverts(0, x, y) <==> x % 2 == y % 2,
        mask_inverts(1, x, y) <==> y % 2 == 0,
        mask_inverts(2, x, y) <==> x % 3 == 0,
        mask_inverts(3, x, y) <==> (x % 3) + (y % 3) == 0 || (x % 3) + (y % 3) == 3,
        mask_inverts(4, x, y) <==> (x / 3) % 2 == (y / 2) % 2,
        mask_inverts(5, x, y) <==> (x * y) % 6 == 0,
        mask_inverts(6, x, y) <==> (x * y) % 6 < 3,
        mask_inverts(7, x, y) <==> (x % 2 == y % 2) == ((x * y) % 3 != 1),
{
    let product = x * y;
}

/// Whether a module of a finder pattern is dark, its separator included: the frame
/// and the core are.
pub open spec fn finder_is_dark(i: int, j: int) -> bool {
    &&& i < 7 && j < 7
    &&& i == 0 || i == 6 || j == 0 || j == 6 || (2 <= i <= 4 && 2 <= j <= 4)
}

proof fn lemma_position(version: int, i: int)
    requires
        valid_version(version),
        0 <= i < alignment_count(version),
    ensures
        alignment_position(version, i) % 2 == 0,
        i == 0 ==> alignment_position(version, i) == 6,
        i > 0 ==> alignment_position(version, i) >= 18,
        i < alignment_count(version) - 1 ==> alignment_position(version, i) <= symbol_side(version)
            - 19,
        i == alignment_count(version) - 1 ==> alignment_position(version, i) == symbol_side(
            version,
        ) - 7,
{
    let n = alignment_count(version);
    if i > 0 {
        alignment_positions_spread(version, 0, i);
        let k = n - 1 - i;
        let step = alignment_step(version);
        assert(step % 2 == 0);
        let half = step / 2;
        assert(k * step == 2 * (k * half)) by (nonlinear_arith)
            requires
                step == 2 * half,
        ;
    } else {
        alignment_positions_spread(version, 0, n - 1);
    }
    if i < n - 1 {
        alignment_positions_spread(version, i, n - 1);
    }
}

proof fn lemma_no_corner_alignment(version: int, x: int, y: int)
    requires
        valid_version(version),
        (x <= 8 && y <= 8) || (x >= symbol_side(version) - 8 && y <= 8) || (x <= 8 && y
            >= symbol_side(version) - 8),
    ensures
        alignment_module(version, x, y) is None,
{
    assert forall|c: int, r: int|
        alignment_centre(version, c, r) implies #[trigger] alignment_ring(version, x, y, c, r)
            > 2 by {
        lemma_position(version, c);
        lemma_position(version, r);
    }
}

/// A finder pattern stands in three corners of every symbol, and a light line
/// separates it from the rest.
pub proof fn finders_stand_in_three_corners(
    version: int,
    level: EcLevel,
    mask: int,
    i: int,
    j: int,
)
    requires
        valid_version(version),
        0 <= i < 8,
        0 <= j < 8,
    ensures
        ({
            let last = symbol_side(version) - 1;
            let dark = Some(finder_is_dark(i, j));
            &&& function_module(version, level, mask, i, j) == dark
            &&& function_module(version, level, mask, last - i, j) == dark
            &&& function_module(version, level, mask, i, last - j) == dark
        }),
{
    let last = symbol_side(version) - 1;
    lemma_no_corner_alignment(version, i, j);
    lemma_no_corner_alignment(version, last - i, j);
    lemma_no_corner_alignment(version, i, last - j);
}

/// Between the finders, row and column 6 alternate unbroken, dark at even places.
#[verifier::spinoff_prover]
#[verifier::rlimit(60)]
pub proof fn timing_alternates(version: int, level: EcLevel, mask: int, t: int)
    requires
        valid_version(version),
        8 <= t < symbol_side(version) - 8,
    ensures
        function_module(version, level, mask, t, 6) == Some(t % 2 == 0),
        function_module(version, level, mask, 6, t) == Some(t % 2 == 0),
{
    if alignment_module(version, t, 6) is Some {
        let (c, r) = choose|c: int, r: int|
            alignment_centre(version, c, r) && #[trigger] alignment_ring(version, t, 6, c, r) <= 2;
        lemma_position(version, c);
        lemma_position(version, r);
        assert(in_band(version, c, t) && in_band(version, r, 6));
        lemma_alignment_module(version, t, 6, c, r);
    }
    if alignment_module(version, 6, t) is Some {
        let (c, r) = choose|c: int, r: int|
            alignment_centre(version, c, r) && #[trigger] alignment_ring(version, 6, t, c, r) <= 2;
        lemma_position(version, c);
        lemma_position(version, r);
        assert(in_band(version, c, 6) && in_band(version, r, t));
        lemma_alignment_module(version, 6, t, c, r);
    }
}

/// An alignment pattern is a dark frame of five modules with a dark centre.
pub proof fn alignment_patterns_are_framed(
    version: int,
    level: EcLevel,
    mask: int,
    col: int,
    row: int,
    dx: int,
    dy: int,
)
    requires
        valid_version(version),
        alignment_centre(version, col, row),
        -2 <= dx <= 2,
        -2 <= dy <= 2,
    ensures
        function_module(
            version,
            level,
            mask,
            alignment_position(version, col) + dx,
            alignment_position(version, row) + dy,
        ) == Some(dx == -2 || dx == 2 || dy == -2 || dy == 2 || (dx == 0 && dy == 0)),
{
    let x = alignment_position(version, col) + dx;
    let y = alignment_position(version, row) + dy;
    lemma_position(version, col);
    lemma_position(version, row);
    assert(in_band(version, col, x) && in_band(version, row, y));
    lemma_alignment_module(version, x, y, col, row);
    assert(alignment_ring(version, x, y, col, row) == ring(dx, dy));
}

/// Every format bit stands twice: once around the upper left finder, where the
/// timing patterns are passed over, and once split between the two others. The
/// module above the lower left part is always dark.
pub proof fn format_bits_stand_twice(version: int, level: EcLevel, mask: int, k: int)
    requires
        valid_version(version),
        0 <= k < 15,
    ensures
        ({
            let side = symbol_side(version);
            let shown = Some((format_word(level, mask) >> k as u16) & 1 != 0);
            let first = if k < 6 {
                (8int, k)
            } else if k == 6 {
                (8, 7)
            } else if k == 7 {
                (8, 8)
            } else if k == 8 {
                (7, 8)
            } else {
                (14 - k, 8)
            };
            let second = if k < 8 {
                (side - 1 - k, 8int)
            } else {
                (8, side - 15 + k)
            };
            &&& function_module(version, level, mask, first.0, first.1) == shown
            &&& function_module(version, level, mask, second.0, second.1) == shown
            &&& function_module(version, level, mask, 8, side - 8) == Some(true)
        }),
{
}

/// From version 7 on every version bit stands twice, in two blocks that mirror
/// each other along the diagonal; smaller symbols have none.
pub proof fn version_bits_stand_twice(version: int, level: EcLevel, mask: int, k: int)
    requires
        valid_version(version),
        0 <= k < 18,
    ensures
        ({
            let along = symbol_side(version) - 11 + k % 3;
            let across = k / 3;
            &&& version >= 7 ==> function_module(version, level, mask, along, across) == Some(
                has_bit(version_word(version), k),
            ) && function_module(version, level, mask, across, along) == Some(
                has_bit(version_word(version), k),
            )
            &&& version < 7 ==> !is_function(version, along, across) && !is_function(
                version,
                across,
                along,
            )
        }),
{
    let along = symbol_side(version) - 11 + k % 3;
    let across = k / 3;
    if version < 7 {
        assert forall|c: int, r: int|
            alignment_centre(version, c, r) implies #[trigger] alignment_ring(
            version,
            along,
            across,
            c,
            r,
        ) > 2 && alignment_ring(version, across, along, c, r) > 2 by {
            lemma_position(version, c);
            lemma_position(version, r);
        }
        assert(alignment_module(version, along, across) is None);
        assert forall|c: int, r: int|
            alignment_centre(version, c, r) implies #[trigger] alignment_ring(
            version,
            across,
            along,
            c,
            r,
        ) > 2 by {
            lemma_position(version, c);
            lemma_position(version, r);
        }
        assert(alignment_module(version, across, along) is None);
    }
}

/// Which strip of two columns a column belongs to, counted from the right; the
/// timing column belongs to none.
pub open spec fn strip_of(version: int, x: int) -> int {
    if x > 6 {
        (symbol_side(version) - 1 - x) / 2
    } else {
        (symbol_side(version) - 2 - x) / 2
    }
}

/// Whether one module comes before another on the way through a symbol: strip by
/// strip from the right, upwards in the first and every other one and downwards
/// between, and in each row the right module first.
pub open spec fn passes_before(version: int, a: (u16, u16), b: (u16, u16)) -> bool {
    let (s, t) = (strip_of(version, a.0 as int), strip_of(version, b.0 as int));
    ||| s < t
    ||| s == t && s % 2 == 0 && a.1 > b.1
    ||| s == t && s % 2 == 1 && a.1 < b.1
    ||| s == t && a.1 == b.1 && a.0 > b.0
}

proof fn lemma_strip(version: int, k: int, m: int)
    requires
        valid_version(version),
        0 <= k < pair_count(version),
        0 <= m < 2 * symbol_side(version),
    ensures
        ({
            let (x, y) = pair_module(version, k, m);
            &&& 0 <= x < symbol_side(version)
            &&& 0 <= y < symbol_side(version)
            &&& strip_of(version, x) == k
        }),
{
}

proof fn lemma_pair_order(version: int, k: int, m: int)
    requires
        valid_version(version),
        0 <= k < pair_count(version),
        0 <= m <= 2 * symbol_side(version),
    ensures
        forall|i: int|
            0 <= i < pair_data(version, k, m).len() ==> is_pair_module(
                version,
                k,
                m,
                #[trigger] pair_data(version, k, m)[i],
            ),
        forall|i: int, j: int|
            0 <= i < j < pair_data(version, k, m).len() ==> passes_before(
                version,
                #[trigger] pair_data(version, k, m)[i],
                #[trigger] pair_data(version, k, m)[j],
            ),
    decreases m,
{
    if m > 0 {
        lemma_pair_order(version, k, m - 1);
        lemma_strip(version, k, m - 1);
        let before = pair_data(version, k, m - 1);
        let list = pair_data(version, k, m);
        let (x, y) = pair_module(version, k, m - 1);
        assert forall|i: int| 0 <= i < list.len() implies is_pair_module(
            version,
            k,
            m,
            #[trigger] list[i],
        ) by {
            if i < before.len() {
                assert(list[i] == before[i]);
                let s = choose|s: int|
                    0 <= s < m - 1 && #[trigger] pair_module(version, k, s) == (
                        before[i].0 as int,
                        before[i].1 as int,
                    );
                assert(pair_module(version, k, s) == (list[i].0 as int, list[i].1 as int));
            } else {
                assert(pair_module(version, k, m - 1) == (list[i].0 as int, list[i].1 as int));
            }
        }
        assert forall|i: int, j: int| 0 <= i < j < list.len() implies passes_before(
            version,
            #[trigger] list[i],
            #[trigger] list[j],
        ) by {
            assert(list[i] == before[i]);
            if j < before.len() {
                assert(list[j] == before[j]);
            } else {
                assert(is_pair_module(version, k, m - 1, before[i]));
                let s = choose|s: int|
                    0 <= s < m - 1 && #[trigger] pair_module(version, k, s) == (
                        before[i].0 as int,
                        before[i].1 as int,
                    );
                lemma_strip(version, k, s);
                assert(s / 2 < (m - 1) / 2 || (s / 2 == (m - 1) / 2 && s % 2 < (m - 1) % 2));
            }
        }
    }
}

spec fn is_pair_module(version: int, k: int, m: int, item: (u16, u16)) -> bool {
    exists|s: int|
        0 <= s < m && #[trigger] pair_module(version, k, s) == (item.0 as int, item.1 as int)
}

proof fn lemma_pairs_order(version: int, k: int)
    requires
        valid_version(version),
        0 <= k <= pair_count(version),
    ensures
        forall|i: int|
            0 <= i < pairs_data(version, k).len() ==> 0 <= strip_of(
                version,
                (#[trigger] pairs_data(version, k)[i]).0 as int,
            ) < k,
        forall|i: int, j: int|
            0 <= i < j < pairs_data(version, k).len() ==> passes_before(
                version,
                #[trigger] pairs_data(version, k)[i],
                #[trigger] pairs_data(version, k)[j],
            ),
    decreases k,
{
    if k > 0 {
        lemma_pairs_order(version, k - 1);
        let side = symbol_side(version);
        lemma_pair_order(version, k - 1, 2 * side);
        let before = pairs_data(version, k - 1);
        let strip = pair_data(version, k - 1, 2 * side);
        let list = pairs_data(version, k);
        assert forall|i: int| 0 <= i < strip.len() implies strip_of(
            version,
            (#[trigger] strip[i]).0 as int,
        ) == k - 1 by {
            assert(is_pair_module(version, k - 1, 2 * side, strip[i]));
            let s = choose|s: int|
                0 <= s < 2 * side && #[trigger] pair_module(version, k - 1, s) == (
                    strip[i].0 as int,
                    strip[i].1 as int,
                );
            lemma_strip(version, k - 1, s);
        }
        assert forall|i: int| 0 <= i < list.len() implies 0 <= strip_of(
            version,
            (#[trigger] list[i]).0 as int,
        ) < k by {
            if i < before.len() {
                assert(list[i] == before[i]);
            } else {
                assert(list[i] == strip[i - before.len()]);
            }
        }
        assert forall|i: int, j: int| 0 <= i < j < list.len() implies passes_before(
            version,
            #[trigger] list[i],
            #[trigger] list[j],
        ) by {
            if j < before.len() {
                assert(list[i] == before[i] && list[j] == before[j]);
            } else if i < before.len() {
                assert(list[i] == before[i] && list[j] == strip[j - before.len()]);
            } else {
                assert(list[i] == strip[i - before.len()] && list[j] == strip[j - before.len()]);
            }
        }
    }
}

/// Codeword bits run through a symbol in strips of two columns from the right,
/// up and down in turn, the right module of each row first.
pub proof fn bits_run_in_strips(version: int, i: int, j: int)
    requires
        valid_version(version),
        0 <= i < j < coordinates(version).len(),
    ensures
        passes_before(version, coordinates(version)[i], coordinates(version)[j]),
{
    lemma_pairs_order(version, pair_count(version));
}

/// A data module is dark exactly if its codeword bit is set and the mask leaves it
/// alone, or the bit is not set and the mask inverts it.
pub proof fn data_modules_show_masked_bits(
    codewords: Seq<u8>,
    version: int,
    level: EcLevel,
    mask: int,
    i: int,
)
    requires
        valid_version(version),
        codewords.len() == total_codewords(version),
        0 <= i < 8 * codewords.len(),
    ensures
        ({
            let (x, y) = coordinates(version)[i];
            let module = symbol_matrix(codewords, version, level, mask)[y * symbol_side(version)
                + x];
            &&& module == 0 || module == 1
            &&& bit_at(codewords, i) ==> (module == 1 <==> !mask_inverts(mask, x as int, y as int))
            &&& !bit_at(codewords, i) ==> (module == 1 <==> mask_inverts(mask, x as int, y as int))
        }),
{
    coordinates_fill_capacity(version);
    lemma_coordinate_cell(version, i);
    let c = coordinates(version)[i];
    lemma_function_map(version, level, mask, c.0 as int, c.1 as int);
}

/// Whether one codeword of the blocks comes before another in the stream: data
/// before error correction, in either part the ones with the lower index, and of
/// those with one index the ones of the earlier block.
pub open spec fn streams_before(
    specs: Seq<BlockSpec>,
    a: (usize, usize),
    b: (usize, usize),
) -> bool {
    let (m, n) = (specs[a.0 as int].data_codewords, specs[b.0 as int].data_codewords);
    ||| a.1 < m && b.1 >= n
    ||| a.1 < m && b.1 < n && (a.1 < b.1 || (a.1 == b.1 && a.0 < b.0))
    ||| a.1 >= m && b.1 >= n && (a.1 - m < b.1 - n || (a.1 - m == b.1 - n && a.0 < b.0))
}

proof fn lemma_data_row_order(specs: Seq<BlockSpec>, d: int, n: int)
    requires
        regular(specs),
        0 <= d <= 255,
        0 <= n <= specs.len(),
    ensures
        forall|k: int|
            0 <= k < data_row(specs, d, n).len() ==> (#[trigger] data_row(specs, d, n)[k]).0 < n
                && data_row(specs, d, n)[k].1 == d && d < specs[data_row(
                specs,
                d,
                n,
            )[k].0 as int].data_codewords,
        forall|i: int, j: int|
            0 <= i < j < data_row(specs, d, n).len() ==> (#[trigger] data_row(specs, d, n)[i]).0
                < (#[trigger] data_row(specs, d, n)[j]).0,
    decreases n,
{
    if n > 0 {
        lemma_data_row_order(specs, d, n - 1);
        let before = data_row(specs, d, n - 1);
        let row = data_row(specs, d, n);
        assert forall|k: int| 0 <= k < row.len() implies (#[trigger] row[k]).0 < n && row[k].1 == d
            && d < specs[row[k].0 as int].data_codewords by {
            if k < before.len() {
                assert(row[k] == before[k]);
            }
        }
        assert forall|i: int, j: int| 0 <= i < j < row.len() implies (#[trigger] row[i]).0 < (
        #[trigger] row[j]).0 by {
            assert(row[i] == before[i]);
            if j < before.len() {
                assert(row[j] == before[j]);
            }
        }
    }
}

proof fn lemma_ecc_row_order(specs: Seq<BlockSpec>, e: int, n: int)
    requires
        regular(specs),
        0 <= e <= 255,
        0 <= n <= specs.len(),
    ensures
        ecc_row(specs, e, n).len() == n,
        forall|k: int|
            0 <= k < n ==> #[trigger] ecc_row(specs, e, n)[k] == (
                k as usize,
                (specs[k].data_codewords + e) as usize,
            ),
    decreases n,
{
    if n > 0 {
        lemma_ecc_row_order(specs, e, n - 1);
    }
}

proof fn lemma_data_slots_order(specs: Seq<BlockSpec>, d: int)
    requires
        regular(specs),
        0 <= d <= 255,
    ensures
        forall|k: int|
            0 <= k < data_slots(specs, d).len() ==> (#[trigger] data_slots(specs, d)[k]).0
                < specs.len() && data_slots(specs, d)[k].1 < d && data_slots(specs, d)[k].1
                < specs[data_slots(specs, d)[k].0 as int].data_codewords,
        forall|i: int, j: int|
            0 <= i < j < data_slots(specs, d).len() ==> streams_before(
                specs,
                #[trigger] data_slots(specs, d)[i],
                #[trigger] data_slots(specs, d)[j],
            ),
    decreases d,
{
    if d > 0 {
        let n = specs.len() as int;
        lemma_data_slots_order(specs, d - 1);
        lemma_data_row_order(specs, d - 1, n);
        let before = data_slots(specs, d - 1);
        let row = data_row(specs, d - 1, n);
        let list = data_slots(specs, d);
        assert forall|k: int| 0 <= k < list.len() implies (#[trigger] list[k]).0 < specs.len()
            && list[k].1 < d && list[k].1 < specs[list[k].0 as int].data_codewords by {
            if k < before.len() {
                assert(list[k] == before[k]);
            } else {
                assert(list[k] == row[k - before.len()]);
            }
        }
        assert forall|i: int, j: int| 0 <= i < j < list.len() implies streams_before(
            specs,
            #[trigger] list[i],
            #[trigger] list[j],
        ) by {
            if j < before.len() {
                assert(list[i] == before[i] && list[j] == before[j]);
            } else if i < before.len() {
                assert(list[i] == before[i] && list[j] == row[j - before.len()]);
            } else {
                assert(list[i] == row[i - before.len()] && list[j] == row[j - before.len()]);
            }
        }
    }
}

proof fn lemma_ecc_slots_order(specs: Seq<BlockSpec>, e: int)
    requires
        regular(specs),
        0 <= e <= specs[0].ecc_codewords,
    ensures
        forall|k: int|
            0 <= k < ecc_slots(specs, e).len() ==> (#[trigger] ecc_slots(specs, e)[k]).0
                < specs.len() && specs[ecc_slots(specs, e)[k].0 as int].data_codewords
                <= ecc_slots(specs, e)[k].1 < specs[ecc_slots(
                specs,
                e,
            )[k].0 as int].data_codewords + e,
        forall|i: int, j: int|
            0 <= i < j < ecc_slots(specs, e).len() ==> streams_before(
                specs,
                #[trigger] ecc_slots(specs, e)[i],
                #[trigger] ecc_slots(specs, e)[j],
            ),
    decreases e,
{
    if e > 0 {
        let n = specs.len() as int;
        lemma_ecc_slots_order(specs, e - 1);
        lemma_ecc_row_order(specs, e - 1, n);
        let before = ecc_slots(specs, e - 1);
        let row = ecc_row(specs, e - 1, n);
        let list = ecc_slots(specs, e);
        assert forall|k: int| 0 <= k < list.len() implies (#[trigger] list[k]).0 < specs.len()
            && specs[list[k].0 as int].data_codewords <= list[k].1
            < specs[list[k].0 as int].data_codewords + e by {
            if k < before.len() {
                assert(list[k] == before[k]);
            } else {
                assert(list[k] == row[k - before.len()]);
            }
        }
        assert forall|i: int, j: int| 0 <= i < j < list.len() implies streams_before(
            specs,
            #[trigger] list[i],
            #[trigger] list[j],
        ) by {
            if j < before.len() {
                assert(list[i] == before[i] && list[j] == before[j]);
            } else if i < before.len() {
                assert(list[i] == before[i] && list[j] == row[j - before.len()]);
            } else {
                assert(list[i] == row[i - before.len()] && list[j] == row[j - before.len()]);
            }
        }
    }
}

/// The stream takes the codewords of the blocks in turn: the first data codeword of
/// every block, the second of every block and so on, then the error-correction
/// codewords in the same way.
pub proof fn streams_take_blocks_in_turn(specs: Seq<BlockSpec>, i: int, j: int)
    requires
        regular(specs),
        0 <= i < j < slots(specs).len(),
    ensures
        streams_before(specs, slots(specs)[i], slots(specs)[j]),
{
    let n = specs.len() as int;
    lemma_max_data_bound(specs, n);
    let data = data_slots(specs, max_data(specs, n));
    let ecc = ecc_slots(specs, specs[0].ecc_codewords as int);
    let list = slots(specs);
    lemma_data_slots_order(specs, max_data(specs, n));
    lemma_ecc_slots_order(specs, specs[0].ecc_codewords as int);
    if j < data.len() {
        assert(list[i] == data[i] && list[j] == data[j]);
    } else if i < data.len() {
        assert(list[i] == data[i] && list[j] == ecc[j - data.len()]);
    } else {
        assert(list[i] == ecc[i - data.len()] && list[j] == ecc[j - data.len()]);
    }
}

proof fn lemma_max_data_bound(specs: Seq<BlockSpec>, n: int)
    requires
        regular(specs),
        0 <= n <= specs.len(),
    ensures
        0 <= max_data(specs, n) <= 255,
    decreases n,
{
    if n > 0 {
        lemma_max_data_bound(specs, n - 1);
    }
}

/// The codeword that stands at a place of the stream is that of its block and
/// index.
pub proof fn streams_show_their_blocks(blocks: Seq<Seq<u8>>, specs: Seq<BlockSpec>, k: int)
    requires
        0 <= k < slots(specs).len(),
    ensures
        interleaved(blocks, specs).len() == slots(specs).len(),
        interleaved(blocks, specs)[k] == blocks[slots(specs)[k].0 as int][slots(
            specs,
        )[k].1 as int],
{
}

/// Whether the error-correction codewords of a version are the share of all
/// codewords that their level promises.
pub open spec fn protects_as_promised(version: int) -> bool {
    let whole = total_codewords(version);
    let low = block_count(version, EcLevel::L) * block_ecc(version, EcLevel::L);
    let medium = block_count(version, EcLevel::M) * block_ecc(version, EcLevel::M);
    let quartile = block_count(version, EcLevel::Q) * block_ecc(version, EcLevel::Q);
    let high = block_count(version, EcLevel::H) * block_ecc(version, EcLevel::H);
    &&& 19 * whole <= 100 * low <= 27 * whole
    &&& 35 * whole <= 100 * medium <= 39 * whole
    &&& 50 * whole <= 100 * quartile <= 56 * whole
    &&& 62 * whole <= 100 * high <= 67 * whole
}

/// In every version about a fifth of the codewords is for error correction at the
/// lowest level, three eighths at the next, a good half and two thirds at the
/// highest ones.
pub proof fn levels_protect_as_promised(version: int)
    requires
        valid_version(version),
    ensures
        protects_as_promised(version),
{
    assert(protects_as_promised(1)) by (nonlinear_arith);
    assert(protects_as_promised(2)) by (nonlinear_arith);
    assert(protects_as_promised(3)) by (nonlinear_arith);
    assert(protects_as_promised(4)) by (nonlinear_arith);
    assert(protects_as_promised(5)) by (nonlinear_arith);
    assert(protects_as_promised(6)) by (nonlinear_arith);
    assert(protects_as_promised(7)) by (nonlinear_arith);
    assert(protects_as_promised(8)) by (nonlinear_arith);
    assert(protects_as_promised(9)) by (nonlinear_arith);
    assert(protects_as_promised(10)) by (nonlinear_arith);
    assert(protects_as_promised(11)) by (nonlinear_arith);
    assert(protects_as_promised(12)) by (nonlinear_arith);
    assert(protects_as_promised(13)) by (nonlinear_arith);
    assert(protects_as_promised(14)) by (nonlinear_arith);
    assert(protects_as_promised(15)) by (nonlinear_arith);
    assert(protects_as_promised(16)) by (nonlinear_arith);
    assert(protects_as_promised(17)) by (nonlinear_arith);
    assert(protects_as_promised(18)) by (nonlinear_arith);
    assert(protects_as_promised(19)) by (nonlinear_arith);
    assert(protects_as_promised(20)) by (nonlinear_arith);
    assert(protects_as_promised(21)) by (nonlinear_arith);
    assert(protects_as_promised(22)) by (nonlinear_arith);
    assert(protects_as_promised(23)) by (nonlinear_arith);
    assert(protects_as_promised(24)) by (nonlinear_arith);
    assert(protects_as_promised(25)) by (nonlinear_arith);
    assert(protects_as_promised(26)) by (nonlinear_arith);
    assert(protects_as_promised(27)) by (nonlinear_arith);
    assert(protects_as_promised(28)) by (nonlinear_arith);
    assert(protects_as_promised(29)) by (nonlinear_arith);
    assert(protects_as_promised(30)) by (nonlinear_arith);
    assert(protects_as_promised(31)) by (nonlinear_arith);
    assert(protects_as_promised(32)) by (nonlinear_arith);
    assert(protects_as_promised(33)) by (nonlinear_arith);
    assert(protects_as_promised(34)) by (nonlinear_arith);
    assert(protects_as_promised(35)) by (nonlinear_arith);
    assert(protects_as_promised(36)) by (nonlinear_arith);
    assert(protects_as_promised(37)) by (nonlinear_arith);
    assert(protects_as_promised(38)) by (nonlinear_arith);
    assert(protects_as_promised(39)) by (nonlinear_arith);
    assert(protects_as_promised(40)) by (nonlinear_arith);
}

/// The data codewords that a symbol of each version is listed with, from the lowest
/// level to the highest.
pub open spec fn listed_data(version: int) -> (int, int, int, int) {
    if version == 1 {
        (19int, 16int, 13int, 9int)
    } else if version == 2 {
        (34int, 28int, 22int, 16int)
    } else if version == 3 {
        (55int, 44int, 34int, 26int)
    } else if version == 4 {
        (80int, 64int, 48int, 36int)
    } else if version == 5 {
        (108int, 86int, 62int, 46int)
    } else if version == 6 {
        (136int, 108int, 76int, 60int)
    } else if version == 7 {
        (156int, 124int, 88int, 66int)
    } else if version == 8 {
        (194int, 154int, 110int, 86int)
    } else if version == 9 {
        (232int, 182int, 132int, 100int)
    } else if version == 10 {
        (274int, 216int, 154int, 122int)
    } else if version == 11 {
        (324int, 254int, 180int, 140int)
    } else if version == 12 {
        (370int, 290int, 206int, 158int)
    } else if version == 13 {
        (428int, 334int, 244int, 180int)
    } else if version == 14 {
        (461int, 365int, 261int, 197int)
    } else if version == 15 {
        (523int, 415int, 295int, 223int)
    } else if version == 16 {
        (589int, 453int, 325int, 253int)
    } else if version == 17 {
        (647int, 507int, 367int, 283int)
    } else if version == 18 {
        (721int, 563int, 397int, 313int)
    } else if version == 19 {
        (795int, 627int, 445int, 341int)
    } else if version == 20 {
        (861int, 669int, 485int, 385int)
    } else if version == 21 {
        (932int, 714int, 512int, 406int)
    } else if version == 22 {
        (1006int, 782int, 568int, 442int)
    } else if version == 23 {
        (1094int, 860int, 614int, 464int)
    } else if version == 24 {
        (1174int, 914int, 664int, 514int)
    } else if version == 25 {
        (1276int, 1000int, 718int, 538int)
    } else if version == 26 {
        (1370int, 1062int, 754int, 596int)
    } else if version == 27 {
        (1468int, 1128int, 808int, 628int)
    } else if version == 28 {
        (1531int, 1193int, 871int, 661int)
    } else if version == 29 {
        (1631int, 1267int, 911int, 701int)
    } else if version == 30 {
        (1735int, 1373int, 985int, 745int)
    } else if version == 31 {
        (1843int, 1455int, 1033int, 793int)
    } else if version == 32 {
        (1955int, 1541int, 1115int, 845int)
    } else if version == 33 {
        (2071int, 1631int, 1171int, 901int)
    } else if version == 34 {
        (2191int, 1725int, 1231int, 961int)
    } else if version == 35 {
        (2306int, 1812int, 1286int, 986int)
    } else if version == 36 {
        (2434int, 1914int, 1354int, 1054int)
    } else if version == 37 {
        (2566int, 1992int, 1426int, 1096int)
    } else if version == 38 {
        (2702int, 2102int, 1502int, 1142int)
    } else if version == 39 {
        (2812int, 2216int, 1582int, 1222int)
    } else {
        (2956int, 2334int, 1666int, 1276int)
    }
}

/// The codewords that a layout leaves for data.
pub open spec fn data_capacity(version: int, level: EcLevel) -> int {
    total_codewords(version) - block_count(version, level) * block_ecc(version, level)
}

/// Whether a version holds the data that it is listed with.
pub open spec fn holds_what_is_listed(version: int) -> bool {
    &&& data_capacity(version, EcLevel::L) == listed_data(version).0
    &&& data_capacity(version, EcLevel::M) == listed_data(version).1
    &&& data_capacity(version, EcLevel::Q) == listed_data(version).2
    &&& data_capacity(version, EcLevel::H) == listed_data(version).3
}

/// Symbols hold the data codewords that their version and level are listed with.
pub proof fn symbols_hold_what_is_listed(version: int)
    requires
        valid_version(version),
    ensures
        holds_what_is_listed(version),
{
    assert(holds_what_is_listed(1)) by (nonlinear_arith);
    assert(holds_what_is_listed(2)) by (nonlinear_arith);
    assert(holds_what_is_listed(3)) by (nonlinear_arith);
    assert(holds_what_is_listed(4)) by (nonlinear_arith);
    assert(holds_what_is_listed(5)) by (nonlinear_arith);
    assert(holds_what_is_listed(6)) by (nonlinear_arith);
    assert(holds_what_is_listed(7)) by (nonlinear_arith);
    assert(holds_what_is_listed(8)) by (nonlinear_arith);
    assert(holds_what_is_listed(9)) by (nonlinear_arith);
    assert(holds_what_is_listed(10)) by (nonlinear_arith);
    assert(holds_what_is_listed(11)) by (nonlinear_arith);
    assert(holds_what_is_listed(12)) by (nonlinear_arith);
    assert(holds_what_is_listed(13)) by (nonlinear_arith);
    assert(holds_what_is_listed(14)) by (nonlinear_arith);
    assert(holds_what_is_listed(15)) by (nonlinear_arith);
    assert(holds_what_is_listed(16)) by (nonlinear_arith);
    assert(holds_what_is_listed(17)) by (nonlinear_arith);
    assert(holds_what_is_listed(18)) by (nonlinear_arith);
    assert(holds_what_is_listed(19)) by (nonlinear_arith);
    assert(holds_what_is_listed(20)) by (nonlinear_arith);
    assert(holds_what_is_listed(21)) by (nonlinear_arith);
    assert(holds_what_is_listed(22)) by (nonlinear_arith);
    assert(holds_what_is_listed(23)) by (nonlinear_arith);
    assert(holds_what_is_listed(24)) by (nonlinear_arith);
    assert(holds_what_is_listed(25)) by (nonlinear_arith);
    assert(holds_what_is_listed(26)) by (nonlinear_arith);
    assert(holds_what_is_listed(27)) by (nonlinear_arith);
    assert(holds_what_is_listed(28)) by (nonlinear_arith);
    assert(holds_what_is_listed(29)) by (nonlinear_arith);
    assert(holds_what_is_listed(30)) by (nonlinear_arith);
    assert(holds_what_is_listed(31)) by (nonlinear_arith);
    assert(holds_what_is_listed(32)) by (nonlinear_arith);
    assert(holds_what_is_listed(33)) by (nonlinear_arith);
    assert(holds_what_is_listed(34)) by (nonlinear_arith);
    assert(holds_what_is_listed(35)) by (nonlinear_arith);
    assert(holds_what_is_listed(36)) by (nonlinear_arith);
    assert(holds_what_is_listed(37)) by (nonlinear_arith);
    assert(holds_what_is_listed(38)) by (nonlinear_arith);
    assert(holds_what_is_listed(39)) by (nonlinear_arith);
    assert(holds_what_is_listed(40)) by (nonlinear_arith);
}

/// Alignment patterns stand in even distances. All but the first distance are the
/// same, the smallest even one that reaches from the first row to the last in as
/// many steps; version 32 alone has one that is too small by a step of two.
pub proof fn alignment_patterns_are_spread_evenly(version: int, i: int)
    requires
        2 <= version <= 40,
        1 <= i < alignment_count(version) - 1,
    ensures
        ({
            let n = alignment_count(version);
            let gap = alignment_position(version, n - 1) - alignment_position(version, n - 2);
            let whole = alignment_position(version, n - 1) - alignment_position(version, 0);
            &&& alignment_position(version, i + 1) - alignment_position(version, i) == gap
            &&& gap % 2 == 0
            &&& version != 32 ==> (n - 1) * (gap - 2) < whole <= (n - 1) * gap
            &&& version == 32 ==> gap == 26
        }),
{
    let n = alignment_count(version);
    let step = alignment_step(version);
    assert((n - 1 - i) * step == (n - 1 - (i + 1)) * step + step) by (nonlinear_arith);
    assert((n - 1 - (n - 1)) * step == 0) by (nonlinear_arith);
    assert((n - 1 - (n - 2)) * step == step) by (nonlinear_arith);
    if version != 32 {
        let q = (version * 4 + n * 2 + 1) / (n * 2 - 2);
        assert(step == q * 2);
        vstd::arithmetic::div_mod::lemma_fundamental_div_mod(version * 4 + n * 2 + 1, n * 2 - 2);
        vstd::arithmetic::div_mod::lemma_mod_bound(version * 4 + n * 2 + 1, n * 2 - 2);
        assert((n - 1) * step == (n * 2 - 2) * q) by (nonlinear_arith)
            requires
                step == q * 2,
        ;
        assert((n - 1) * (step - 2) == (n - 1) * step - (n - 1) * 2) by (nonlinear_arith);
    }
}

/// A codeword bit is as reliable as the module that shows it, and never more than
/// fully.
pub proof fn reliabilities_follow_their_modules(confidence: Seq<u32>, version: int, i: int)
    requires
        valid_version(version),
        0 <= i < 8 * total_codewords(version),
    ensures
        ({
            let (x, y) = coordinates(version)[i];
            let of_module = confidence[y * symbol_side(version) + x];
            let shown = shown_reliability(confidence, version)[i];
            &&& shown <= 1_073_741_824
            &&& of_module <= 1_073_741_824 ==> shown == of_module
            &&& of_module > 1_073_741_824 ==> shown == 1_073_741_824
        }),
{
}

} // verus!
