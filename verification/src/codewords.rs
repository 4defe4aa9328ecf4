//! Codewords in a symbol: reading them out of a module matrix and drawing them.

use vstd::arithmetic::power2::lemma2_to64;
use vstd::prelude::*;

use crate::bits::{
    bit_at, bit_is_set, bit_of, bits_value, byte_bits, lemma_bits_value_bound, lemma_byte_bits,
};
use crate::error::QrError;
use crate::function_pattern::{
    check_symbol, function_matrix, function_matrix_of, function_module, is_function, lemma_cell,
    lemma_function_map, symbol_refusal,
};
use crate::layout::{
    level_named, raw_codewords, raw_data_modules, symbol_side, symbol_size_native, total_codewords,
    valid_version, EcLevel,
};
use crate::mask::{mask_applies_native, mask_inverts};
use crate::traversal::{
    coordinates, coordinates_complete, coordinates_distinct, coordinates_fill_capacity,
    coordinates_of,
};

verus! {

/// Full reliability. A reliability counts units of 2^-30 and never exceeds
/// this, which stands for 1.
pub const FULL_RELIABILITY: u32 = 1073741824;

/// Codewords read from a symbol, with one reliability per bit.
#[derive(Debug)]
pub struct ExtractedCodewords {
    pub codewords: Vec<u8>,
    pub bit_reliability: Vec<u32>,
}

/// Where a traversed module lies in a module matrix.
pub open spec fn cell_of(version: int, coordinate: (u16, u16)) -> int {
    coordinate.1 * symbol_side(version) + coordinate.0
}

/// The `i`-th codeword bit that a module matrix shows.
pub open spec fn shown_bit(modules: Seq<u8>, version: int, mask: int, i: int) -> bool {
    let coordinate = coordinates(version)[i];
    (modules[cell_of(version, coordinate)] != 0) != mask_inverts(
        mask,
        coordinate.0 as int,
        coordinate.1 as int,
    )
}

/// All codeword bits that a module matrix shows, the remainder bits left out.
pub open spec fn shown_bits(modules: Seq<u8>, version: int, mask: int) -> Seq<bool> {
    Seq::new((8 * total_codewords(version)) as nat, |i: int| shown_bit(modules, version, mask, i))
}

/// The codewords that a module matrix shows.
pub open spec fn shown_codewords(modules: Seq<u8>, version: int, mask: int) -> Seq<u8> {
    Seq::new(
        total_codewords(version) as nat,
        |j: int|
            bits_value(shown_bits(modules, version, mask).subrange(8 * j, 8 * j + 8)) as u8,
    )
}

/// The reliabilities of the codeword bits, none above full.
pub open spec fn shown_reliability(confidence: Seq<u32>, version: int) -> Seq<u32> {
    Seq::new(
        (8 * total_codewords(version)) as nat,
        |i: int|
            {
                let value = confidence[cell_of(version, coordinates(version)[i])];
                if value <= FULL_RELIABILITY {
                    value
                } else {
                    FULL_RELIABILITY
                }
            },
    )
}

/// The codeword bit that the `i`-th data module takes; remainder modules take
/// zero.
pub open spec fn drawn_bit(codewords: Seq<u8>, i: int) -> bool {
    i < 8 * codewords.len() && bit_at(codewords, i)
}

/// The symbol that shows `codewords` under the given level and mask.
pub open spec fn symbol_matrix(
    codewords: Seq<u8>,
    version: int,
    level: EcLevel,
    mask: int,
) -> Seq<u8> {
    let side = symbol_side(version);
    Seq::new(
        (side * side) as nat,
        |k: int|
            {
                let (x, y) = (k % side, k / side);
                let dark = match function_module(version, level, mask, x, y) {
                    Some(dark) => dark,
                    None => drawn_bit(
                        codewords,
                        coordinates(version).index_of((x as u16, y as u16)),
                    ) != mask_inverts(mask, x, y),
                };
                if dark {
                    1u8
                } else {
                    0
                }
            },
    )
}

pub(crate) proof fn lemma_coordinate_cell(version: int, i: int)
    requires
        valid_version(version),
        0 <= i < coordinates(version).len(),
    ensures
        ({
            let side = symbol_side(version);
            let c = coordinates(version)[i];
            &&& 0 <= c.1 * side <= cell_of(version, c) < side * side
            &&& cell_of(version, c) % side == c.0
            &&& cell_of(version, c) / side == c.1
            &&& !is_function(version, c.0 as int, c.1 as int)
            &&& coordinates(version).index_of(c) == i
            &&& side * side <= 177 * 177
        }),
{
    coordinates_distinct(version);
    let side = symbol_side(version);
    let c = coordinates(version)[i];
    assert(crate::traversal::at(c) == (c.0 as int, c.1 as int));
    lemma_cell(side, c.0 as int, c.1 as int);
    assert(0 <= c.1 * side) by (nonlinear_arith)
        requires
            0 <= c.1,
            0 <= side,
    ;
    assert(side * side <= 177 * 177) by (nonlinear_arith)
        requires
            0 <= side <= 177,
    ;
    assert(coordinates(version).contains(c));
    let j = coordinates(version).index_of(c);
    assert(coordinates(version)[j] == c && 0 <= j < coordinates(version).len());
}

/// Drawing codewords and reading them back gives the codewords, for every
/// version, level and mask.
pub proof fn reading_undoes_drawing(codewords: Seq<u8>, version: int, level: EcLevel, mask: int)
    requires
        valid_version(version),
        codewords.len() == total_codewords(version),
    ensures
        shown_codewords(symbol_matrix(codewords, version, level, mask), version, mask)
            == codewords,
{
    let matrix = symbol_matrix(codewords, version, level, mask);
    let bits = shown_bits(matrix, version, mask);
    coordinates_fill_capacity(version);
    assert forall|i: int| 0 <= i < bits.len() implies bits[i] == bit_at(codewords, i) by {
        lemma_coordinate_cell(version, i);
        let c = coordinates(version)[i];
        lemma_function_map(version, level, mask, c.0 as int, c.1 as int);
    }
    let shown = shown_codewords(matrix, version, mask);
    assert forall|j: int| 0 <= j < codewords.len() implies shown[j] == codewords[j] by {
        let part = bits.subrange(8 * j, 8 * j + 8);
        assert forall|b: int| 0 <= b < 8 implies part[b] == bit_of(codewords[j], b) by {
            assert((8 * j + b) / 8 == j && (8 * j + b) % 8 == b);
        }
        assert(part =~= byte_bits(codewords[j]));
        lemma_byte_bits(codewords[j]);
    }
    assert(shown =~= codewords);
}

/// A drawn symbol shows every function module of its version, level and mask.
pub proof fn drawing_keeps_functions(
    codewords: Seq<u8>,
    version: int,
    level: EcLevel,
    mask: int,
    x: int,
    y: int,
)
    requires
        valid_version(version),
        0 <= x < symbol_side(version),
        0 <= y < symbol_side(version),
        is_function(version, x, y),
    ensures
        symbol_matrix(codewords, version, level, mask)[y * symbol_side(version) + x]
            == function_matrix(version, level, mask)[y * symbol_side(version) + x],
{
    lemma_cell(symbol_side(version), x, y);
    lemma_function_map(version, level, mask, x, y);
}

pub(crate) fn extract_codewords_of(
    modules: &[u8],
    confidence: &[u32],
    version: u8,
    level: EcLevel,
    mask: u8,
) -> (extracted: ExtractedCodewords)
    requires
        valid_version(version as int),
        mask <= 7,
        modules@.len() == symbol_side(version as int) * symbol_side(version as int),
        confidence@.len() == modules@.len(),
    ensures
        extracted.codewords@ == shown_codewords(modules@, version as int, mask as int),
        extracted.bit_reliability@ == shown_reliability(confidence@, version as int),
{
    let ghost v = version as int;
    let side: usize = match symbol_size_native(version) {
        Ok(size) => size as usize,
        Err(_) => 0,
    };
    let total: usize = raw_codewords(version);
    let (_, functions) = function_matrix_of(version, level, mask);
    let list: Vec<(u16, u16)> = coordinates_of(version, &functions);
    let ghost bits = shown_bits(modules@, v, mask as int);
    let mut codewords: Vec<u8> = Vec::new();
    let mut reliability: Vec<u32> = Vec::new();
    let mut j: usize = 0;
    proof {
        coordinates_fill_capacity(v);
    }
    while j < total
        invariant
            v == version,
            valid_version(v),
            mask <= 7,
            side == symbol_side(v),
            modules@.len() == side * side,
            confidence@.len() == modules@.len(),
            total == total_codewords(v),
            total <= 3706,
            list@ == coordinates(v),
            8 * total <= list@.len(),
            bits == shown_bits(modules@, v, mask as int),
            j <= total,
            codewords@ == shown_codewords(modules@, v, mask as int).take(j as int),
            reliability@ == shown_reliability(confidence@, v).take(8 * j),
        decreases total - j,
    {
        let mut value: u32 = 0;
        let mut b: usize = 0;
        assert(bits.subrange(8 * j, 8 * j) =~= Seq::<bool>::empty());
        while b < 8
            invariant
                v == version,
                valid_version(v),
                mask <= 7,
                side == symbol_side(v),
                modules@.len() == side * side,
                confidence@.len() == modules@.len(),
                total == total_codewords(v),
                total <= 3706,
                list@ == coordinates(v),
                8 * total <= list@.len(),
                bits == shown_bits(modules@, v, mask as int),
                j < total,
                b <= 8,
                value == bits_value(bits.subrange(8 * j, 8 * j + b)),
                reliability@ == shown_reliability(confidence@, v).take(8 * j + b),
            decreases 8 - b,
        {
            let (x, y) = list[8 * j + b];
            proof {
                lemma_coordinate_cell(v, 8 * j + b);
                let part = bits.subrange(8 * j, 8 * j + b);
                lemma_bits_value_bound(part);
                lemma2_to64();
                assert(part.len() == b);
                vstd::arithmetic::power2::lemma_pow2_strictly_increases(b as nat, 8);
                let next = bits.subrange(8 * j, 8 * j + b + 1);
                assert(next.drop_last() =~= part);
                assert(next.last() == bits[8 * j + b]);
            }
            let index: usize = y as usize * side + x as usize;
            let inverts: bool = match mask_applies_native(mask, x, y) {
                Ok(inverts) => inverts,
                Err(_) => false,
            };
            let bit: bool = (modules[index] != 0) != inverts;
            value = 2 * value + (if bit {
                1
            } else {
                0
            });
            let level: u32 = confidence[index];
            reliability.push(
                if level <= FULL_RELIABILITY {
                    level
                } else {
                    FULL_RELIABILITY
                },
            );
            assert(reliability@ =~= shown_reliability(confidence@, v).take(8 * j + b + 1));
            b += 1;
        }
        proof {
            lemma_bits_value_bound(bits.subrange(8 * j, 8 * j + 8));
            lemma2_to64();
        }
        codewords.push(value as u8);
        assert(codewords@ =~= shown_codewords(modules@, v, mask as int).take(j + 1));
        j += 1;
    }
    assert(shown_codewords(modules@, v, mask as int).take(j as int) =~= shown_codewords(
        modules@,
        v,
        mask as int,
    ));
    assert(shown_reliability(confidence@, v).take(8 * j) =~= shown_reliability(confidence@, v));
    ExtractedCodewords { codewords, bit_reliability: reliability }
}

/// Reads the codewords that a module matrix shows, with a reliability per bit.
/// A module is dark if it is not zero.
pub fn extract_codewords_native(
    modules: &[u8],
    confidence: &[u32],
    version: u8,
    ec_level: &str,
    mask: u8,
) -> (extracted: Result<ExtractedCodewords, QrError>)
    ensures
        extracted is Ok <==> {
            &&& valid_version(version as int)
            &&& modules@.len() == symbol_side(version as int) * symbol_side(version as int)
            &&& confidence@.len() == modules@.len()
            &&& mask <= 7
            &&& level_named(ec_level@) is Some
        },
        extracted matches Ok(value) ==> {
            &&& value.codewords@ == shown_codewords(modules@, version as int, mask as int)
            &&& value.bit_reliability@ == shown_reliability(confidence@, version as int)
        },
        extracted matches Err(error) ==> error == (if !valid_version(version as int) {
            QrError::Version
        } else if modules@.len() != symbol_side(version as int) * symbol_side(version as int) {
            QrError::ModuleCount
        } else if confidence@.len() != modules@.len() {
            QrError::ConfidenceCount
        } else {
            symbol_refusal(version, mask)
        }),
{
    let side: usize = match symbol_size_native(version) {
        Ok(size) => size as usize,
        Err(error) => {
            return Err(error);
        },
    };
    assert(side * side <= 177 * 177) by (nonlinear_arith)
        requires
            0 <= side <= 177,
    ;
    if modules.len() != side * side {
        return Err(QrError::ModuleCount);
    }
    if confidence.len() != modules.len() {
        return Err(QrError::ConfidenceCount);
    }
    match check_symbol(version, ec_level, mask) {
        Ok(level) => Ok(extract_codewords_of(modules, confidence, version, level, mask)),
        Err(error) => Err(error),
    }
}

pub(crate) fn matrix_from_codewords_of(
    codewords: &[u8],
    version: u8,
    level: EcLevel,
    mask: u8,
) -> (drawn: Vec<u8>)
    requires
        valid_version(version as int),
        mask <= 7,
        codewords@.len() == total_codewords(version as int),
    ensures
        drawn@ == symbol_matrix(codewords@, version as int, level, mask as int),
{
    let ghost v = version as int;
    let ghost m = mask as int;
    let side: usize = match symbol_size_native(version) {
        Ok(size) => size as usize,
        Err(_) => 0,
    };
    let (drawn, functions) = function_matrix_of(version, level, mask);
    let mut matrix: Vec<u8> = drawn;
    let list: Vec<(u16, u16)> = coordinates_of(version, &functions);
    let ghost target = symbol_matrix(codewords@, v, level, m);
    let mut i: usize = 0;
    proof {
        coordinates_fill_capacity(v);
    }
    while i < list.len()
        invariant
            v == version,
            m == mask,
            mask <= 7,
            valid_version(v),
            side == symbol_side(v),
            list@ == coordinates(v),
            list@.len() == raw_data_modules(v),
            codewords@.len() == total_codewords(v),
            target == symbol_matrix(codewords@, v, level, m),
            matrix@.len() == side * side,
            i <= list@.len(),
            forall|k: int|
                0 <= k < side * side && is_function(v, k % (side as int), k / (side as int))
                    ==> #[trigger] matrix@[k] == function_matrix(v, level, m)[k],
            forall|j: int|
                0 <= j < i ==> #[trigger] matrix@[cell_of(v, list@[j])] == target[cell_of(
                    v,
                    list@[j],
                )],
        decreases list@.len() - i,
    {
        let (x, y) = list[i];
        proof {
            lemma_coordinate_cell(v, i as int);
            lemma_function_map(v, level, m, x as int, y as int);
        }
        let bit: bool = if i < codewords.len() * 8 {
            bit_is_set(codewords[i / 8], i % 8)
        } else {
            false
        };
        let inverts: bool = match mask_applies_native(mask, x, y) {
            Ok(inverts) => inverts,
            Err(_) => false,
        };
        let index: usize = y as usize * side + x as usize;
        let byte: u8 = if bit != inverts {
            1
        } else {
            0
        };
        let ghost before = matrix@;
        matrix.set(index, byte);
        proof {
            assert forall|j: int| 0 <= j <= i implies #[trigger] matrix@[cell_of(v, list@[j])]
                == target[cell_of(v, list@[j])] by {
                lemma_coordinate_cell(v, j);
                if j < i {
                    coordinates_distinct(v);
                    assert(cell_of(v, list@[j]) != index);
                    assert(before[cell_of(v, list@[j])] == target[cell_of(v, list@[j])]);
                }
            }
        }
        i += 1;
    }
    proof {
        assert forall|k: int| 0 <= k < side * side implies matrix@[k] == target[k] by {
            let x = k % (side as int);
            let y = k / (side as int);
            lemma_function_map(v, level, m, x, y);
            if !is_function(v, x, y) {
                vstd::arithmetic::div_mod::lemma_fundamental_div_mod(k, side as int);
                assert(0 <= y < side) by (nonlinear_arith)
                    requires
                        0 <= k < side * side,
                        k == side * y + x,
                        0 <= x < side,
                ;
                coordinates_complete(v, x, y);
                let j = coordinates(v).index_of((x as u16, y as u16));
                assert(list@[j] == (x as u16, y as u16));
                assert(cell_of(v, list@[j]) == k) by {
                    vstd::arithmetic::mul::lemma_mul_is_commutative(y, side as int);
                }
            }
        }
        assert(matrix@ =~= target);
    }
    matrix
}

/// Draws the symbol that shows `codewords`: 1 for dark modules, 0 for light.
pub fn matrix_from_codewords_native(
    codewords: &[u8],
    version: u8,
    ec_level: &str,
    mask: u8,
) -> (drawn: Result<Vec<u8>, QrError>)
    ensures
        drawn is Ok <==> {
            &&& valid_version(version as int)
            &&& codewords@.len() == total_codewords(version as int)
            &&& mask <= 7
            &&& level_named(ec_level@) is Some
        },
        drawn matches Ok(matrix) ==> matrix@ == symbol_matrix(
            codewords@,
            version as int,
            level_named(ec_level@)->Some_0,
            mask as int,
        ),
        drawn matches Err(error) ==> error == (if !valid_version(version as int) {
            QrError::Version
        } else if codewords@.len() != total_codewords(version as int) {
            QrError::CodewordCount {
                expected: total_codewords(version as int) as usize,
                actual: codewords@.len() as usize,
            }
        } else {
            symbol_refusal(version, mask)
        }),
{
    if version < 1 || version > 40 {
        return Err(QrError::Version);
    }
    let expected: usize = raw_codewords(version);
    if codewords.len() != expected {
        return Err(QrError::CodewordCount { expected, actual: codewords.len() });
    }
    match check_symbol(version, ec_level, mask) {
        Ok(level) => Ok(matrix_from_codewords_of(codewords, version, level, mask)),
        Err(error) => Err(error),
    }
}

} // verus!
