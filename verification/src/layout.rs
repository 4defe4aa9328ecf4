//! Sizes, capacities and block layouts of the forty Model 2 versions.

use vstd::prelude::*;

use crate::error::QrError;

verus! {

/// Error-correction codewords per block, by level and version; version 0 does
/// not exist.
pub const ECC_CODEWORDS_PER_BLOCK: [[u8; 41]; 4] = [
    [
        0, 7, 10, 15, 20, 26, 18, 20, 24, 30, 18, 20, 24, 26, 30, 22, 24, 28, 30, 28, 28, 28, 28,
        30, 30, 26, 28, 30, 30, 30, 30, 30, 30, 30, 30, 30, 30, 30, 30, 30, 30,
    ],
    [
        0, 10, 16, 26, 18, 24, 16, 18, 22, 22, 26, 30, 22, 22, 24, 24, 28, 28, 26, 26, 26, 26, 28,
        28, 28, 28, 28, 28, 28, 28, 28, 28, 28, 28, 28, 28, 28, 28, 28, 28, 28,
    ],
    [
        0, 13, 22, 18, 26, 18, 24, 18, 22, 20, 24, 28, 26, 24, 20, 30, 24, 28, 28, 26, 30, 28, 30,
        30, 30, 30, 28, 30, 30, 30, 30, 30, 30, 30, 30, 30, 30, 30, 30, 30, 30,
    ],
    [
        0, 17, 28, 22, 16, 22, 28, 26, 26, 24, 28, 24, 28, 22, 24, 24, 30, 28, 28, 26, 28, 30, 24,
        30, 30, 30, 30, 30, 30, 30, 30, 30, 30, 30, 30, 30, 30, 30, 30, 30, 30,
    ],
];

/// Error-correction blocks, by level and version; version 0 does not exist.
pub const NUM_ERROR_CORRECTION_BLOCKS: [[u8; 41]; 4] = [
    [
        0, 1, 1, 1, 1, 1, 2, 2, 2, 2, 4, 4, 4, 4, 4, 6, 6, 6, 6, 7, 8, 8, 9, 9, 10, 12, 12, 12, 13,
        14, 15, 16, 17, 18, 19, 19, 20, 21, 22, 24, 25,
    ],
    [
        0, 1, 1, 1, 2, 2, 4, 4, 4, 5, 5, 5, 8, 9, 9, 10, 10, 11, 13, 14, 16, 17, 17, 18, 20, 21,
        23, 25, 26, 28, 29, 31, 33, 35, 37, 38, 40, 43, 45, 47, 49,
    ],
    [
        0, 1, 1, 2, 2, 4, 4, 6, 6, 8, 8, 8, 10, 12, 16, 12, 17, 16, 18, 21, 20, 23, 23, 25, 27, 29,
        34, 34, 35, 38, 40, 43, 45, 48, 51, 53, 56, 59, 62, 65, 68,
    ],
    [
        0, 1, 1, 2, 4, 4, 4, 5, 6, 8, 8, 11, 11, 16, 16, 18, 16, 19, 21, 25, 25, 25, 34, 30, 32, 35,
        37, 40, 42, 45, 48, 51, 54, 57, 60, 63, 66, 70, 74, 77, 81,
    ],
];

/// An error-correction level.
#[derive(Clone, Copy, Debug, PartialEq, Eq, Structural)]
pub enum EcLevel {
    L,
    M,
    Q,
    H,
}

/// The level that `text` names, if it names one.
pub open spec fn level_named(text: Seq<char>) -> Option<EcLevel> {
    if text == seq!['L'] {
        Some(EcLevel::L)
    } else if text == seq!['M'] {
        Some(EcLevel::M)
    } else if text == seq!['Q'] {
        Some(EcLevel::Q)
    } else if text == seq!['H'] {
        Some(EcLevel::H)
    } else {
        None
    }
}

/// The level that `text` names.
pub fn ec_level_named(text: &str) -> (level: Result<EcLevel, QrError>)
    ensures
        level == (match level_named(text@) {
            Some(level) => Ok::<EcLevel, QrError>(level),
            None => Err(QrError::EcLevel),
        }),
{
    if text.unicode_len() == 1 {
        let letter: char = text.get_char(0);
        assert(text@ =~= seq![letter]);
        assert(seq![letter][0] == letter);
        assert(seq!['L'][0] == 'L' && seq!['M'][0] == 'M' && seq!['Q'][0] == 'Q' && seq!['H'][0]
            == 'H');
        if letter == 'L' {
            return Ok(EcLevel::L);
        } else if letter == 'M' {
            return Ok(EcLevel::M);
        } else if letter == 'Q' {
            return Ok(EcLevel::Q);
        } else if letter == 'H' {
            return Ok(EcLevel::H);
        }
    } else {
        assert(seq!['L'].len() == 1 && seq!['M'].len() == 1 && seq!['Q'].len() == 1
            && seq!['H'].len() == 1);
    }
    Err(QrError::EcLevel)
}

/// The name of a level.
pub open spec fn level_name(level: EcLevel) -> Seq<char> {
    match level {
        EcLevel::L => "L"@,
        EcLevel::M => "M"@,
        EcLevel::Q => "Q"@,
        EcLevel::H => "H"@,
    }
}

impl EcLevel {
    /// The name of the level.
    pub fn name(&self) -> (name: &'static str)
        ensures
            name@ == level_name(*self),
    {
        match self {
            EcLevel::L => "L",
            EcLevel::M => "M",
            EcLevel::Q => "Q",
            EcLevel::H => "H",
        }
    }
}

/// The row of the layout tables for `level`.
pub open spec fn level_row(level: EcLevel) -> int {
    match level {
        EcLevel::L => 0,
        EcLevel::M => 1,
        EcLevel::Q => 2,
        EcLevel::H => 3,
    }
}

/// The two bits by which format information names `level`.
pub open spec fn level_format_value(level: EcLevel) -> int {
    match level {
        EcLevel::L => 1,
        EcLevel::M => 0,
        EcLevel::Q => 3,
        EcLevel::H => 2,
    }
}

pub(crate) fn ec_row(level: EcLevel) -> (row: usize)
    ensures
        row == level_row(level),
        row < 4,
{
    match level {
        EcLevel::L => 0,
        EcLevel::M => 1,
        EcLevel::Q => 2,
        EcLevel::H => 3,
    }
}

pub(crate) fn ec_format_value(level: EcLevel) -> (value: u16)
    ensures
        value == level_format_value(level),
{
    match level {
        EcLevel::L => 1,
        EcLevel::M => 0,
        EcLevel::Q => 3,
        EcLevel::H => 2,
    }
}

/// The versions of Model 2.
pub open spec fn valid_version(version: int) -> bool {
    1 <= version <= 40
}

/// Modules per side of a symbol.
pub open spec fn symbol_side(version: int) -> int {
    4 * version + 17
}

/// How many centre coordinates the alignment patterns use.
pub open spec fn alignment_count(version: int) -> int {
    if version == 1 {
        0
    } else {
        version / 7 + 2
    }
}

/// The modules that carry data or error-correction bits: the whole square less
/// finder, separator, timing, format and (from version 2 on) alignment
/// patterns and (from version 7 on) version information.
pub open spec fn raw_data_modules(version: int) -> int {
    let n = alignment_count(version);
    (16 * version + 128) * version + 64 - (if version >= 2 {
        (25 * n - 10) * n - 55
    } else {
        0
    }) - (if version >= 7 {
        36
    } else {
        0int
    })
}

/// The codewords of a symbol, the error-correction codewords among them.
pub open spec fn total_codewords(version: int) -> int {
    raw_data_modules(version) / 8
}

pub(crate) fn check_version(version: u8) -> (checked: Result<(), QrError>)
    ensures
        checked == (if valid_version(version as int) {
            Ok::<(), QrError>(())
        } else {
            Err(QrError::Version)
        }),
{
    if 1 <= version && version <= 40 {
        Ok(())
    } else {
        Err(QrError::Version)
    }
}

/// Modules per side of a symbol of the given version.
pub fn symbol_size_native(version: u8) -> (size: Result<u16, QrError>)
    ensures
        size is Ok <==> valid_version(version as int),
        size matches Ok(side) ==> side == symbol_side(version as int),
        size matches Err(error) ==> error == QrError::Version,
{
    if let Err(error) = check_version(version) {
        return Err(error);
    }
    Ok(version as u16 * 4 + 17)
}

/// The version of a symbol with the given modules per side.
pub fn version_from_size_native(size: u16) -> (version: Result<u8, QrError>)
    ensures
        version is Ok <==> 21 <= size <= 177 && (size - 17) % 4 == 0,
        version matches Ok(v) ==> v == (size - 17) / 4 && valid_version(v as int)
            && symbol_side(v as int) == size,
        version matches Err(error) ==> error == (if size < 21 || (size - 17) % 4 != 0 {
            QrError::MatrixSize(size)
        } else {
            QrError::Version
        }),
{
    if size < 21 || (size - 17) % 4 != 0 {
        return Err(QrError::MatrixSize(size));
    }
    let version: u16 = (size - 17) / 4;
    if version > 40 {
        return Err(QrError::Version);
    }
    Ok(version as u8)
}

/// The side of a symbol leads back to its version.
pub proof fn sides_show_versions(version: int)
    requires
        valid_version(version),
    ensures
        21 <= symbol_side(version) <= 177,
        (symbol_side(version) - 17) % 4 == 0,
        (symbol_side(version) - 17) / 4 == version,
{
}

/// No two versions share a side length.
pub proof fn size_determines_version(a: int, b: int)
    requires
        symbol_side(a) == symbol_side(b),
    ensures
        a == b,
{
}

/// The modules of a symbol that carry data or error-correction bits.
pub fn num_raw_data_modules_native(version: u8) -> (modules: Result<u32, QrError>)
    ensures
        modules is Ok <==> valid_version(version as int),
        modules matches Ok(count) ==> count == raw_data_modules(version as int),
        modules matches Err(error) ==> error == QrError::Version,
{
    if let Err(error) = check_version(version) {
        return Err(error);
    }
    let v: u32 = version as u32;
    assert((16 * v + 128) * v <= 40 * (16 * 40 + 128)) by (nonlinear_arith)
        requires
            1 <= v <= 40,
    ;
    let square: u32 = (16 * v + 128) * v + 64;
    proof {
        lemma_layouts_fit(v as int);
    }
    if version < 2 {
        return Ok(square);
    }
    let align: u32 = v / 7 + 2;
    assert(50 * align - 20 <= (25 * align - 10) * align <= 7 * (25 * 7 - 10)) by (nonlinear_arith)
        requires
            2 <= align <= 7,
    ;
    let patterns: u32 = (25 * align - 10) * align - 55;
    if version >= 7 {
        Ok(square - patterns - 36)
    } else {
        Ok(square - patterns)
    }
}

/// How many error-correction codewords each block of a layout has.
pub open spec fn block_ecc(version: int, level: EcLevel) -> int {
    ECC_CODEWORDS_PER_BLOCK[level_row(level)][version] as int
}

/// How many blocks a layout has.
pub open spec fn block_count(version: int, level: EcLevel) -> int {
    NUM_ERROR_CORRECTION_BLOCKS[level_row(level)][version] as int
}

/// The capacity lies in the stated range and each of the four layouts leaves
/// every block at least two data codewords and at most 153 codewords.
spec fn layouts_fit(version: int) -> bool {
    &&& 208 <= raw_data_modules(version) <= 29648
    &&& forall|level: EcLevel|
        {
            let ecc = #[trigger] block_ecc(version, level);
            let count = block_count(version, level);
            &&& 7 <= ecc <= 30
            &&& 1 <= count <= 81
            &&& ecc + 2 <= total_codewords(version) / count <= 152
        }
}

proof fn lemma_layouts_fit(version: int)
    requires
        valid_version(version),
    ensures
        layouts_fit(version),
{
    assert(layouts_fit(1)) by (nonlinear_arith);
    assert(layouts_fit(2)) by (nonlinear_arith);
    assert(layouts_fit(3)) by (nonlinear_arith);
    assert(layouts_fit(4)) by (nonlinear_arith);
    assert(layouts_fit(5)) by (nonlinear_arith);
    assert(layouts_fit(6)) by (nonlinear_arith);
    assert(layouts_fit(7)) by (nonlinear_arith);
    assert(layouts_fit(8)) by (nonlinear_arith);
    assert(layouts_fit(9)) by (nonlinear_arith);
    assert(layouts_fit(10)) by (nonlinear_arith);
    assert(layouts_fit(11)) by (nonlinear_arith);
    assert(layouts_fit(12)) by (nonlinear_arith);
    assert(layouts_fit(13)) by (nonlinear_arith);
    assert(layouts_fit(14)) by (nonlinear_arith);
    assert(layouts_fit(15)) by (nonlinear_arith);
    assert(layouts_fit(16)) by (nonlinear_arith);
    assert(layouts_fit(17)) by (nonlinear_arith);
    assert(layouts_fit(18)) by (nonlinear_arith);
    assert(layouts_fit(19)) by (nonlinear_arith);
    assert(layouts_fit(20)) by (nonlinear_arith);
    assert(layouts_fit(21)) by (nonlinear_arith);
    assert(layouts_fit(22)) by (nonlinear_arith);
    assert(layouts_fit(23)) by (nonlinear_arith);
    assert(layouts_fit(24)) by (nonlinear_arith);
    assert(layouts_fit(25)) by (nonlinear_arith);
    assert(layouts_fit(26)) by (nonlinear_arith);
    assert(layouts_fit(27)) by (nonlinear_arith);
    assert(layouts_fit(28)) by (nonlinear_arith);
    assert(layouts_fit(29)) by (nonlinear_arith);
    assert(layouts_fit(30)) by (nonlinear_arith);
    assert(layouts_fit(31)) by (nonlinear_arith);
    assert(layouts_fit(32)) by (nonlinear_arith);
    assert(layouts_fit(33)) by (nonlinear_arith);
    assert(layouts_fit(34)) by (nonlinear_arith);
    assert(layouts_fit(35)) by (nonlinear_arith);
    assert(layouts_fit(36)) by (nonlinear_arith);
    assert(layouts_fit(37)) by (nonlinear_arith);
    assert(layouts_fit(38)) by (nonlinear_arith);
    assert(layouts_fit(39)) by (nonlinear_arith);
    assert(layouts_fit(40)) by (nonlinear_arith);
}

/// The data and error-correction codewords of one block.
#[derive(Clone, Copy, Debug, PartialEq, Eq, Structural)]
pub struct BlockSpec {
    pub data_codewords: usize,
    pub ecc_codewords: usize,
}

/// The blocks of a symbol: all share the error-correction length, and the
/// codewords that do not divide evenly make the last blocks one data codeword
/// longer.
pub open spec fn layout(version: int, level: EcLevel) -> Seq<BlockSpec> {
    let count = block_count(version, level);
    let ecc = block_ecc(version, level);
    let short = total_codewords(version) / count - ecc;
    let num_short = count - total_codewords(version) % count;
    Seq::new(
        count as nat,
        |i: int|
            BlockSpec {
                data_codewords: (if i >= num_short {
                    short + 1
                } else {
                    short
                }) as usize,
                ecc_codewords: ecc as usize,
            },
    )
}

/// The data codewords of the first `n` blocks.
pub open spec fn data_total(specs: Seq<BlockSpec>, n: int) -> int
    decreases n,
{
    if n <= 0 {
        0
    } else {
        data_total(specs, n - 1) + specs[n - 1].data_codewords
    }
}

/// All codewords of the first `n` blocks.
pub open spec fn codeword_total(specs: Seq<BlockSpec>, n: int) -> int
    decreases n,
{
    if n <= 0 {
        0
    } else {
        codeword_total(specs, n - 1) + specs[n - 1].data_codewords + specs[n - 1].ecc_codewords
    }
}

/// Every block of every layout is a Reed-Solomon block: it has data, parity
/// and no more codewords than the field has nonzero elements.
pub proof fn layout_bounds(version: int, level: EcLevel)
    requires
        valid_version(version),
    ensures
        1 <= layout(version, level).len() <= 81,
        layout(version, level).len() == block_count(version, level),
        forall|i: int|
            0 <= i < layout(version, level).len() ==> {
                let spec = #[trigger] layout(version, level)[i];
                &&& spec.ecc_codewords == block_ecc(version, level)
                &&& 7 <= spec.ecc_codewords <= 30
                &&& 2 <= spec.data_codewords <= 146
                &&& spec.data_codewords + spec.ecc_codewords <= 153
                &&& spec.data_codewords == layout(version, level)[0].data_codewords
                    || spec.data_codewords == layout(version, level)[0].data_codewords + 1
            },
        forall|i: int, j: int|
            0 <= i <= j < layout(version, level).len() ==> (#[trigger] layout(
                version,
                level,
            )[i]).data_codewords <= (#[trigger] layout(version, level)[j]).data_codewords,
{
    lemma_layouts_fit(version);
    let ecc = block_ecc(version, level);
    let count = block_count(version, level);
    assert(total_codewords(version) % count < count);
    assert(0 < count - total_codewords(version) % count);
}

proof fn lemma_layout_prefix(version: int, level: EcLevel, n: int)
    requires
        valid_version(version),
        0 <= n <= layout(version, level).len(),
    ensures
        ({
            let count = block_count(version, level);
            let short = total_codewords(version) / count;
            let num_short = count - total_codewords(version) % count;
            codeword_total(layout(version, level), n) == n * short + (if n > num_short {
                n - num_short
            } else {
                0
            })
        }),
    decreases n,
{
    lemma_layouts_fit(version);
    let count = block_count(version, level);
    let short = total_codewords(version) / count;
    if n > 0 {
        lemma_layout_prefix(version, level, n - 1);
        layout_bounds(version, level);
        assert(n * short == (n - 1) * short + short) by (nonlinear_arith);
        let spec = layout(version, level)[n - 1];
        assert(spec.data_codewords + spec.ecc_codewords == short + (if n - 1 >= count
            - total_codewords(version) % count {
            1int
        } else {
            0
        }));
    } else {
        assert(0 * short == 0);
    }
}

/// The blocks of every layout together hold exactly the symbol's codewords.
pub proof fn layout_fills_symbol(version: int, level: EcLevel)
    requires
        valid_version(version),
    ensures
        codeword_total(layout(version, level), layout(version, level).len() as int)
            == total_codewords(version),
{
    lemma_layouts_fit(version);
    let count = block_count(version, level);
    lemma_layout_prefix(version, level, count);
    vstd::arithmetic::div_mod::lemma_fundamental_div_mod(total_codewords(version), count);
}

/// The Reed-Solomon blocks of a symbol.
pub fn block_layout_native(version: u8, ec_level: &str) -> (blocks: Result<
    Vec<BlockSpec>,
    QrError,
>)
    ensures
        blocks is Ok <==> valid_version(version as int) && level_named(ec_level@) is Some,
        blocks matches Ok(specs) ==> specs@ == layout(
            version as int,
            level_named(ec_level@)->Some_0,
        ),
        blocks matches Err(error) ==> error == (if !valid_version(version as int) {
            QrError::Version
        } else {
            QrError::EcLevel
        }),
{
    if let Err(error) = check_version(version) {
        return Err(error);
    }
    match ec_level_named(ec_level) {
        Ok(level) => Ok(layout_of(version, level)),
        Err(error) => Err(error),
    }
}

pub(crate) fn layout_of(version: u8, level: EcLevel) -> (specs: Vec<BlockSpec>)
    requires
        valid_version(version as int),
    ensures
        specs@ == layout(version as int, level),
{
    proof {
        lemma_layouts_fit(version as int);
    }
    let row: usize = ec_row(level);
    let ecc: usize = ECC_CODEWORDS_PER_BLOCK[row][version as usize] as usize;
    let count: usize = NUM_ERROR_CORRECTION_BLOCKS[row][version as usize] as usize;
    assert(ecc == block_ecc(version as int, level));
    assert(count == block_count(version as int, level));
    let raw: usize = raw_codewords(version);
    let short: usize = raw / count - ecc;
    let num_short: usize = count - raw % count;
    let mut specs: Vec<BlockSpec> = Vec::new();
    let mut index: usize = 0;
    while index < count
        invariant
            valid_version(version as int),
            index <= count == block_count(version as int, level),
            ecc == block_ecc(version as int, level),
            raw == total_codewords(version as int),
            short == total_codewords(version as int) / (count as int) - ecc,
            num_short == count - total_codewords(version as int) % (count as int),
            short <= 152,
            specs@ == layout(version as int, level).take(index as int),
        decreases count - index,
    {
        let data: usize = if index >= num_short {
            short + 1
        } else {
            short
        };
        specs.push(BlockSpec { data_codewords: data, ecc_codewords: ecc });
        index += 1;
        assert(specs@ =~= layout(version as int, level).take(index as int));
    }
    assert(layout(version as int, level).take(count as int) =~= layout(version as int, level));
    specs
}

/// A symbol has 26 to 3706 codewords.
pub proof fn capacity_bounds(version: int)
    requires
        valid_version(version),
    ensures
        26 <= total_codewords(version) <= 3706,
{
    lemma_layouts_fit(version);
}

/// The codewords of a symbol.
pub(crate) fn raw_codewords(version: u8) -> (codewords: usize)
    requires
        valid_version(version as int),
    ensures
        codewords == total_codewords(version as int),
        26 <= codewords <= 3706,
{
    proof {
        lemma_layouts_fit(version as int);
    }
    match num_raw_data_modules_native(version) {
        Ok(modules) => (modules / 8) as usize,
        Err(_) => 26,
    }
}

/// The distance between neighbouring alignment centres, but for the first.
pub open spec fn alignment_step(version: int) -> int {
    if version == 32 {
        26
    } else {
        (version * 4 + alignment_count(version) * 2 + 1) / (alignment_count(version) * 2 - 2) * 2
    }
}

/// The `i`-th centre coordinate of the alignment patterns: the first is 6, the
/// others are spread evenly and end seven modules before the far edge.
pub open spec fn alignment_position(version: int, i: int) -> int {
    if i == 0 {
        6
    } else {
        symbol_side(version) - 7 - (alignment_count(version) - 1 - i) * alignment_step(version)
    }
}

spec fn alignment_fits(version: int) -> bool {
    let n = alignment_count(version);
    &&& 2 <= n <= 7
    &&& 12 <= alignment_step(version) <= 28
    &&& 18 + (n - 2) * alignment_step(version) <= symbol_side(version) - 7
}

proof fn lemma_alignment_fits(version: int)
    requires
        2 <= version <= 40,
    ensures
        alignment_fits(version),
{
    assert(alignment_fits(2)) by (nonlinear_arith);
    assert(alignment_fits(3)) by (nonlinear_arith);
    assert(alignment_fits(4)) by (nonlinear_arith);
    assert(alignment_fits(5)) by (nonlinear_arith);
    assert(alignment_fits(6)) by (nonlinear_arith);
    assert(alignment_fits(7)) by (nonlinear_arith);
    assert(alignment_fits(8)) by (nonlinear_arith);
    assert(alignment_fits(9)) by (nonlinear_arith);
    assert(alignment_fits(10)) by (nonlinear_arith);
    assert(alignment_fits(11)) by (nonlinear_arith);
    assert(alignment_fits(12)) by (nonlinear_arith);
    assert(alignment_fits(13)) by (nonlinear_arith);
    assert(alignment_fits(14)) by (nonlinear_arith);
    assert(alignment_fits(15)) by (nonlinear_arith);
    assert(alignment_fits(16)) by (nonlinear_arith);
    assert(alignment_fits(17)) by (nonlinear_arith);
    assert(alignment_fits(18)) by (nonlinear_arith);
    assert(alignment_fits(19)) by (nonlinear_arith);
    assert(alignment_fits(20)) by (nonlinear_arith);
    assert(alignment_fits(21)) by (nonlinear_arith);
    assert(alignment_fits(22)) by (nonlinear_arith);
    assert(alignment_fits(23)) by (nonlinear_arith);
    assert(alignment_fits(24)) by (nonlinear_arith);
    assert(alignment_fits(25)) by (nonlinear_arith);
    assert(alignment_fits(26)) by (nonlinear_arith);
    assert(alignment_fits(27)) by (nonlinear_arith);
    assert(alignment_fits(28)) by (nonlinear_arith);
    assert(alignment_fits(29)) by (nonlinear_arith);
    assert(alignment_fits(30)) by (nonlinear_arith);
    assert(alignment_fits(31)) by (nonlinear_arith);
    assert(alignment_fits(32)) by (nonlinear_arith);
    assert(alignment_fits(33)) by (nonlinear_arith);
    assert(alignment_fits(34)) by (nonlinear_arith);
    assert(alignment_fits(35)) by (nonlinear_arith);
    assert(alignment_fits(36)) by (nonlinear_arith);
    assert(alignment_fits(37)) by (nonlinear_arith);
    assert(alignment_fits(38)) by (nonlinear_arith);
    assert(alignment_fits(39)) by (nonlinear_arith);
    assert(alignment_fits(40)) by (nonlinear_arith);
}

/// Alignment centres rise by at least twelve modules, start at 6 and end seven
/// modules before the far edge.
pub proof fn alignment_positions_spread(version: int, i: int, j: int)
    requires
        2 <= version <= 40,
        0 <= i < j < alignment_count(version),
    ensures
        alignment_position(version, i) + 12 <= alignment_position(version, j),
        6 <= alignment_position(version, i),
        18 <= alignment_position(version, j) <= symbol_side(version) - 7,
        alignment_position(version, alignment_count(version) - 1) == symbol_side(version) - 7,
{
    lemma_alignment_fits(version);
    let n = alignment_count(version);
    let step = alignment_step(version);
    assert((n - 1 - (n - 1)) * step == 0) by (nonlinear_arith);
    assert(0 <= (n - 1 - j) * step <= (n - 2) * step) by (nonlinear_arith)
        requires
            1 <= j <= n - 1,
            0 <= step,
    ;
    if i > 0 {
        assert((n - 1 - i) * step >= (n - 1 - j) * step + step) by (nonlinear_arith)
            requires
                i + 1 <= j,
                0 <= step,
        ;
        assert((n - 1 - i) * step <= (n - 2) * step) by (nonlinear_arith)
            requires
                1 <= i,
                0 <= step,
        ;
    }
}

/// The centre coordinates of the alignment patterns.
pub fn alignment_positions_native(version: u8) -> (positions: Result<Vec<u16>, QrError>)
    ensures
        positions is Ok <==> valid_version(version as int),
        positions matches Ok(list) ==> {
            &&& list@.len() == alignment_count(version as int)
            &&& forall|i: int|
                0 <= i < list@.len() ==> #[trigger] list@[i] == alignment_position(
                    version as int,
                    i,
                )
        },
        positions matches Err(error) ==> error == QrError::Version,
{
    let size: u16 = match symbol_size_native(version) {
        Ok(size) => size,
        Err(error) => {
            return Err(error);
        },
    };
    let mut positions: Vec<u16> = Vec::new();
    if version == 1 {
        return Ok(positions);
    }
    proof {
        lemma_alignment_fits(version as int);
    }
    let count: u16 = (version / 7 + 2) as u16;
    let step: u16 = if version == 32 {
        26
    } else {
        (version as u16 * 4 + count * 2 + 1) / (count * 2 - 2) * 2
    };
    assert(count == alignment_count(version as int));
    assert(step == alignment_step(version as int));
    positions.push(6);
    let mut position: u16 = size - 7;
    let mut index: u16 = 0;
    while index < count - 1
        invariant
            2 <= version <= 40,
            alignment_fits(version as int),
            count == alignment_count(version as int),
            step == alignment_step(version as int),
            size == symbol_side(version as int),
            index <= count - 1,
            positions@.len() == index + 1,
            positions@[0] == 6,
            forall|k: int|
                1 <= k <= index ==> #[trigger] positions@[k] == alignment_position(
                    version as int,
                    k + count - 1 - index,
                ),
            index < count - 1 ==> position == size - 7 - index * step,
        decreases count - 1 - index,
    {
        let ghost before = positions@;
        positions.insert(1, position);
        proof {
            assert(positions@[1] == position);
            assert(alignment_position(version as int, count - 1 - index) == size - 7 - index
                * step) by {
                assert((count - 1 - (count - 1 - index)) == index);
            }
            assert forall|k: int| 1 <= k <= index + 1 implies #[trigger] positions@[k]
                == alignment_position(version as int, k + count - 1 - (index + 1)) by {
                if k > 1 {
                    assert(positions@[k] == before[k - 1]);
                }
            }
        }
        if index + 1 < count - 1 {
            proof {
                assert((index + 1) * step == index * step + step) by (nonlinear_arith);
                assert((index + 1) * step <= (count - 2) * step) by (nonlinear_arith)
                    requires
                        index + 1 <= count - 2,
                        0 <= step,
                ;
            }
            position -= step;
        }
        index += 1;
    }
    Ok(positions)
}

} // verus!
