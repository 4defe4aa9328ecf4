//! The modules of a symbol that do not carry codewords.

use vstd::prelude::*;

use crate::bch::{format_word, format_word_of, version_bits_native, version_word};
use crate::error::QrError;
use crate::layout::{
    alignment_count, alignment_position, alignment_positions_native, alignment_positions_spread,
    ec_level_named, level_named, symbol_side, symbol_size_native, valid_version, EcLevel,
};

verus! {

/// The larger of the two absolute offsets: which ring around a centre a module
/// lies on.
pub open spec fn ring(dx: int, dy: int) -> int {
    let ax = if dx < 0 {
        -dx
    } else {
        dx
    };
    let ay = if dy < 0 {
        -dy
    } else {
        dy
    };
    if ax >= ay {
        ax
    } else {
        ay
    }
}

/// The finder pattern with its separator: light on rings 2 and 4.
pub open spec fn finder_module(version: int, x: int, y: int) -> Option<bool> {
    let far = symbol_side(version) - 4;
    if ring(x - 3, y - 3) <= 4 {
        Some(ring(x - 3, y - 3) != 2 && ring(x - 3, y - 3) != 4)
    } else if ring(x - far, y - 3) <= 4 {
        Some(ring(x - far, y - 3) != 2 && ring(x - far, y - 3) != 4)
    } else if ring(x - 3, y - far) <= 4 {
        Some(ring(x - 3, y - far) != 2 && ring(x - 3, y - far) != 4)
    } else {
        None
    }
}

/// The timing patterns: row and column 6, dark on even coordinates.
pub open spec fn timing_module(version: int, x: int, y: int) -> Option<bool> {
    if y == 6 && 8 <= x < symbol_side(version) - 8 {
        Some(x % 2 == 0)
    } else if x == 6 && 8 <= y < symbol_side(version) - 8 {
        Some(y % 2 == 0)
    } else {
        None
    }
}

/// Whether an alignment pattern is centred on these two centre coordinates:
/// the three finder corners have none.
pub open spec fn alignment_centre(version: int, col: int, row: int) -> bool {
    let last = alignment_count(version) - 1;
    &&& 0 <= col <= last
    &&& 0 <= row <= last
    &&& !(row == 0 && col == 0)
    &&& !(row == 0 && col == last)
    &&& !(row == last && col == 0)
}

/// The ring of the given alignment pattern that a module lies on.
pub open spec fn alignment_ring(version: int, x: int, y: int, col: int, row: int) -> int {
    ring(x - alignment_position(version, col), y - alignment_position(version, row))
}

/// The alignment patterns: light on ring 1.
pub open spec fn alignment_module(version: int, x: int, y: int) -> Option<bool> {
    if exists|col: int, row: int|
        alignment_centre(version, col, row) && #[trigger] alignment_ring(version, x, y, col, row)
            <= 2 {
        Some(
            !(exists|col: int, row: int|
                alignment_centre(version, col, row) && #[trigger] alignment_ring(
                    version,
                    x,
                    y,
                    col,
                    row,
                ) == 1),
        )
    } else {
        None
    }
}

/// Which format bit a module shows. Each bit stands twice: around the upper
/// left finder, and split between the other two.
pub open spec fn format_index(version: int, x: int, y: int) -> Option<int> {
    let side = symbol_side(version);
    if x == 8 && 0 <= y < 6 {
        Some(y)
    } else if x == 8 && 7 <= y <= 8 {
        Some(y - 1)
    } else if x == 8 && side - 7 <= y < side {
        Some(y - side + 15)
    } else if y == 8 && 0 <= x < 6 {
        Some(14 - x)
    } else if y == 8 && x == 7 {
        Some(8)
    } else if y == 8 && side - 8 <= x < side {
        Some(side - 1 - x)
    } else {
        None
    }
}

/// Which version bit a module shows: from version 7 on, two blocks of three by
/// six modules next to the outer finders.
pub open spec fn version_index(version: int, x: int, y: int) -> Option<int> {
    let start = symbol_side(version) - 11;
    if version < 7 {
        None
    } else if start <= x < start + 3 && 0 <= y < 6 {
        Some(3 * y + x - start)
    } else if start <= y < start + 3 && 0 <= x < 6 {
        Some(3 * x + y - start)
    } else {
        None
    }
}

/// The colour of the function module in column `x` of row `y`, or `None` for a
/// data module. Format information overlies timing, and one module above the
/// lower left finder is always dark.
pub open spec fn function_module(
    version: int,
    level: EcLevel,
    mask: int,
    x: int,
    y: int,
) -> Option<bool> {
    if let Some(index) = version_index(version, x, y) {
        Some((version_word(version) >> index as u32) & 1 != 0)
    } else if x == 8 && y == symbol_side(version) - 8 {
        Some(true)
    } else if let Some(index) = format_index(version, x, y) {
        Some((format_word(level, mask) >> index as u16) & 1 != 0)
    } else if alignment_module(version, x, y) is Some {
        alignment_module(version, x, y)
    } else if timing_module(version, x, y) is Some {
        timing_module(version, x, y)
    } else {
        finder_module(version, x, y)
    }
}

/// Whether a module belongs to a function pattern; level and mask do not
/// matter.
pub open spec fn is_function(version: int, x: int, y: int) -> bool {
    ||| version_index(version, x, y) is Some
    ||| x == 8 && y == symbol_side(version) - 8
    ||| format_index(version, x, y) is Some
    ||| alignment_module(version, x, y) is Some
    ||| timing_module(version, x, y) is Some
    ||| finder_module(version, x, y) is Some
}

/// The function modules of a symbol row by row: 1 for dark, 0 for light and for
/// data modules.
pub open spec fn function_matrix(version: int, level: EcLevel, mask: int) -> Seq<u8> {
    let side = symbol_side(version);
    Seq::new(
        (side * side) as nat,
        |k: int|
            if function_module(version, level, mask, k % side, k / side) == Some(true) {
                1
            } else {
                0
            },
    )
}

/// Which modules of a symbol are function modules, row by row.
pub open spec fn function_map(version: int) -> Seq<bool> {
    let side = symbol_side(version);
    Seq::new((side * side) as nat, |k: int| is_function(version, k % side, k / side))
}

/// Row `y`, column `x` of a square of the given side lies at `y * side + x`.
pub proof fn lemma_cell(side: int, x: int, y: int)
    requires
        0 <= x < side,
        0 <= y < side,
    ensures
        0 <= y * side + x < side * side,
        (y * side + x) % side == x,
        (y * side + x) / side == y,
{
    assert(y * side + x < side * side && 0 <= y * side) by (nonlinear_arith)
        requires
            0 <= x < side,
            0 <= y < side,
    ;
    vstd::arithmetic::div_mod::lemma_fundamental_div_mod_converse(y * side + x, side, y, x);
}

pub(crate) open spec fn in_band(version: int, i: int, t: int) -> bool {
    &&& 0 <= i < alignment_count(version)
    &&& -2 <= t - alignment_position(version, i) <= 2
}

proof fn lemma_band_unique(version: int, i: int, j: int, t: int)
    requires
        valid_version(version),
        in_band(version, i, t),
        in_band(version, j, t),
    ensures
        i == j,
{
    if i < j {
        alignment_positions_spread(version, i, j);
    } else if j < i {
        alignment_positions_spread(version, j, i);
    }
}

pub(crate) proof fn lemma_alignment_module(version: int, x: int, y: int, col: int, row: int)
    requires
        valid_version(version),
        in_band(version, col, x),
        in_band(version, row, y),
    ensures
        alignment_module(version, x, y) == (if alignment_centre(version, col, row) {
            Some(alignment_ring(version, x, y, col, row) != 1)
        } else {
            None
        }),
{
    assert forall|c: int, r: int|
        alignment_centre(version, c, r) && #[trigger] alignment_ring(version, x, y, c, r)
            <= 2 implies c == col && r == row by {
        assert(in_band(version, c, x));
        assert(in_band(version, r, y));
        lemma_band_unique(version, c, col, x);
        lemma_band_unique(version, r, row, y);
    }
    if alignment_centre(version, col, row) {
        assert(alignment_ring(version, x, y, col, row) <= 2);
    }
}

proof fn lemma_no_alignment(version: int, x: int, y: int)
    requires
        (forall|i: int| !in_band(version, i, x)) || (forall|i: int| !in_band(version, i, y)),
    ensures
        alignment_module(version, x, y) is None,
{
    assert forall|c: int, r: int|
        alignment_centre(version, c, r) implies #[trigger] alignment_ring(version, x, y, c, r)
            > 2 by {
        if alignment_ring(version, x, y, c, r) <= 2 {
            assert(in_band(version, c, x));
            assert(in_band(version, r, y));
        }
    }
}

fn ring_of(x: usize, y: usize, cx: usize, cy: usize) -> (distance: usize)
    ensures
        distance == ring(x - cx, y - cy),
{
    let dx: usize = if x < cx {
        cx - x
    } else {
        x - cx
    };
    let dy: usize = if y < cy {
        cy - y
    } else {
        y - cy
    };
    if dx >= dy {
        dx
    } else {
        dy
    }
}

/// Which alignment centre, if any, is at most two modules from coordinate `t`.
fn alignment_band(Ghost(version): Ghost<int>, positions: &Vec<u16>, t: usize) -> (band: Option<
    usize,
>)
    requires
        positions@.len() == alignment_count(version),
        forall|i: int|
            0 <= i < positions@.len() ==> #[trigger] positions@[i] == alignment_position(
                version,
                i,
            ),
        t < 1000,
    ensures
        match band {
            Some(i) => in_band(version, i as int, t as int),
            None => forall|i: int| !in_band(version, i, t as int),
        },
{
    let mut i: usize = 0;
    while i < positions.len()
        invariant
            t < 1000,
            positions@.len() == alignment_count(version),
            forall|i: int|
                0 <= i < positions@.len() ==> #[trigger] positions@[i] == alignment_position(
                    version,
                    i,
                ),
            i <= positions@.len(),
            forall|j: int| 0 <= j < i ==> !in_band(version, j, t as int),
        decreases positions@.len() - i,
    {
        let centre: usize = positions[i] as usize;
        if t <= centre + 2 && centre <= t + 2 {
            return Some(i);
        }
        i += 1;
    }
    None
}

/// What the drawing of function modules reads, computed once per symbol.
struct Pattern {
    version: usize,
    side: usize,
    positions: Vec<u16>,
    format: u16,
    version_bits: u32,
}

impl Pattern {
    spec fn draws(&self, level: EcLevel, mask: int) -> bool {
        &&& valid_version(self.version as int)
        &&& self.side == symbol_side(self.version as int)
        &&& self.positions@.len() == alignment_count(self.version as int)
        &&& forall|i: int|
            0 <= i < self.positions@.len() ==> #[trigger] self.positions@[i] == alignment_position(
                self.version as int,
                i,
            )
        &&& self.format == format_word(level, mask)
        &&& self.version_bits == version_word(self.version as int)
    }

    fn alignment(
        &self,
        Ghost(level): Ghost<EcLevel>,
        Ghost(mask): Ghost<int>,
        x: usize,
        y: usize,
    ) -> (module: Option<bool>)
        requires
            self.draws(level, mask),
            x < self.side,
            y < self.side,
        ensures
            module == alignment_module(self.version as int, x as int, y as int),
    {
        let ghost version = self.version as int;
        match (
            alignment_band(Ghost(version), &self.positions, x),
            alignment_band(Ghost(version), &self.positions, y),
        ) {
            (Some(col), Some(row)) => {
                proof {
                    lemma_alignment_module(version, x as int, y as int, col as int, row as int);
                }
                let last: usize = self.positions.len() - 1;
                if (row == 0 && col == 0) || (row == 0 && col == last) || (row == last && col
                    == 0) {
                    None
                } else {
                    let distance: usize = ring_of(
                        x,
                        y,
                        self.positions[col] as usize,
                        self.positions[row] as usize,
                    );
                    Some(distance != 1)
                }
            },
            _ => {
                proof {
                    lemma_no_alignment(version, x as int, y as int);
                }
                None
            },
        }
    }

    fn finder(
        &self,
        Ghost(level): Ghost<EcLevel>,
        Ghost(mask): Ghost<int>,
        x: usize,
        y: usize,
    ) -> (module: Option<bool>)
        requires
            self.draws(level, mask),
            x < self.side,
            y < self.side,
        ensures
            module == finder_module(self.version as int, x as int, y as int),
    {
        let far: usize = self.side - 4;
        let upper_left: usize = ring_of(x, y, 3, 3);
        let upper_right: usize = ring_of(x, y, far, 3);
        let lower_left: usize = ring_of(x, y, 3, far);
        if upper_left <= 4 {
            Some(upper_left != 2 && upper_left != 4)
        } else if upper_right <= 4 {
            Some(upper_right != 2 && upper_right != 4)
        } else if lower_left <= 4 {
            Some(lower_left != 2 && lower_left != 4)
        } else {
            None
        }
    }

    fn format_bit(
        &self,
        Ghost(level): Ghost<EcLevel>,
        Ghost(mask): Ghost<int>,
        x: usize,
        y: usize,
    ) -> (index: Option<usize>)
        requires
            self.draws(level, mask),
            x < self.side,
            y < self.side,
        ensures
            match index {
                Some(i) => i < 15 && format_index(self.version as int, x as int, y as int) == Some(
                    i as int,
                ),
                None => format_index(self.version as int, x as int, y as int) is None,
            },
    {
        let side: usize = self.side;
        if x == 8 && y < 6 {
            Some(y)
        } else if x == 8 && 7 <= y && y <= 8 {
            Some(y - 1)
        } else if x == 8 && side - 7 <= y {
            Some(y + 15 - side)
        } else if y == 8 && x < 6 {
            Some(14 - x)
        } else if y == 8 && x == 7 {
            Some(8)
        } else if y == 8 && side - 8 <= x {
            Some(side - 1 - x)
        } else {
            None
        }
    }

    fn version_bit(
        &self,
        Ghost(level): Ghost<EcLevel>,
        Ghost(mask): Ghost<int>,
        x: usize,
        y: usize,
    ) -> (index: Option<usize>)
        requires
            self.draws(level, mask),
            x < self.side,
            y < self.side,
        ensures
            match index {
                Some(i) => i < 18 && version_index(self.version as int, x as int, y as int) == Some(
                    i as int,
                ),
                None => version_index(self.version as int, x as int, y as int) is None,
            },
    {
        let start: usize = self.side - 11;
        if self.version < 7 {
            None
        } else if start <= x && x < start + 3 && y < 6 {
            Some(3 * y + x - start)
        } else if start <= y && y < start + 3 && x < 6 {
            Some(3 * x + y - start)
        } else {
            None
        }
    }

    fn module(
        &self,
        Ghost(level): Ghost<EcLevel>,
        Ghost(mask): Ghost<int>,
        x: usize,
        y: usize,
    ) -> (module: Option<bool>)
        requires
            self.draws(level, mask),
            x < self.side,
            y < self.side,
        ensures
            module == function_module(self.version as int, level, mask, x as int, y as int),
    {
        if let Some(index) = self.version_bit(Ghost(level), Ghost(mask), x, y) {
            return Some((self.version_bits >> index as u32) & 1 != 0);
        }
        if x == 8 && y == self.side - 8 {
            return Some(true);
        }
        if let Some(index) = self.format_bit(Ghost(level), Ghost(mask), x, y) {
            return Some((self.format >> index as u16) & 1 != 0);
        }
        if let Some(dark) = self.alignment(Ghost(level), Ghost(mask), x, y) {
            return Some(dark);
        }
        if y == 6 && 8 <= x && x < self.side - 8 {
            return Some(x % 2 == 0);
        }
        if x == 6 && 8 <= y && y < self.side - 8 {
            return Some(y % 2 == 0);
        }
        self.finder(Ghost(level), Ghost(mask), x, y)
    }
}

/// A module is a function module exactly if it has a function colour.
pub proof fn lemma_function_map(version: int, level: EcLevel, mask: int, x: int, y: int)
    ensures
        function_module(version, level, mask, x, y) is Some <==> is_function(version, x, y),
{
}

pub(crate) fn function_matrix_of(version: u8, level: EcLevel, mask: u8) -> (drawn: (
    Vec<u8>,
    Vec<bool>,
))
    requires
        valid_version(version as int),
        mask <= 7,
    ensures
        drawn.0@ == function_matrix(version as int, level, mask as int),
        drawn.1@ == function_map(version as int),
{
    let ghost v = version as int;
    let ghost m = mask as int;
    let side: usize = match symbol_size_native(version) {
        Ok(size) => size as usize,
        Err(_) => 0,
    };
    let positions: Vec<u16> = match alignment_positions_native(version) {
        Ok(positions) => positions,
        Err(_) => Vec::new(),
    };
    let version_bits: u32 = match version_bits_native(version) {
        Ok(bits) => bits,
        Err(_) => 0,
    };
    let pattern = Pattern {
        version: version as usize,
        side,
        positions,
        format: format_word_of(level, mask),
        version_bits,
    };
    assert(side * side <= 177 * 177) by (nonlinear_arith)
        requires
            0 <= side <= 177,
    ;
    let mut matrix: Vec<u8> = Vec::new();
    let mut functions: Vec<bool> = Vec::new();
    let mut y: usize = 0;
    while y < side
        invariant
            side == symbol_side(v),
            side <= 177,
            version == v,
            pattern.draws(level, m),
            pattern.version == version,
            pattern.side == side,
            y <= side,
            y * side <= side * side,
            matrix@ == function_matrix(v, level, m).take(y * side),
            functions@ == function_map(v).take(y * side),
        decreases side - y,
    {
        proof {
            assert((y + 1) * side == y * side + side) by (nonlinear_arith);
            assert((y + 1) * side <= side * side) by (nonlinear_arith)
                requires
                    0 <= y < side,
            ;
        }
        let mut x: usize = 0;
        while x < side
            invariant
                side == symbol_side(v),
                side <= 177,
                version == v,
                pattern.draws(level, m),
                pattern.version == version,
                pattern.side == side,
                x <= side,
                y < side,
                0 <= y * side,
                y * side + side <= side * side,
                matrix@ == function_matrix(v, level, m).take(y * side + x),
                functions@ == function_map(v).take(y * side + x),
            decreases side - x,
        {
            let module: Option<bool> = pattern.module(Ghost(level), Ghost(m), x, y);
            proof {
                lemma_function_map(v, level, m, x as int, y as int);
                lemma_cell(side as int, x as int, y as int);
            }
            let byte: u8 = if let Some(true) = module {
                1
            } else {
                0
            };
            matrix.push(byte);
            functions.push(module.is_some());
            assert(matrix@ =~= function_matrix(v, level, m).take(y * side + x + 1));
            assert(functions@ =~= function_map(v).take(y * side + x + 1));
            x += 1;
        }
        y += 1;
    }
    assert(function_matrix(v, level, m).take(side * side) =~= function_matrix(v, level, m));
    assert(function_map(v).take(side * side) =~= function_map(v));
    (matrix, functions)
}

/// Draws the function modules of a symbol, and tells which modules they are.
pub fn function_matrix_native(version: u8, ec_level: &str, mask: u8) -> (drawn: Result<
    (Vec<u8>, Vec<bool>),
    QrError,
>)
    ensures
        drawn is Ok <==> valid_version(version as int) && mask <= 7 && level_named(
            ec_level@,
        ) is Some,
        drawn matches Ok((matrix, functions)) ==> {
            &&& matrix@ == function_matrix(
                version as int,
                level_named(ec_level@)->Some_0,
                mask as int,
            )
            &&& functions@ == function_map(version as int)
        },
        drawn matches Err(error) ==> error == symbol_refusal(version, mask),
{
    match check_symbol(version, ec_level, mask) {
        Ok(level) => Ok(function_matrix_of(version, level, mask)),
        Err(error) => Err(error),
    }
}

/// Why a version, level and mask that do not name a symbol are refused: the
/// version is looked at first, then the mask, then the level.
pub open spec fn symbol_refusal(version: u8, mask: u8) -> QrError {
    if !valid_version(version as int) {
        QrError::Version
    } else if mask > 7 {
        QrError::Mask
    } else {
        QrError::EcLevel
    }
}

pub(crate) fn check_symbol(version: u8, ec_level: &str, mask: u8) -> (checked: Result<
    EcLevel,
    QrError,
>)
    ensures
        checked is Ok <==> valid_version(version as int) && mask <= 7 && level_named(
            ec_level@,
        ) is Some,
        checked matches Ok(level) ==> level_named(ec_level@) == Some(level),
        checked matches Err(error) ==> error == symbol_refusal(version, mask),
{
    if version < 1 || version > 40 {
        return Err(QrError::Version);
    }
    if mask > 7 {
        return Err(QrError::Mask);
    }
    ec_level_named(ec_level)
}

/// What a module is drawn as: 0 for a data module, 1 for a light function
/// module and 2 for a dark one.
pub open spec fn function_codes(version: int, level: EcLevel, mask: int) -> Seq<u8> {
    let side = symbol_side(version);
    Seq::new(
        (side * side) as nat,
        |k: int|
            match function_module(version, level, mask, k % side, k / side) {
                None => 0u8,
                Some(dark) => if dark {
                    2
                } else {
                    1
                },
            },
    )
}

/// Each returned byte is 0 for a data module, 1 for a light function module,
/// and 2 for a dark function module.
pub fn function_modules(version: u8, ec_level: &str, mask: u8) -> (codes: Result<
    Vec<u8>,
    QrError,
>)
    ensures
        codes is Ok <==> valid_version(version as int) && mask <= 7 && level_named(
            ec_level@,
        ) is Some,
        codes matches Ok(bytes) ==> bytes@ == function_codes(
            version as int,
            level_named(ec_level@)->Some_0,
            mask as int,
        ),
        codes matches Err(error) ==> error == symbol_refusal(version, mask),
{
    let level: EcLevel = match check_symbol(version, ec_level, mask) {
        Ok(level) => level,
        Err(error) => {
            return Err(error);
        },
    };
    let (matrix, functions) = function_matrix_of(version, level, mask);
    let ghost v = version as int;
    let ghost m = mask as int;
    let mut codes: Vec<u8> = Vec::new();
    let mut k: usize = 0;
    while k < matrix.len()
        invariant
            v == version,
            m == mask,
            matrix@ == function_matrix(v, level, m),
            functions@ == function_map(v),
            matrix@.len() == functions@.len(),
            k <= matrix@.len(),
            codes@ == function_codes(v, level, m).take(k as int),
        decreases matrix@.len() - k,
    {
        proof {
            let side = symbol_side(v);
            lemma_function_map(v, level, m, k as int % side, k as int / side);
        }
        let code: u8 = if functions[k] {
            matrix[k] + 1
        } else {
            0
        };
        codes.push(code);
        assert(codes@ =~= function_codes(v, level, m).take(k + 1));
        k += 1;
    }
    assert(function_codes(v, level, m).take(k as int) =~= function_codes(v, level, m));
    Ok(codes)
}

} // verus!
