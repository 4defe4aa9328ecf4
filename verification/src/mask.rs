//! The eight data masks.

use vstd::prelude::*;

use crate::error::QrError;

verus! {

/// Whether `mask` inverts the data module in column `x` of row `y`.
pub open spec fn mask_inverts(mask: int, x: int, y: int) -> bool {
    if mask == 0 {
        (x + y) % 2 == 0
    } else if mask == 1 {
        y % 2 == 0
    } else if mask == 2 {
        x % 3 == 0
    } else if mask == 3 {
        (x + y) % 3 == 0
    } else if mask == 4 {
        (x / 3 + y / 2) % 2 == 0
    } else if mask == 5 {
        (x * y) % 2 + (x * y) % 3 == 0
    } else if mask == 6 {
        ((x * y) % 2 + (x * y) % 3) % 2 == 0
    } else {
        ((x + y) % 2 + (x * y) % 3) % 2 == 0
    }
}

/// Whether `mask` inverts the data module in column `x` of row `y`.
pub fn mask_applies_native(mask: u8, x: u16, y: u16) -> (inverts: Result<bool, QrError>)
    ensures
        inverts is Ok <==> mask <= 7,
        inverts matches Ok(value) ==> value == mask_inverts(mask as int, x as int, y as int),
        inverts matches Err(error) ==> error == QrError::Mask,
{
    if mask > 7 {
        return Err(QrError::Mask);
    }
    let x: u32 = x as u32;
    let y: u32 = y as u32;
    assert(0 <= x * y <= 65535 * 65535) by (nonlinear_arith)
        requires
            x <= 65535,
            y <= 65535,
    ;
    let value: u32 = match mask {
        0 => (x + y) % 2,
        1 => y % 2,
        2 => x % 3,
        3 => (x + y) % 3,
        4 => (x / 3 + y / 2) % 2,
        5 => (x * y) % 2 + (x * y) % 3,
        6 => ((x * y) % 2 + (x * y) % 3) % 2,
        _ => ((x + y) % 2 + (x * y) % 3) % 2,
    };
    Ok(value == 0)
}

} // verus!
