//! The reasons for which a request is refused.

use vstd::prelude::*;

use crate::text::{decimal, decimal_text};

verus! {

/// Why a request was refused.
#[derive(Clone, Copy, Debug, PartialEq, Eq, Structural)]
pub enum QrError {
    /// The version is not one of the forty of Model 2.
    Version,
    /// No Model 2 symbol has this many modules per side.
    MatrixSize(u16),
    /// The error-correction level is not `L`, `M`, `Q` or `H`.
    EcLevel,
    /// The mask is not one of the eight.
    Mask,
    /// The module matrix does not have the version's dimensions.
    ModuleCount,
    /// There is not one confidence per module.
    ConfidenceCount,
    /// The version takes `expected` codewords, not `actual`.
    CodewordCount {
        expected: usize,
        actual: usize,
    },
    /// There are not eight reliabilities per codeword.
    ReliabilityCount,
    /// The codewords do not fill the block layout.
    LayoutMismatch,
    /// The blocks are not those of the layout.
    BlockCount,
    /// A Reed-Solomon block cannot have these dimensions.
    BlockDimensions,
}

/// The words in which a refusal is reported.
pub open spec fn error_text(error: QrError) -> Seq<char> {
    match error {
        QrError::Version => "version must be between 1 and 40"@,
        QrError::MatrixSize(size) => "invalid QR Model 2 matrix size: "@ + decimal(size as nat),
        QrError::EcLevel => "EC level must be L, M, Q, or H"@,
        QrError::Mask => "mask must be between 0 and 7"@,
        QrError::ModuleCount => "module matrix length does not match version"@,
        QrError::ConfidenceCount => "confidence length does not match module matrix"@,
        QrError::CodewordCount { expected, actual } => "expected "@ + decimal(expected as nat)
            + " codewords, got "@ + decimal(actual as nat),
        QrError::ReliabilityCount => "bit reliability must contain eight values per codeword"@,
        QrError::LayoutMismatch => "codeword count does not match QR block layout"@,
        QrError::BlockCount => "block count does not match layout"@,
        QrError::BlockDimensions => "invalid Reed-Solomon block dimensions"@,
    }
}

impl QrError {
    /// Reports the refusal in words.
    pub fn message(&self) -> (text: String)
        ensures
            text@ == error_text(*self),
    {
        match self {
            QrError::Version => String::from_str("version must be between 1 and 40"),
            QrError::MatrixSize(size) => String::from_str(
                "invalid QR Model 2 matrix size: ",
            ).concat(decimal_text(*size as u64).as_str()),
            QrError::EcLevel => String::from_str("EC level must be L, M, Q, or H"),
            QrError::Mask => String::from_str("mask must be between 0 and 7"),
            QrError::ModuleCount => String::from_str("module matrix length does not match version"),
            QrError::ConfidenceCount => String::from_str(
                "confidence length does not match module matrix",
            ),
            QrError::CodewordCount { expected, actual } => String::from_str("expected ").concat(
                decimal_text(*expected as u64).as_str(),
            ).concat(" codewords, got ").concat(decimal_text(*actual as u64).as_str()),
            QrError::ReliabilityCount => String::from_str(
                "bit reliability must contain eight values per codeword",
            ),
            QrError::LayoutMismatch => String::from_str(
                "codeword count does not match QR block layout",
            ),
            QrError::BlockCount => String::from_str("block count does not match layout"),
            QrError::BlockDimensions => String::from_str("invalid Reed-Solomon block dimensions"),
        }
    }
}

} // verus!
