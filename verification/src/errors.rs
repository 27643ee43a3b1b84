//! Error taxonomy of the board operations.

use vstd::prelude::*;

verus! {

/// Everything that an operation on the board can report.
///
/// `RowNotFound` is returned when a referenced id does not exist,
/// `InvalidOrdinal` when a caller asks for a position outside the valid
/// range of its partition, and `InvalidColor` when a color string cannot
/// be parsed.  A failed operation leaves the board unchanged.
#[derive(Clone, Copy, Debug, PartialEq, Eq, Structural)]
pub enum AppError {
    RowNotFound,
    InvalidOrdinal,
    InvalidColor,
}

impl AppError {
    /// A short human-readable description of the error.
    pub fn message(&self) -> (r: &'static str)
        ensures
            r@ == self.message_spec(),
    {
        match self {
            AppError::RowNotFound => "row not found",
            AppError::InvalidOrdinal => "ordinal out of range",
            AppError::InvalidColor => "invalid color",
        }
    }

    pub open spec fn message_spec(&self) -> Seq<char> {
        match self {
            AppError::RowNotFound => "row not found"@,
            AppError::InvalidOrdinal => "ordinal out of range"@,
            AppError::InvalidColor => "invalid color"@,
        }
    }
}

} // verus!
