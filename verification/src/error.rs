//! The error values the crate reports.
//!
//! `OutOfBounds` and `InvalidBitPattern` are the two runtime kinds, both
//! recoverable through the checked accessors. `LayoutError` is the
//! construction-time kind: building a layout reports every violation found,
//! never only the first.

use vstd::prelude::*;

verus! {

/// A value to be written cannot be represented in the field's bit width, or
/// the field's codec does not encode it.
#[derive(Clone, Copy, Debug, PartialEq, Eq, Structural)]
pub struct OutOfBounds;

/// Bits read from a buffer do not decode to any valid value of the field's
/// codec; carries the raw bits for diagnostics.
#[derive(Clone, Copy, Debug, PartialEq, Eq, Structural)]
pub struct InvalidBitPattern {
    /// The raw pattern that failed to decode.
    pub invalid_bits: u128,
}

/// One structural violation found while validating a layout.
#[derive(Clone, Copy, Debug, PartialEq, Eq, Structural)]
pub enum LayoutError {
    /// A field's declared width differs from the width its codec reports.
    DeclaredWidthMismatch { field: usize, declared: u64, actual: u64 },
    /// The policy demands a total width that is a multiple of 8, but it is not.
    NotByteMultiple { total_bits: usize },
    /// The policy demands a total width that is no multiple of 8, but it is one.
    ByteMultiple { total_bits: usize },
    /// The asserted byte count differs from the computed byte length.
    ByteCountMismatch { expected: usize, computed: usize },
    /// A primitive representation is asked for whose bit width differs from
    /// the total width.
    ReprMismatch { repr_bits: u64, total_bits: usize },
}

} // verus!
