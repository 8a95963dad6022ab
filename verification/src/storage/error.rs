//! Rejected block and view geometry.

use vstd::prelude::*;
use crate::text;

verus! {

/// A block or view constructor rejected inconsistent geometry. Each variant
/// carries both sides of the mismatch, in the representation's own row units
/// (single-precision elements, int8 codes, or packed-code bytes).
#[derive(Clone, Copy, Debug, PartialEq, Eq, Structural)]
pub enum StorageError {
    /// The row dimension was zero.
    ZeroDim,
    /// The data length is not a whole number of rows: rows of `dim` in
    /// `F32Block::from_flat`, rows of `stride` in the view constructors.
    Ragged { data_len: usize, row_len: usize },
    /// The stride cannot hold even one row.
    Stride { stride: usize, min_len: usize },
    /// An int8 view carries exactly one scale per row.
    ScaleCount { scales: usize, rows: usize },
    /// More rows than the `u32` id space addresses.
    TooManyRows { rows: usize },
}

impl StorageError {
    /// The text shown to a user.
    pub open spec fn message(self) -> Seq<char> {
        match self {
            StorageError::ZeroDim => "dim must be > 0"@,
            StorageError::Ragged { data_len, row_len } => "data length "@ + text::decimal(
                data_len as nat,
            ) + " is not whole rows of "@ + text::decimal(row_len as nat),
            StorageError::Stride { stride, min_len } => "stride "@ + text::decimal(stride as nat)
                + " cannot hold rows of length "@ + text::decimal(min_len as nat),
            StorageError::ScaleCount { scales, rows } => "expected one scale per row: "@
                + text::decimal(scales as nat) + " vs "@ + text::decimal(rows as nat),
            StorageError::TooManyRows { rows } => text::decimal(rows as nat)
                + " rows exceeds the u32 id space"@,
        }
    }

    /// Renders the message.
    pub fn to_string(&self) -> (r: String)
        ensures
            r@ == self.message(),
    {
        let mut out: String = String::new();
        match *self {
            StorageError::ZeroDim => {
                out.append("dim must be > 0");
            },
            StorageError::Ragged { data_len, row_len } => {
                out.append("data length ");
                text::push_decimal(&mut out, data_len as u128);
                out.append(" is not whole rows of ");
                text::push_decimal(&mut out, row_len as u128);
            },
            StorageError::Stride { stride, min_len } => {
                out.append("stride ");
                text::push_decimal(&mut out, stride as u128);
                out.append(" cannot hold rows of length ");
                text::push_decimal(&mut out, min_len as u128);
            },
            StorageError::ScaleCount { scales, rows } => {
                out.append("expected one scale per row: ");
                text::push_decimal(&mut out, scales as u128);
                out.append(" vs ");
                text::push_decimal(&mut out, rows as u128);
            },
            StorageError::TooManyRows { rows } => {
                text::push_decimal(&mut out, rows as u128);
                out.append(" rows exceeds the u32 id space");
            },
        }
        assert(out@ =~= self.message());
        out
    }
}

} // verus!
