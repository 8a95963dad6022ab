//! Owned row-major blocks and the borrowed views scans operate on.
//!
//! Blocks are containers that copy or quantize on construction and share the
//! [`Block`] trait; all reading goes through views that can be copied, so the
//! scan code does not change where rows come from elsewhere than a block.
//!
//! Constructors that take foreign geometry validate it and return
//! [`StorageError`]; the quantizing constructors cannot fail because their
//! source block is already valid. Row accessors require an id in range.
//!
//! Row starts are padded to a 64-byte stride. Views require only that the
//! stride holds a row.

use vstd::prelude::*;
use crate::query::CorpusView;

pub mod binary;
pub mod error;
pub mod geometry;
pub mod int8;
pub mod laws;
pub mod single;

pub use binary::{BinaryBlock, BinaryView};
pub use error::StorageError;
pub use int8::{I8Block, I8View};
pub use single::{F32Block, F32View};

verus! {

/// What every owned block shares: its geometry and the borrowed view that
/// scans read. The dimension is in original-vector units (a binary block
/// reports bits).
pub trait Block {
    /// The view that the block lends out.
    type View<'a>: CorpusView where Self: 'a;

    /// Number of rows.
    spec fn row_count(&self) -> nat;

    /// Row dimension in original-vector units.
    spec fn width(&self) -> nat;

    /// Rows in the block.
    fn len(&self) -> (r: usize)
        ensures
            r == self.row_count(),
    ;

    /// Row dimension in original-vector units.
    fn dim(&self) -> (r: usize)
        ensures
            r == self.width(),
    ;

    /// Whether the block has no row.
    fn is_empty(&self) -> (r: bool)
        ensures
            r == (self.row_count() == 0),
    {
        self.len() == 0
    }

    /// Borrowed view for scanning.
    fn view(&self) -> (r: Self::View<'_>)
        ensures
            r.row_count() == self.row_count(),
            r.width() == self.width(),
    ;
}

/// In every representation a row starts a multiple of 64 bytes after the
/// first one, and padding takes less than 64 bytes per row.
pub proof fn law_row_starts_are_aligned(dim: nat)
    ensures
        (4 * single::stride_of(dim)) % 64 == 0,
        4 * dim <= 4 * single::stride_of(dim) < 4 * dim + 64,
        int8::stride_of(dim) % 64 == 0,
        dim <= int8::stride_of(dim) < dim + 64,
        binary::stride_of(dim) % 64 == 0,
        crate::kernels::code_len(dim) <= binary::stride_of(dim) < crate::kernels::code_len(dim)
            + 64,
{
    single::lemma_stride(dim);
    geometry::lemma_rounded_up(dim, 64);
    geometry::lemma_rounded_up(crate::kernels::code_len(dim), 64);
}

} // verus!
