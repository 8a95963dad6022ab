//! Owned row-major single-precision vectors and the borrowed view scans read.
//! Elements are bit patterns.

use vstd::prelude::*;
use crate::storage::Block;
use crate::storage::error::StorageError;
use crate::storage::geometry;

verus! {

/// Row stride in elements: the row's bytes rounded up to the alignment.
pub open spec fn stride_of(dim: nat) -> nat {
    geometry::rounded_up(4 * dim, 64) / 4
}

/// A block of `rows` rows of `dim` elements can be allocated.
pub open spec fn allocatable(rows: nat, dim: nat) -> bool {
    &&& geometry::rounded_up(4 * dim, 64) <= usize::MAX
    &&& rows * geometry::rounded_up(4 * dim, 64) <= isize::MAX
}

/// What is wrong with flat rows of `dim` elements, if anything.
pub open spec fn flat_error(data_len: usize, dim: usize) -> Option<StorageError> {
    if dim == 0 {
        Some(StorageError::ZeroDim)
    } else if data_len % dim != 0 {
        Some(StorageError::Ragged { data_len, row_len: dim })
    } else if data_len / dim > u32::MAX {
        Some(StorageError::TooManyRows { rows: (data_len / dim) as usize })
    } else {
        None
    }
}

/// Owned rows, padded to a 64-byte stride.
pub struct F32Block {
    data: Vec<u32>,
    dim: usize,
    stride: usize,
    len: usize,
}

/// Stride and padding of a row length.
pub proof fn lemma_stride(dim: nat)
    ensures
        dim <= stride_of(dim) < dim + 16,
        4 * stride_of(dim) == geometry::rounded_up(4 * dim, 64),
        (4 * stride_of(dim)) % 64 == 0,
{
    let padded = geometry::rounded_up(4 * dim, 64);
    let q = (4 * dim + 63) as nat / 64;
    assert(padded == 64 * q);
    assert(stride_of(dim) == 16 * q);
}

impl F32Block {
    /// The rows, without padding.
    pub closed spec fn matrix(&self) -> Seq<Seq<u32>> {
        geometry::strided(self.data@, self.dim as nat, self.stride as nat)
    }

    /// Elements per row.
    pub closed spec fn columns(&self) -> nat {
        self.dim as nat
    }

    #[verifier::type_invariant]
    pub closed spec fn wf(&self) -> bool {
        &&& 0 < self.dim <= self.stride
        &&& self.stride == stride_of(self.dim as nat)
        &&& self.data@.len() % self.stride as nat == 0
        &&& self.len == self.data@.len() / self.stride as nat
        &&& self.len <= u32::MAX
        &&& allocatable(self.len as nat, self.dim as nat)
    }

    /// Copies `data.len() / dim` rows into a padded block. Fails where `data`
    /// is not whole rows of a positive `dim`, or has more rows than ids.
    pub fn from_flat(data: &[u32], dim: usize) -> (r: Result<Self, StorageError>)
        requires
            flat_error(data@.len() as usize, dim) is None ==> allocatable(
                data@.len() / dim as nat,
                dim as nat,
            ),
        ensures
            r is Err <==> flat_error(data@.len() as usize, dim) is Some,
            r matches Err(e) ==> flat_error(data@.len() as usize, dim) == Some(e),
            r matches Ok(block) ==> {
                &&& block.columns() == dim
                &&& block.matrix() == geometry::strided(data@, dim as nat, dim as nat)
            },
    {
        let total: usize = data.len();
        if dim == 0 {
            return Err(StorageError::ZeroDim);
        }
        if total % dim != 0 {
            return Err(StorageError::Ragged { data_len: total, row_len: dim });
        }
        let len: usize = total / dim;
        match geometry::check_rows(len) {
            Err(e) => {
                return Err(e);
            },
            Ok(()) => {},
        }
        proof {
            lemma_stride(dim as nat);
        }
        let stride: usize = geometry::round_up(4 * dim, geometry::ROW_ALIGN) / 4;
        let mut padded: Vec<u32> = Vec::new();
        let ghost all = geometry::strided(data@, dim as nat, dim as nat);
        let mut i: usize = 0;
        proof {
            geometry::lemma_strided_empty::<u32>(dim as nat, stride as nat);
            assert(all.take(0) =~= Seq::<Seq<u32>>::empty());
        }
        while i < len
            invariant
                i <= len == data@.len() / dim as nat,
                len <= u32::MAX,
                0 < dim <= stride,
                all == geometry::strided(data@, dim as nat, dim as nat),
                padded@.len() % stride as nat == 0,
                padded@.len() / stride as nat == i,
                geometry::strided(padded@, dim as nat, stride as nat) == all.take(i as int),
            decreases len - i,
        {
            let row: &[u32] = geometry::row_at(data, dim, dim, i);
            geometry::push_padded(&mut padded, row, stride, 0);
            i += 1;
            assert(geometry::strided(padded@, dim as nat, stride as nat) =~= all.take(i as int));
        }
        assert(all.take(len as int) =~= all);
        Ok(F32Block { data: padded, dim, stride, len })
    }

    /// Shows the geometry.
    pub fn debug_text(&self) -> (r: String)
        ensures
            r@ == geometry::described(
                "F32Block"@,
                self.matrix().len(),
                "dim"@,
                self.columns(),
                "stride"@,
                stride_of(self.columns()),
            ),
    {
        proof {
            use_type_invariant(self);
        }
        geometry::describe("F32Block", self.len, "dim", self.dim, "stride", self.stride)
    }
}

impl Block for F32Block {
    type View<'a> = F32View<'a>;

    open spec fn row_count(&self) -> nat {
        self.matrix().len()
    }

    open spec fn width(&self) -> nat {
        self.columns()
    }

    fn len(&self) -> (r: usize)
        ensures
            r <= u32::MAX,
    {
        proof {
            use_type_invariant(self);
        }
        self.len
    }

    fn dim(&self) -> (r: usize)
        ensures
            r > 0,
            allocatable(self.matrix().len(), self.columns()),
    {
        proof {
            use_type_invariant(self);
        }
        self.dim
    }

    fn view(&self) -> (r: F32View<'_>)
        ensures
            r.matrix() == self.matrix(),
            r.columns() == self.columns(),
            r.spacing() == stride_of(self.columns()),
    {
        proof {
            use_type_invariant(self);
        }
        F32View { data: self.data.as_slice(), dim: self.dim, stride: self.stride }
    }
}

/// Borrowed row-major data.
#[derive(Clone, Copy)]
pub struct F32View<'a> {
    data: &'a [u32],
    dim: usize,
    stride: usize,
}

impl<'a> F32View<'a> {
    /// The rows, without padding.
    pub closed spec fn matrix(&self) -> Seq<Seq<u32>> {
        geometry::strided(self.data@, self.dim as nat, self.stride as nat)
    }

    /// Elements per row.
    pub closed spec fn columns(&self) -> nat {
        self.dim as nat
    }

    /// Elements from one row's start to the next.
    pub closed spec fn spacing(&self) -> nat {
        self.stride as nat
    }

    #[verifier::type_invariant]
    pub closed spec fn wf(&self) -> bool {
        &&& 0 < self.dim <= self.stride
        &&& self.data@.len() % self.stride as nat == 0
        &&& self.data@.len() / self.stride as nat <= u32::MAX
    }

    /// Wraps raw parts. Fails unless `stride >= dim > 0`, `data` is whole
    /// strided rows and the row count fits the id space.
    pub fn new(data: &'a [u32], dim: usize, stride: usize) -> (r: Result<Self, StorageError>)
        ensures
            r is Err <==> geometry::shape_error(data@.len() as usize, dim, dim, stride) is Some,
            r matches Err(e) ==> geometry::shape_error(data@.len() as usize, dim, dim, stride)
                == Some(e),
            r matches Ok(view) ==> {
                &&& view.columns() == dim
                &&& view.spacing() == stride
                &&& view.matrix() == geometry::strided(data@, dim as nat, stride as nat)
            },
    {
        let total: usize = data.len();
        if dim == 0 {
            return Err(StorageError::ZeroDim);
        }
        if stride < dim {
            return Err(StorageError::Stride { stride, min_len: dim });
        }
        if total % stride != 0 {
            return Err(StorageError::Ragged { data_len: total, row_len: stride });
        }
        match geometry::check_rows(total / stride) {
            Err(e) => {
                return Err(e);
            },
            Ok(()) => {},
        }
        Ok(F32View { data, dim, stride })
    }

    /// Number of rows.
    pub fn len(&self) -> (r: usize)
        ensures
            r == self.matrix().len(),
            r <= u32::MAX,
    {
        proof {
            use_type_invariant(self);
        }
        self.data.len() / self.stride
    }

    /// Whether the view has no row.
    pub fn is_empty(&self) -> (r: bool)
        ensures
            r == (self.matrix().len() == 0),
    {
        proof {
            use_type_invariant(self);
        }
        self.len() == 0
    }

    /// Elements per row.
    pub fn dim(&self) -> (r: usize)
        ensures
            r == self.columns(),
            r > 0,
    {
        proof {
            use_type_invariant(self);
        }
        self.dim
    }

    /// Elements from one row's start to the next.
    pub fn stride(&self) -> (r: usize)
        ensures
            r == self.spacing(),
    {
        self.stride
    }

    /// Row `i`, without padding.
    pub fn row(&self, i: u32) -> (r: &'a [u32])
        requires
            i < self.matrix().len(),
        ensures
            r@ == self.matrix()[i as int],
            r@.len() == self.columns(),
    {
        proof {
            use_type_invariant(self);
        }
        geometry::row_at(self.data, self.dim, self.stride, i as usize)
    }

    /// Shows the geometry.
    pub fn debug_text(&self) -> (r: String)
        ensures
            r@ == geometry::described(
                "F32View"@,
                self.matrix().len(),
                "dim"@,
                self.columns(),
                "stride"@,
                self.spacing(),
            ),
    {
        geometry::describe("F32View", self.len(), "dim", self.dim, "stride", self.stride)
    }
}

} // verus!
