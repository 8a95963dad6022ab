//! Owned sign-bit-packed codes and the borrowed view scans read.

use vstd::prelude::*;
use crate::kernels;
use crate::quant::binary;
use crate::storage::Block;
use crate::storage::error::StorageError;
use crate::storage::geometry;
use crate::storage::single::{F32Block, F32View};

verus! {

/// Row stride in bytes.
pub open spec fn stride_of(dim: nat) -> nat {
    geometry::rounded_up(kernels::code_len(dim), 64)
}

/// Every code packs the signs of its row.
pub open spec fn rows_packed(rows: Seq<Seq<u32>>, codes: Seq<Seq<u8>>) -> bool {
    &&& codes.len() == rows.len()
    &&& forall|i: int| 0 <= i < rows.len() ==> binary::packs(rows[i], #[trigger] codes[i])
}

/// Owned sign-bit-packed vectors, most significant bit first.
pub struct BinaryBlock {
    data: Vec<u8>,
    dim_bits: usize,
    stride_bytes: usize,
    len: usize,
}

impl BinaryBlock {
    /// The code rows, without padding.
    pub closed spec fn matrix(&self) -> Seq<Seq<u8>> {
        geometry::strided(
            self.data@,
            kernels::code_len(self.dim_bits as nat),
            self.stride_bytes as nat,
        )
    }

    /// Bits per row.
    pub closed spec fn columns(&self) -> nat {
        self.dim_bits as nat
    }

    #[verifier::type_invariant]
    pub closed spec fn wf(&self) -> bool {
        &&& 0 < self.dim_bits
        &&& 0 < kernels::code_len(self.dim_bits as nat) <= self.stride_bytes
        &&& self.stride_bytes == stride_of(self.dim_bits as nat)
        &&& self.data@.len() % self.stride_bytes as nat == 0
        &&& self.len == self.data@.len() / self.stride_bytes as nat
        &&& self.len <= u32::MAX
    }

    /// Packs the sign bits of each row of `src`: a positive element sets its
    /// bit.
    pub fn from_f32(src: &F32Block) -> (r: Self)
        ensures
            r.columns() == src.columns(),
            rows_packed(src.matrix(), r.matrix()),
    {
        let (dim, len): (usize, usize) = (src.dim(), src.len());
        let code_len: usize = kernels::binary_code_len(dim);
        proof {
            geometry::lemma_rounded_up(code_len as nat, 64);
            geometry::lemma_rounded_up(4 * dim as nat, 64);
        }
        let stride: usize = geometry::round_up(code_len, geometry::ROW_ALIGN);
        let mut data: Vec<u8> = Vec::new();
        let view: F32View<'_> = src.view();
        proof {
            geometry::lemma_strided_empty::<u8>(code_len as nat, stride as nat);
        }
        let mut i: usize = 0;
        while i < len
            invariant
                i <= len <= u32::MAX,
                0 < dim,
                0 < code_len <= stride,
                code_len == kernels::code_len(dim as nat),
                len == src.matrix().len(),
                dim == src.columns(),
                view.matrix() == src.matrix(),
                view.columns() == dim,
                data@.len() % stride as nat == 0,
                data@.len() / stride as nat == i,
                rows_packed(
                    src.matrix().take(i as int),
                    geometry::strided(data@, code_len as nat, stride as nat),
                ),
            decreases len - i,
        {
            let row: &[u32] = view.row(i as u32);
            let code: Vec<u8> = binary::pack_sign_bits_vec(row);
            let ghost old_codes = geometry::strided(data@, code_len as nat, stride as nat);
            let ghost old_rows = src.matrix().take(i as int);
            geometry::push_padded(&mut data, code.as_slice(), stride, 0);
            i += 1;
            proof {
                let rows = src.matrix().take(i as int);
                let codes = geometry::strided(data@, code_len as nat, stride as nat);
                assert(rows =~= old_rows.push(row@));
                assert(codes == old_codes.push(code@));
                assert forall|k: int| 0 <= k < rows.len() implies binary::packs(
                    rows[k],
                    #[trigger] codes[k],
                ) by {
                    if k < i - 1 {
                        assert(codes[k] == old_codes[k]);
                        assert(rows[k] == old_rows[k]);
                    }
                }
            }
        }
        assert(src.matrix().take(len as int) =~= src.matrix());
        BinaryBlock { data, dim_bits: dim, stride_bytes: stride, len }
    }

    /// Shows the geometry.
    pub fn debug_text(&self) -> (r: String)
        ensures
            r@ == geometry::described(
                "BinaryBlock"@,
                self.matrix().len(),
                "dim_bits"@,
                self.columns(),
                "stride_bytes"@,
                stride_of(self.columns()),
            ),
    {
        proof {
            use_type_invariant(self);
        }
        geometry::describe(
            "BinaryBlock",
            self.len,
            "dim_bits",
            self.dim_bits,
            "stride_bytes",
            self.stride_bytes,
        )
    }
}

impl Block for BinaryBlock {
    type View<'a> = BinaryView<'a>;

    open spec fn row_count(&self) -> nat {
        self.matrix().len()
    }

    open spec fn width(&self) -> nat {
        self.columns()
    }

    fn len(&self) -> (r: usize) {
        proof {
            use_type_invariant(self);
        }
        self.len
    }

    fn dim(&self) -> (r: usize) {
        self.dim_bits
    }

    fn view(&self) -> (r: BinaryView<'_>)
        ensures
            r.matrix() == self.matrix(),
            r.columns() == self.columns(),
            r.spacing() == stride_of(self.columns()),
    {
        proof {
            use_type_invariant(self);
        }
        BinaryView {
            data: self.data.as_slice(),
            dim_bits: self.dim_bits,
            stride_bytes: self.stride_bytes,
        }
    }
}

/// Borrowed packed sign-bit codes.
#[derive(Clone, Copy)]
pub struct BinaryView<'a> {
    data: &'a [u8],
    dim_bits: usize,
    stride_bytes: usize,
}

impl<'a> BinaryView<'a> {
    /// The code rows, without padding.
    pub closed spec fn matrix(&self) -> Seq<Seq<u8>> {
        geometry::strided(
            self.data@,
            kernels::code_len(self.dim_bits as nat),
            self.stride_bytes as nat,
        )
    }

    /// Bits per row.
    pub closed spec fn columns(&self) -> nat {
        self.dim_bits as nat
    }

    /// Bytes from one row's start to the next.
    pub closed spec fn spacing(&self) -> nat {
        self.stride_bytes as nat
    }

    #[verifier::type_invariant]
    pub closed spec fn wf(&self) -> bool {
        &&& 0 < self.dim_bits
        &&& 0 < kernels::code_len(self.dim_bits as nat) <= self.stride_bytes
        &&& self.data@.len() % self.stride_bytes as nat == 0
        &&& self.data@.len() / self.stride_bytes as nat <= u32::MAX
    }

    /// Wraps raw parts. Fails unless the stride holds a code of `dim_bits`
    /// bits and `data` is whole strided rows.
    pub fn new(data: &'a [u8], dim_bits: usize, stride_bytes: usize) -> (r: Result<
        Self,
        StorageError,
    >)
        ensures
            r is Err <==> geometry::shape_error(
                data@.len() as usize,
                dim_bits,
                kernels::code_len(dim_bits as nat) as usize,
                stride_bytes,
            ) is Some,
            r matches Err(e) ==> geometry::shape_error(
                data@.len() as usize,
                dim_bits,
                kernels::code_len(dim_bits as nat) as usize,
                stride_bytes,
            ) == Some(e),
            r matches Ok(view) ==> {
                &&& view.columns() == dim_bits
                &&& view.spacing() == stride_bytes
                &&& view.matrix() == geometry::strided(
                    data@,
                    kernels::code_len(dim_bits as nat),
                    stride_bytes as nat,
                )
            },
    {
        let total: usize = data.len();
        if dim_bits == 0 {
            return Err(StorageError::ZeroDim);
        }
        let code_len: usize = kernels::binary_code_len(dim_bits);
        if stride_bytes < code_len {
            return Err(StorageError::Stride { stride: stride_bytes, min_len: code_len });
        }
        if total % stride_bytes != 0 {
            return Err(StorageError::Ragged { data_len: total, row_len: stride_bytes });
        }
        match geometry::check_rows(total / stride_bytes) {
            Err(e) => {
                return Err(e);
            },
            Ok(()) => {},
        }
        Ok(BinaryView { data, dim_bits, stride_bytes })
    }

    /// Number of rows.
    pub fn len(&self) -> (r: usize)
        ensures
            r == self.matrix().len(),
            r <= u32::MAX,
    {
        proof {
            use_type_invariant(self);
        }
        self.data.len() / self.stride_bytes
    }

    /// Whether the view has no row.
    pub fn is_empty(&self) -> (r: bool)
        ensures
            r == (self.matrix().len() == 0),
    {
        self.len() == 0
    }

    /// Bits per row.
    pub fn dim(&self) -> (r: usize)
        ensures
            r == self.columns(),
            r > 0,
    {
        proof {
            use_type_invariant(self);
        }
        self.dim_bits
    }

    /// Row `i`, without padding.
    pub fn row(&self, i: u32) -> (r: &'a [u8])
        requires
            i < self.matrix().len(),
        ensures
            r@ == self.matrix()[i as int],
            r@.len() == kernels::code_len(self.columns()),
    {
        proof {
            use_type_invariant(self);
        }
        geometry::row_at(
            self.data,
            kernels::binary_code_len(self.dim_bits),
            self.stride_bytes,
            i as usize,
        )
    }

    /// Shows the geometry.
    pub fn debug_text(&self) -> (r: String)
        ensures
            r@ == geometry::described(
                "BinaryView"@,
                self.matrix().len(),
                "dim_bits"@,
                self.columns(),
                "stride_bytes"@,
                self.spacing(),
            ),
    {
        geometry::describe(
            "BinaryView",
            self.len(),
            "dim_bits",
            self.dim_bits,
            "stride_bytes",
            self.stride_bytes,
        )
    }
}

} // verus!
