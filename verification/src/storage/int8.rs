//! Owned int8 codes with per-vector scales, and the borrowed view scans read.

use vstd::prelude::*;
use crate::quant::int8;
use crate::storage::Block;
use crate::storage::error::StorageError;
use crate::storage::geometry;
use crate::storage::single::{F32Block, F32View};

verus! {

/// Row stride in codes.
pub open spec fn stride_of(dim: nat) -> nat {
    geometry::rounded_up(dim, 64)
}

/// What is wrong with the raw parts of a view, if anything.
pub open spec fn parts_error(
    data_len: usize,
    scales: usize,
    dim: usize,
    stride: usize,
) -> Option<StorageError> {
    match geometry::shape_error(data_len, dim, dim, stride) {
        Some(e) => Some(e),
        None => if scales != data_len / stride {
            Some(StorageError::ScaleCount { scales, rows: (data_len / stride) as usize })
        } else {
            None
        },
    }
}

/// Every row of `codes` quantizes its row of `rows` with its scale.
pub open spec fn rows_quantized<V: Fn(u32, u32) -> u32>(
    over: V,
    rows: Seq<Seq<u32>>,
    scales: Seq<u32>,
    codes: Seq<Seq<i8>>,
) -> bool {
    &&& codes.len() == rows.len()
    &&& scales.len() == rows.len()
    &&& forall|i: int|
        0 <= i < rows.len() ==> int8::quantized(
            over,
            rows[i],
            scales[i],
            #[trigger] codes[i],
        )
}

/// Every scale is one that `scale_of` gives for its row.
pub open spec fn scales_from<S: Fn(&[u32]) -> u32>(
    scale_of: S,
    rows: Seq<Seq<u32>>,
    scales: Seq<u32>,
) -> bool {
    &&& scales.len() == rows.len()
    &&& forall|i: int| 0 <= i < rows.len() ==> scale_given(scale_of, rows[i], #[trigger] scales[i])
}

/// `scale_of` gives `scale` for a slice that holds `row`.
pub open spec fn scale_given<S: Fn(&[u32]) -> u32>(
    scale_of: S,
    row: Seq<u32>,
    scale: u32,
) -> bool {
    exists|slice: &[u32]| slice@ == row && #[trigger] call_ensures(scale_of, (slice,), scale)
}

/// Owned codes with per-vector scales: an element is about `code * scale`.
pub struct I8Block {
    data: Vec<i8>,
    scales: Vec<u32>,
    dim: usize,
    stride: usize,
    len: usize,
}

impl I8Block {
    /// The code rows, without padding.
    pub closed spec fn matrix(&self) -> Seq<Seq<i8>> {
        geometry::strided(self.data@, self.dim as nat, self.stride as nat)
    }

    /// One scale per row.
    pub closed spec fn row_scales(&self) -> Seq<u32> {
        self.scales@
    }

    /// Codes per row.
    pub closed spec fn columns(&self) -> nat {
        self.dim as nat
    }

    #[verifier::type_invariant]
    pub closed spec fn wf(&self) -> bool {
        &&& 0 < self.dim <= self.stride
        &&& self.stride == stride_of(self.dim as nat)
        &&& self.data@.len() % self.stride as nat == 0
        &&& self.len == self.data@.len() / self.stride as nat
        &&& self.len <= u32::MAX
        &&& self.scales@.len() == self.len
    }

    /// Quantizes each row of `src` with its own `max|x| / 127` scale
    /// (all-zero rows get scale 0 and all-zero codes).
    pub fn from_f32_per_vector<V: Fn(u32, u32) -> u32>(
        src: &F32Block,
        over: &V,
    ) -> (r: Self)
        requires
            forall|x: u32, y: u32| call_requires(*over, (x, y)),
        ensures
            r.columns() == src.columns(),
            rows_quantized(*over, src.matrix(), r.row_scales(), r.matrix()),
            forall|i: int|
                0 <= i < src.matrix().len() ==> int8::is_scale(
                    *over,
                    src.matrix()[i],
                    #[trigger] r.row_scales()[i],
                ),
    {
        let scale_of = |row: &[u32]| -> (s: u32)
            ensures
                int8::is_scale(*over, row@, s),
            { int8::max_abs_scale(row, over) };
        let r = I8Block::quantize_rows(src, &scale_of, over);
        assert forall|i: int| 0 <= i < src.matrix().len() implies int8::is_scale(
            *over,
            src.matrix()[i],
            #[trigger] r.row_scales()[i],
        ) by {
            assert(scale_given(scale_of, src.matrix()[i], r.row_scales()[i]));
        }
        r
    }

    /// Quantizes every row with one scale of the caller's.
    pub fn from_f32_fixed<V: Fn(u32, u32) -> u32>(
        src: &F32Block,
        scale: u32,
        over: &V,
    ) -> (r: Self)
        requires
            forall|x: u32, y: u32| call_requires(*over, (x, y)),
        ensures
            r.columns() == src.columns(),
            rows_quantized(*over, src.matrix(), r.row_scales(), r.matrix()),
            forall|i: int|
                0 <= i < src.matrix().len() ==> #[trigger] r.row_scales()[i] == scale,
    {
        let scale_of = |row: &[u32]| -> (s: u32)
            ensures
                s == scale,
            { scale };
        let r = I8Block::quantize_rows(src, &scale_of, over);
        assert forall|i: int| 0 <= i < src.matrix().len() implies #[trigger] r.row_scales()[i]
            == scale by {
            assert(scale_given(scale_of, src.matrix()[i], r.row_scales()[i]));
        }
        r
    }

    /// Quantizes each row of `src` with the scale that `scale_of` gives for it.
    fn quantize_rows<
        S: Fn(&[u32]) -> u32,
        V: Fn(u32, u32) -> u32,
    >(src: &F32Block, scale_of: &S, over: &V) -> (r: Self)
        requires
            forall|row: &[u32]| call_requires(*scale_of, (row,)),
            forall|x: u32, y: u32| call_requires(*over, (x, y)),
        ensures
            r.columns() == src.columns(),
            rows_quantized(*over, src.matrix(), r.row_scales(), r.matrix()),
            scales_from(*scale_of, src.matrix(), r.row_scales()),
    {
        let (dim, len): (usize, usize) = (src.dim(), src.len());
        proof {
            geometry::lemma_rounded_up(dim as nat, 64);
            geometry::lemma_rounded_up(4 * dim as nat, 64);
        }
        let stride: usize = geometry::round_up(dim, geometry::ROW_ALIGN);
        let mut data: Vec<i8> = Vec::new();
        let mut scales: Vec<u32> = Vec::new();
        let view: F32View<'_> = src.view();
        proof {
            geometry::lemma_strided_empty::<i8>(dim as nat, stride as nat);
        }
        let mut i: usize = 0;
        while i < len
            invariant
                i <= len <= u32::MAX,
                0 < dim <= stride,
                len == src.matrix().len(),
                dim == src.columns(),
                view.matrix() == src.matrix(),
                view.columns() == dim,
                forall|row: &[u32]| call_requires(*scale_of, (row,)),
                forall|x: u32, y: u32| call_requires(*over, (x, y)),
                data@.len() % stride as nat == 0,
                data@.len() / stride as nat == i,
                rows_quantized(
                    *over,
                    src.matrix().take(i as int),
                    scales@,
                    geometry::strided(data@, dim as nat, stride as nat),
                ),
                scales_from(*scale_of, src.matrix().take(i as int), scales@),
            decreases len - i,
        {
            let row: &[u32] = view.row(i as u32);
            let scale: u32 = scale_of(row);
            let codes: Vec<i8> = int8::quantize_i8_vec(row, scale, over);
            let ghost old_codes = geometry::strided(data@, dim as nat, stride as nat);
            let ghost old_scales = scales@;
            let ghost old_rows = src.matrix().take(i as int);
            geometry::push_padded(&mut data, codes.as_slice(), stride, 0);
            scales.push(scale);
            i += 1;
            proof {
                let rows = src.matrix().take(i as int);
                let new_codes = geometry::strided(data@, dim as nat, stride as nat);
                assert(rows =~= old_rows.push(row@));
                assert(new_codes == old_codes.push(codes@));
                assert(scale_given(*scale_of, row@, scale));
                assert forall|k: int| 0 <= k < rows.len() implies int8::quantized(
                    *over,
                    rows[k],
                    scales@[k],
                    #[trigger] new_codes[k],
                ) by {
                    if k < i - 1 {
                        assert(new_codes[k] == old_codes[k]);
                        assert(scales@[k] == old_scales[k]);
                        assert(rows[k] == old_rows[k]);
                    }
                }
                assert forall|k: int| 0 <= k < rows.len() implies scale_given(
                    *scale_of,
                    rows[k],
                    #[trigger] scales@[k],
                ) by {
                    if k < i - 1 {
                        assert(scales@[k] == old_scales[k]);
                        assert(rows[k] == old_rows[k]);
                    }
                }
            }
        }
        assert(src.matrix().take(len as int) =~= src.matrix());
        I8Block { data, scales, dim, stride, len }
    }

    /// Shows the geometry.
    pub fn debug_text(&self) -> (r: String)
        ensures
            r@ == geometry::described(
                "I8Block"@,
                self.matrix().len(),
                "dim"@,
                self.columns(),
                "stride"@,
                stride_of(self.columns()),
            ),
    {
        proof {
            use_type_invariant(self);
        }
        geometry::describe("I8Block", self.len, "dim", self.dim, "stride", self.stride)
    }
}

impl Block for I8Block {
    type View<'a> = I8View<'a>;

    open spec fn row_count(&self) -> nat {
        self.matrix().len()
    }

    open spec fn width(&self) -> nat {
        self.columns()
    }

    fn len(&self) -> (r: usize) {
        proof {
            use_type_invariant(self);
        }
        self.len
    }

    fn dim(&self) -> (r: usize) {
        self.dim
    }

    fn view(&self) -> (r: I8View<'_>)
        ensures
            r.matrix() == self.matrix(),
            r.row_scales() == self.row_scales(),
            r.columns() == self.columns(),
            r.spacing() == stride_of(self.columns()),
    {
        proof {
            use_type_invariant(self);
        }
        I8View {
            data: self.data.as_slice(),
            scales: self.scales.as_slice(),
            dim: self.dim,
            stride: self.stride,
        }
    }
}

/// Borrowed codes and their per-row scales.
#[derive(Clone, Copy)]
pub struct I8View<'a> {
    data: &'a [i8],
    scales: &'a [u32],
    dim: usize,
    stride: usize,
}

impl<'a> I8View<'a> {
    /// The code rows, without padding.
    pub closed spec fn matrix(&self) -> Seq<Seq<i8>> {
        geometry::strided(self.data@, self.dim as nat, self.stride as nat)
    }

    /// One scale per row.
    pub closed spec fn row_scales(&self) -> Seq<u32> {
        self.scales@
    }

    /// Codes per row.
    pub closed spec fn columns(&self) -> nat {
        self.dim as nat
    }

    /// Codes from one row's start to the next.
    pub closed spec fn spacing(&self) -> nat {
        self.stride as nat
    }

    #[verifier::type_invariant]
    pub closed spec fn wf(&self) -> bool {
        &&& 0 < self.dim <= self.stride
        &&& self.data@.len() % self.stride as nat == 0
        &&& self.data@.len() / self.stride as nat <= u32::MAX
        &&& self.scales@.len() == self.data@.len() / self.stride as nat
    }

    /// Wraps raw parts. Fails unless the shapes are consistent
    /// (`stride >= dim > 0`, whole rows, one scale per row).
    pub fn new(data: &'a [i8], scales: &'a [u32], dim: usize, stride: usize) -> (r: Result<
        Self,
        StorageError,
    >)
        ensures
            r is Err <==> parts_error(
                data@.len() as usize,
                scales@.len() as usize,
                dim,
                stride,
            ) is Some,
            r matches Err(e) ==> parts_error(
                data@.len() as usize,
                scales@.len() as usize,
                dim,
                stride,
            ) == Some(e),
            r matches Ok(view) ==> {
                &&& view.columns() == dim
                &&& view.spacing() == stride
                &&& view.row_scales() == scales@
                &&& view.matrix() == geometry::strided(data@, dim as nat, stride as nat)
            },
    {
        let total: usize = data.len();
        if dim == 0 {
            return Err(StorageError::ZeroDim);
        }
        if stride < dim {
            return Err(StorageError::Stride { stride, min_len: dim });
        }
        if total % stride != 0 {
            return Err(StorageError::Ragged { data_len: total, row_len: stride });
        }
        let len: usize = total / stride;
        match geometry::check_rows(len) {
            Err(e) => {
                return Err(e);
            },
            Ok(()) => {},
        }
        let count: usize = scales.len();
        if count != len {
            return Err(StorageError::ScaleCount { scales: count, rows: len });
        }
        Ok(I8View { data, scales, dim, stride })
    }

    /// Number of rows.
    pub fn len(&self) -> (r: usize)
        ensures
            r == self.matrix().len(),
            r == self.row_scales().len(),
            r <= u32::MAX,
    {
        proof {
            use_type_invariant(self);
        }
        self.data.len() / self.stride
    }

    /// Whether the view has no row.
    pub fn is_empty(&self) -> (r: bool)
        ensures
            r == (self.matrix().len() == 0),
    {
        self.len() == 0
    }

    /// Codes per row.
    pub fn dim(&self) -> (r: usize)
        ensures
            r == self.columns(),
            r > 0,
    {
        proof {
            use_type_invariant(self);
        }
        self.dim
    }

    /// Row `i`, without padding.
    pub fn row(&self, i: u32) -> (r: &'a [i8])
        requires
            i < self.matrix().len(),
        ensures
            r@ == self.matrix()[i as int],
            r@.len() == self.columns(),
    {
        proof {
            use_type_invariant(self);
        }
        geometry::row_at(self.data, self.dim, self.stride, i as usize)
    }

    /// Scale of row `i`.
    pub fn scale(&self, i: u32) -> (r: u32)
        requires
            i < self.matrix().len(),
        ensures
            r == self.row_scales()[i as int],
    {
        proof {
            use_type_invariant(self);
        }
        self.scales[i as usize]
    }

    /// Shows the geometry.
    pub fn debug_text(&self) -> (r: String)
        ensures
            r@ == geometry::described(
                "I8View"@,
                self.matrix().len(),
                "dim"@,
                self.columns(),
                "stride"@,
                self.spacing(),
            ),
    {
        geometry::describe("I8View", self.len(), "dim", self.dim, "stride", self.stride)
    }
}

} // verus!
