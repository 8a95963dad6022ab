//! What goes into a block or a view comes out of its rows.

use vstd::prelude::*;
use crate::kernels;
use crate::quant::binary as signs;
use crate::quant::int8 as codes;
use crate::storage::Block;
use crate::storage::binary::{BinaryBlock, BinaryView};
use crate::storage::error::StorageError;
use crate::storage::geometry;
use crate::storage::int8::{I8Block, I8View};
use crate::storage::single::{F32Block, F32View};
use crate::text;

verus! {

/// Element `j` of row `i` of strided rows.
proof fn lemma_strided<T>(data: Seq<T>, row_len: nat, stride: nat, i: int, j: int)
    requires
        0 < stride,
        row_len <= stride,
        0 <= i < data.len() / stride,
        0 <= j < row_len,
    ensures
        0 <= i * stride + j < data.len(),
        geometry::strided(data, row_len, stride)[i].len() == row_len,
        geometry::strided(data, row_len, stride)[i][j] == data[i * stride + j],
{
    geometry::lemma_row_place(data.len(), stride, row_len, i as nat);
}

/// Flat rows go into a block and come out of its view as they were: whole rows
/// of a positive dimension, as many as ids can number, are accepted, and
/// nothing else is.
pub proof fn law_flat_rows_read_back(data: &[u32], dim: usize, r: Result<F32Block, StorageError>)
    requires
        call_ensures(F32Block::from_flat, (data, dim), r),
    ensures
        dim == 0 ==> r == Err::<F32Block, StorageError>(StorageError::ZeroDim),
        dim > 0 && data@.len() % dim as nat != 0 ==> r == Err::<F32Block, StorageError>(
            StorageError::Ragged { data_len: data@.len() as usize, row_len: dim },
        ),
        dim > 0 && data@.len() % dim as nat == 0 ==> (r is Ok <==> data@.len() / dim as nat
            <= u32::MAX),
        r matches Ok(block) ==> forall|view: F32View<'_>| #[trigger]
            call_ensures(F32Block::view, (&block,), view) ==> holds_flat(view, data@, dim),
{
    assert(data@.len() == data.len());
    if r is Ok {
        let block = r->Ok_0;
        assert forall|view: F32View<'_>| #[trigger]
            call_ensures(F32Block::view, (&block,), view) implies holds_flat(view, data@, dim) by {
            assert forall|i: u32, row: &[u32], j: int|
                #![trigger call_ensures(F32View::row, (&view, i), row), row@[j]]
                i < data@.len() / dim as nat && call_ensures(F32View::row, (&view, i), row) && 0
                    <= j < dim implies row@.len() == dim && row@[j] == data@[i * dim + j] by {
                lemma_strided(data@, dim as nat, dim as nat, i as int, j);
            }
        }
    }
}

/// The view has the flat rows.
pub open spec fn holds_flat(view: F32View<'_>, data: Seq<u32>, dim: usize) -> bool {
    &&& forall|n: usize| #[trigger]
        call_ensures(F32View::len, (&view,), n) ==> n == data.len() / dim as nat
    &&& forall|n: usize| #[trigger] call_ensures(F32View::dim, (&view,), n) ==> n == dim
    &&& forall|i: u32, row: &[u32], j: int|
        #![trigger call_ensures(F32View::row, (&view, i), row), row@[j]]
        i < data.len() / dim as nat && call_ensures(F32View::row, (&view, i), row) && 0 <= j < dim
            ==> row@.len() == dim && row@[j] == data[i * dim + j]
}

/// Raw strided rows are seen as they lie: element `j` of row `i` is element
/// `i * stride + j`. The view is refused where the dimension is zero, a row
/// does not fit its stride, or the data are not whole strides, in this order.
pub proof fn law_single_view(
    data: &[u32],
    dim: usize,
    stride: usize,
    r: Result<F32View<'_>, StorageError>,
)
    requires
        call_ensures(F32View::new, (data, dim, stride), r),
    ensures
        r is Ok <==> 0 < dim <= stride && data@.len() % stride as nat == 0 && data@.len()
            / stride as nat <= u32::MAX,
        dim == 0 ==> r == Err::<F32View<'_>, StorageError>(StorageError::ZeroDim),
        stride < dim ==> r == Err::<F32View<'_>, StorageError>(
            StorageError::Stride { stride, min_len: dim },
        ),
        0 < dim <= stride && data@.len() % stride as nat != 0 ==> r == Err::<
            F32View<'_>,
            StorageError,
        >(StorageError::Ragged { data_len: data@.len() as usize, row_len: stride }),
        r matches Ok(view) ==> forall|i: u32, row: &[u32], j: int|
            #![trigger call_ensures(F32View::row, (&view, i), row), row@[j]]
            i < data@.len() / stride as nat && call_ensures(F32View::row, (&view, i), row) && 0 <= j
                < dim ==> row@.len() == dim && row@[j] == data@[i * stride + j],
{
    assert(data@.len() == data.len());
    if r is Ok {
        let view = r->Ok_0;
        assert forall|i: u32, row: &[u32], j: int|
            #![trigger call_ensures(F32View::row, (&view, i), row), row@[j]]
            i < data@.len() / stride as nat && call_ensures(F32View::row, (&view, i), row) && 0 <= j
                < dim implies row@.len() == dim && row@[j] == data@[i * stride + j] by {
            lemma_strided(data@, dim as nat, stride as nat, i as int, j);
        }
    }
}

/// The same of int8 codes; one scale per row is asked for, and row `i` has
/// scale `i`.
pub proof fn law_int8_view(
    data: &[i8],
    scales: &[u32],
    dim: usize,
    stride: usize,
    r: Result<I8View<'_>, StorageError>,
)
    requires
        call_ensures(I8View::new, (data, scales, dim, stride), r),
    ensures
        r is Ok <==> 0 < dim <= stride && data@.len() % stride as nat == 0 && data@.len()
            / stride as nat <= u32::MAX && scales@.len() == data@.len() / stride as nat,
        dim == 0 ==> r == Err::<I8View<'_>, StorageError>(StorageError::ZeroDim),
        stride < dim ==> r == Err::<I8View<'_>, StorageError>(
            StorageError::Stride { stride, min_len: dim },
        ),
        0 < dim <= stride && data@.len() % stride as nat != 0 ==> r == Err::<
            I8View<'_>,
            StorageError,
        >(StorageError::Ragged { data_len: data@.len() as usize, row_len: stride }),
        r matches Ok(view) ==> {
            &&& forall|i: u32, row: &[i8], j: int|
                #![trigger call_ensures(I8View::row, (&view, i), row), row@[j]]
                i < data@.len() / stride as nat && call_ensures(I8View::row, (&view, i), row) && 0
                    <= j < dim ==> row@.len() == dim && row@[j] == data@[i * stride + j]
            &&& forall|i: u32, scale: u32| #[trigger]
                call_ensures(I8View::scale, (&view, i), scale) ==> scale == scales@[i as int]
        },
{
    assert(data@.len() == data.len());
    assert(scales@.len() == scales.len());
    if r is Ok {
        let view = r->Ok_0;
        assert forall|i: u32, row: &[i8], j: int|
            #![trigger call_ensures(I8View::row, (&view, i), row), row@[j]]
            i < data@.len() / stride as nat && call_ensures(I8View::row, (&view, i), row) && 0 <= j
                < dim implies row@.len() == dim && row@[j] == data@[i * stride + j] by {
            lemma_strided(data@, dim as nat, stride as nat, i as int, j);
        }
    }
}

/// The same of packed codes, whose rows take an eighth of the dimensions in
/// bytes, rounded up.
pub proof fn law_binary_view(
    data: &[u8],
    dim: usize,
    stride: usize,
    r: Result<BinaryView<'_>, StorageError>,
    len: usize,
)
    requires
        call_ensures(BinaryView::new, (data, dim, stride), r),
        dim <= 8 * len < dim + 8,
    ensures
        r is Ok <==> 0 < dim && len <= stride && data@.len() % stride as nat == 0 && data@.len()
            / stride as nat <= u32::MAX,
        dim == 0 ==> r == Err::<BinaryView<'_>, StorageError>(StorageError::ZeroDim),
        0 < dim && stride < len ==> r == Err::<BinaryView<'_>, StorageError>(
            StorageError::Stride { stride, min_len: len },
        ),
        0 < dim && len <= stride && data@.len() % stride as nat != 0 ==> r == Err::<
            BinaryView<'_>,
            StorageError,
        >(StorageError::Ragged { data_len: data@.len() as usize, row_len: stride }),
        r matches Ok(view) ==> forall|i: u32, row: &[u8], j: int|
            #![trigger call_ensures(BinaryView::row, (&view, i), row), row@[j]]
            i < data@.len() / stride as nat && call_ensures(BinaryView::row, (&view, i), row) && 0
                <= j < len ==> row@.len() == len && row@[j] == data@[i * stride + j],
{
    assert(data@.len() == data.len());
    assert(kernels::code_len(dim as nat) == len);
    if r is Ok {
        let view = r->Ok_0;
        assert forall|i: u32, row: &[u8], j: int|
            #![trigger call_ensures(BinaryView::row, (&view, i), row), row@[j]]
            i < data@.len() / stride as nat && call_ensures(BinaryView::row, (&view, i), row) && 0
                <= j < len implies row@.len() == len && row@[j] == data@[i * stride + j] by {
            lemma_strided(data@, len as nat, stride as nat, i as int, j);
        }
    }
}

/// Quantizing a block row by row: every row of codes is its own row of the
/// source, quantized with its own scale.
pub proof fn law_block_quantized_per_row<V: Fn(u32, u32) -> u32>(
    src: &F32Block,
    over: &V,
    r: I8Block,
    i: int,
)
    requires
        call_ensures(I8Block::from_f32_per_vector::<V>, (src, over), r),
        0 <= i < src.matrix().len(),
    ensures
        r.matrix().len() == src.matrix().len(),
        r.row_scales().len() == src.matrix().len(),
        r.columns() == src.columns(),
        codes::is_scale(*over, src.matrix()[i], r.row_scales()[i]),
        codes::quantized(*over, src.matrix()[i], r.row_scales()[i], r.matrix()[i]),
{
    assert(codes::quantized(*over, src.matrix()[i], r.row_scales()[i], r.matrix()[i]));
}

/// Quantizing a block with one scale: every row has it and is quantized with
/// it.
pub proof fn law_block_quantized_with_one_scale<V: Fn(u32, u32) -> u32>(
    src: &F32Block,
    scale: u32,
    over: &V,
    r: I8Block,
    i: int,
)
    requires
        call_ensures(I8Block::from_f32_fixed::<V>, (src, scale, over), r),
        0 <= i < src.matrix().len(),
    ensures
        r.matrix().len() == src.matrix().len(),
        r.columns() == src.columns(),
        r.row_scales()[i] == scale,
        codes::quantized(*over, src.matrix()[i], scale, r.matrix()[i]),
{
    assert(codes::quantized(*over, src.matrix()[i], r.row_scales()[i], r.matrix()[i]));
    assert(r.row_scales()[i] == scale);
}

/// Packing a block: every code holds the signs of its own row of the source.
pub proof fn law_block_packed(src: &F32Block, r: BinaryBlock, i: int)
    requires
        call_ensures(BinaryBlock::from_f32, (src,), r),
        0 <= i < src.matrix().len(),
    ensures
        r.matrix().len() == src.matrix().len(),
        r.columns() == src.columns(),
        signs::packs(src.matrix()[i], r.matrix()[i]),
{
    assert(signs::packs(src.matrix()[i], r.matrix()[i]));
}

/// A block lends out the rows and scales that it holds.
pub proof fn law_blocks_lend_their_rows(
    codes: I8Block,
    bits: BinaryBlock,
    code_view: I8View<'_>,
    bit_view: BinaryView<'_>,
    i: u32,
    row: &[i8],
    scale: u32,
    code: &[u8],
)
    requires
        call_ensures(I8Block::view, (&codes,), code_view),
        call_ensures(BinaryBlock::view, (&bits,), bit_view),
        call_ensures(I8View::row, (&code_view, i), row),
        call_ensures(I8View::scale, (&code_view, i), scale),
        call_ensures(BinaryView::row, (&bit_view, i), code),
    ensures
        row@ == codes.matrix()[i as int],
        scale == codes.row_scales()[i as int],
        code@ == bits.matrix()[i as int],
{
}

/// What refused geometry is told: both sides of the mismatch.
pub proof fn law_storage_messages(e: &StorageError, r: String)
    requires
        call_ensures(StorageError::to_string, (e,), r),
    ensures
        *e is ZeroDim ==> r@ == "dim must be > 0"@,
        *e matches StorageError::Ragged { data_len, row_len } ==> r@ == "data length "@
            + text::decimal(data_len as nat) + " is not whole rows of "@ + text::decimal(
            row_len as nat,
        ),
        *e matches StorageError::Stride { stride, min_len } ==> r@ == "stride "@ + text::decimal(
            stride as nat,
        ) + " cannot hold rows of length "@ + text::decimal(min_len as nat),
        *e matches StorageError::ScaleCount { scales, rows } ==> r@
            == "expected one scale per row: "@ + text::decimal(scales as nat) + " vs "@
            + text::decimal(rows as nat),
        *e matches StorageError::TooManyRows { rows } ==> r@ == text::decimal(rows as nat)
            + " rows exceeds the u32 id space"@,
{
}

/// Blocks have the rows and the dimension of what they were made of.
pub proof fn law_block_geometry(
    data: &[u32],
    dim: usize,
    src: F32Block,
    bits: BinaryBlock,
    rows: usize,
    columns: usize,
    empty: bool,
    packed_rows: usize,
    packed_columns: usize,
)
    requires
        call_ensures(F32Block::from_flat, (data, dim), Ok::<F32Block, StorageError>(src)),
        call_ensures(BinaryBlock::from_f32, (&src,), bits),
        call_ensures(F32Block::len, (&src,), rows),
        call_ensures(F32Block::dim, (&src,), columns),
        call_ensures(F32Block::is_empty, (&src,), empty),
        call_ensures(BinaryBlock::len, (&bits,), packed_rows),
        call_ensures(BinaryBlock::dim, (&bits,), packed_columns),
    ensures
        rows == data@.len() / dim as nat,
        columns == dim,
        empty <==> rows == 0,
        packed_rows == rows,
        packed_columns == dim,
{
}

} // verus!
