//! Shared geometry of blocks and views: strided rows, padding, row counts.

use vstd::prelude::*;
use vstd::arithmetic::div_mod::*;
use crate::storage::error::StorageError;
use crate::text;

verus! {

/// Row stride granularity in bytes.
pub const ROW_ALIGN: usize = 64;

/// The least multiple of `to` that is not below `x`.
pub open spec fn rounded_up(x: nat, to: nat) -> nat {
    ((x + to - 1) as nat / to) * to
}

/// The rows that lie in `data`, each of `row_len` elements, one every `stride`
/// elements.
pub open spec fn strided<T>(data: Seq<T>, row_len: nat, stride: nat) -> Seq<Seq<T>> {
    Seq::new(
        data.len() / stride,
        |i: int| data.subrange(i * stride, i * stride + row_len),
    )
}

/// What is wrong with rows of `dim` dimensions that take up `row_len` elements
/// and start every `stride` elements, if anything.
pub open spec fn shape_error(
    data_len: usize,
    dim: usize,
    row_len: usize,
    stride: usize,
) -> Option<StorageError> {
    if dim == 0 {
        Some(StorageError::ZeroDim)
    } else if stride < row_len {
        Some(StorageError::Stride { stride, min_len: row_len })
    } else if data_len % stride != 0 {
        Some(StorageError::Ragged { data_len, row_len: stride })
    } else if data_len / stride > u32::MAX {
        Some(StorageError::TooManyRows { rows: (data_len / stride) as usize })
    } else {
        None
    }
}

/// Rounds up to a multiple.
pub(crate) fn round_up(x: usize, to: usize) -> (r: usize)
    requires
        to > 0,
        rounded_up(x as nat, to as nat) <= usize::MAX,
    ensures
        r == rounded_up(x as nat, to as nat),
{
    proof {
        lemma_rounded_up(x as nat, to as nat);
        lemma_fundamental_div_mod(x as int, to as int);
        let (d, q, r) = (to as int, x as int / to as int, x as int % to as int);
        assert(d * q == q * d && (q + 1) * d == q * d + d) by (nonlinear_arith);
        if r == 0 {
            lemma_fundamental_div_mod_converse(x + to - 1, d, q, d - 1);
        } else {
            lemma_fundamental_div_mod_converse(x + to - 1, d, q + 1, r - 1);
        }
    }
    let n: usize = if x % to == 0 {
        x / to
    } else {
        x / to + 1
    };
    n * to
}

/// A rounded number is not below the number, and less than one step above it.
pub proof fn lemma_rounded_up(x: nat, to: nat)
    requires
        to > 0,
    ensures
        x <= rounded_up(x, to) < x + to,
        rounded_up(x, to) % to == 0,
{
    let q = (x + to - 1) as nat / to;
    lemma_fundamental_div_mod(x + to - 1, to as int);
    assert(to * q == q * to) by (nonlinear_arith);
    lemma_mod_multiples_basic(q as int, to as int);
}

/// Fails where the row ids would not fit in 32 bits.
pub(crate) fn check_rows(len: usize) -> (r: Result<(), StorageError>)
    ensures
        r == (if len > u32::MAX {
            Err::<(), StorageError>(StorageError::TooManyRows { rows: len })
        } else {
            Ok(())
        }),
{
    if len > u32::MAX as usize {
        return Err(StorageError::TooManyRows { rows: len });
    }
    Ok(())
}

/// Where row `i` of strided rows lies.
pub proof fn lemma_row_place(data_len: nat, stride: nat, row_len: nat, i: nat)
    requires
        stride > 0,
        row_len <= stride,
        i < data_len / stride,
    ensures
        0 <= i * stride,
        i * stride + row_len <= data_len,
{
    assert(0 <= i * stride && i * stride + stride <= data_len) by (nonlinear_arith)
        requires
            stride > 0,
            i < data_len / stride,
    ;
}

/// Row `i` of strided data.
pub(crate) fn row_at<'a, T>(data: &'a [T], row_len: usize, stride: usize, i: usize) -> (r: &'a [T])
    requires
        stride > 0,
        row_len <= stride,
        i < data@.len() / stride as nat,
    ensures
        r@ == strided(data@, row_len as nat, stride as nat)[i as int],
        r@.len() == row_len,
{
    let total: usize = data.len();
    proof {
        lemma_row_place(data@.len(), stride as nat, row_len as nat, i as nat);
    }
    let start: usize = i * stride;
    &data[start..start + row_len]
}

/// No data is no rows.
pub proof fn lemma_strided_empty<T>(row_len: nat, stride: nat)
    requires
        stride > 0,
    ensures
        0nat % stride == 0,
        0nat / stride == 0,
        strided(Seq::<T>::empty(), row_len, stride) == Seq::<Seq<T>>::empty(),
{
    lemma_fundamental_div_mod_converse(0, stride as int, 0, 0);
    assert(strided(Seq::<T>::empty(), row_len, stride) =~= Seq::<Seq<T>>::empty());
}

/// Appending a row and its padding to whole strided rows adds that row.
pub proof fn lemma_strided_push<T>(data: Seq<T>, row: Seq<T>, pad: Seq<T>, stride: nat)
    requires
        stride > 0,
        row.len() + pad.len() == stride,
        data.len() % stride == 0,
    ensures
        (data + row + pad).len() % stride == 0,
        (data + row + pad).len() / stride == data.len() / stride + 1,
        strided(data + row + pad, row.len(), stride) == strided(data, row.len(), stride).push(row),
{
    let n = data.len() / stride;
    let all = data + row + pad;
    lemma_fundamental_div_mod(data.len() as int, stride as int);
    assert(stride * n == n * stride && (n + 1) * stride == n * stride + stride)
        by (nonlinear_arith);
    lemma_fundamental_div_mod_converse(all.len() as int, stride as int, (n + 1) as int, 0);
    let (left, right) = (
        strided(all, row.len(), stride),
        strided(data, row.len(), stride).push(row),
    );
    assert forall|i: int| 0 <= i < n + 1 implies left[i] == right[i] by {
        if i < n {
            lemma_row_place(data.len(), stride, row.len(), i as nat);
            assert(left[i] =~= data.subrange(i * stride, i * stride + row.len()));
        } else {
            assert(left[i] =~= row);
        }
    }
    assert(left =~= right);
}

/// Appends a row, filled up to the stride.
pub(crate) fn push_padded<T: Copy>(out: &mut Vec<T>, row: &[T], stride: usize, fill: T)
    requires
        0 < stride,
        row@.len() <= stride,
        old(out)@.len() % stride as nat == 0,
    ensures
        final(out)@.len() == old(out)@.len() + stride,
        final(out)@.len() % stride as nat == 0,
        final(out)@.len() / stride as nat == old(out)@.len() / stride as nat + 1,
        strided(final(out)@, row@.len(), stride as nat) == strided(
            old(out)@,
            row@.len(),
            stride as nat,
        ).push(row@),
{
    let ghost before = out@;
    let n: usize = row.len();
    let mut i: usize = 0;
    while i < n
        invariant
            i <= n == row@.len(),
            out@ == before + row@.take(i as int),
        decreases n - i,
    {
        out.push(row[i]);
        i += 1;
        assert(out@ =~= before + row@.take(i as int));
    }
    assert(row@.take(n as int) =~= row@);
    let ghost mut pad: Seq<T> = Seq::empty();
    assert(before + row@ + pad =~= before + row@);
    while i < stride
        invariant
            n <= i <= stride,
            pad.len() == i - n,
            out@ == before + row@ + pad,
        decreases stride - i,
    {
        out.push(fill);
        proof {
            let longer = pad.push(fill);
            assert(out@ =~= before + row@ + longer);
            pad = longer;
        }
        i += 1;
    }
    proof {
        lemma_strided_push(before, row@, pad, stride as nat);
    }
}

/// The text that shows the geometry of a block or a view, never its data.
pub open spec fn described(
    name: Seq<char>,
    rows: nat,
    dim_name: Seq<char>,
    dim: nat,
    stride_name: Seq<char>,
    stride: nat,
) -> Seq<char> {
    name + " { rows: "@ + text::decimal(rows) + ", "@ + dim_name + ": "@ + text::decimal(dim) + ", "@
        + stride_name + ": "@ + text::decimal(stride) + ", .. }"@
}

/// Renders [`described`].
pub(crate) fn describe(
    name: &str,
    rows: usize,
    dim_name: &str,
    dim: usize,
    stride_name: &str,
    stride: usize,
) -> (r: String)
    ensures
        r@ == described(
            name@,
            rows as nat,
            dim_name@,
            dim as nat,
            stride_name@,
            stride as nat,
        ),
{
    let mut out: String = String::new();
    out.append(name);
    out.append(" { rows: ");
    text::push_decimal(&mut out, rows as u128);
    out.append(", ");
    out.append(dim_name);
    out.append(": ");
    text::push_decimal(&mut out, dim as u128);
    out.append(", ");
    out.append(stride_name);
    out.append(": ");
    text::push_decimal(&mut out, stride as u128);
    out.append(", .. }");
    assert(out@ =~= described(
        name@,
        rows as nat,
        dim_name@,
        dim as nat,
        stride_name@,
        stride as nat,
    ));
    out
}

} // verus!
