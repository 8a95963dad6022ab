//! Rows of a data file: they must arrive with unit length, or are brought to
//! it one by one. What a row's length is, and how it is changed, is left to
//! functions of the caller's.

use vstd::prelude::*;
use crate::recall::data;
use crate::storage::geometry;
use crate::text;

verus! {

/// Row `i` of flat rows.
pub open spec fn row_of(flat: Seq<u32>, dim: nat, i: int) -> Seq<u32> {
    flat.subrange(i * dim, i * dim + dim)
}

/// `accept` answers `answer` for the row.
pub open spec fn answers<F: Fn(&[u32]) -> bool>(accept: F, row: Seq<u32>, answer: bool) -> bool {
    exists|slice: &[u32]| slice@ == row && #[trigger] call_ensures(accept, (slice,), answer)
}

/// The first `n` rows are accepted.
pub open spec fn accepts_first<F: Fn(&[u32]) -> bool>(
    accept: F,
    flat: Seq<u32>,
    dim: nat,
    n: nat,
) -> bool {
    forall|j: int| 0 <= j < n ==> answers(accept, #[trigger] row_of(flat, dim, j), true)
}

/// The first row that is not accepted.
pub fn first_rejected<F: Fn(&[u32]) -> bool>(flat: &[u32], dim: usize, accept: &F) -> (r: Option<
    usize,
>)
    requires
        dim > 0,
        forall|row: &[u32]| call_requires(*accept, (row,)),
    ensures
        match r {
            Some(i) => {
                &&& i < flat@.len() / dim as nat
                &&& answers(*accept, row_of(flat@, dim as nat, i as int), false)
                &&& accepts_first(*accept, flat@, dim as nat, i as nat)
            },
            None => accepts_first(*accept, flat@, dim as nat, flat@.len() / dim as nat),
        },
{
    let rows: usize = flat.len() / dim;
    let mut i: usize = 0;
    while i < rows
        invariant
            dim > 0,
            rows == flat@.len() / dim as nat,
            i <= rows,
            forall|row: &[u32]| call_requires(*accept, (row,)),
            forall|j: int|
                0 <= j < i ==> answers(*accept, #[trigger] row_of(flat@, dim as nat, j), true),
        decreases rows - i,
    {
        let row: &[u32] = geometry::row_at(flat, dim, dim, i);
        assert(row@ =~= row_of(flat@, dim as nat, i as int));
        let accepted: bool = accept(row);
        assert(call_ensures(*accept, (row,), accepted));
        if !accepted {
            return Some(i);
        }
        i += 1;
    }
    None
}

/// Row by row, `out` is what `change` makes of `flat`.
pub open spec fn changed<L: Fn(Vec<u32>) -> Vec<u32>>(
    change: L,
    dim: nat,
    flat: Seq<u32>,
    rows: nat,
    out: Seq<u32>,
) -> bool {
    &&& out.len() == rows * dim
    &&& forall|i: int|
        0 <= i < rows ==> became(change, row_of(flat, dim, i), #[trigger] row_of(out, dim, i))
}

/// `change` makes `after` of `before`.
pub open spec fn became<L: Fn(Vec<u32>) -> Vec<u32>>(
    change: L,
    before: Seq<u32>,
    after: Seq<u32>,
) -> bool {
    exists|v: Vec<u32>, w: Vec<u32>|
        v@ == before && w@ == after && #[trigger] call_ensures(change, (v,), w)
}

/// One more row behind the others.
proof fn lemma_push<L: Fn(Vec<u32>) -> Vec<u32>>(
    change: L,
    dim: nat,
    flat: Seq<u32>,
    rows: nat,
    out: Seq<u32>,
    row: Seq<u32>,
)
    requires
        row.len() == dim,
        changed(change, dim, flat, rows, out),
        became(change, row_of(flat, dim, rows as int), row),
    ensures
        changed(change, dim, flat, rows + 1, out + row),
{
    let d = dim as int;
    let all = out + row;
    assert((rows + 1) * d == rows * d + d) by (nonlinear_arith);
    assert forall|i: int| 0 <= i < rows + 1 implies became(
        change,
        row_of(flat, dim, i),
        #[trigger] row_of(all, dim, i),
    ) by {
        if i < rows {
            assert(0 <= i * d && i * d + d == (i + 1) * d && (i + 1) * d <= rows * d)
                by (nonlinear_arith)
                requires
                    0 <= i < rows,
                    d >= 0,
            ;
            assert(row_of(all, dim, i) =~= row_of(out, dim, i));
        } else {
            assert(row_of(all, dim, i) =~= row);
        }
    }
}

/// Changes every row.
pub fn change_rows<L: Fn(Vec<u32>) -> Vec<u32>>(flat: &[u32], dim: usize, change: &L) -> (r: Vec<
    u32,
>)
    requires
        dim > 0,
        flat@.len() % dim as nat == 0,
        forall|v: Vec<u32>| call_requires(*change, (v,)),
        forall|v: Vec<u32>, w: Vec<u32>| #[trigger]
            call_ensures(*change, (v,), w) ==> w@.len() == v@.len(),
    ensures
        r@.len() == flat@.len(),
        changed(*change, dim as nat, flat@, flat@.len() / dim as nat, r@),
{
    let rows: usize = flat.len() / dim;
    let mut out: Vec<u32> = Vec::new();
    let mut i: usize = 0;
    assert(0 * dim == 0) by (nonlinear_arith);
    while i < rows
        invariant
            dim > 0,
            rows == flat@.len() / dim as nat,
            i <= rows,
            forall|v: Vec<u32>| call_requires(*change, (v,)),
            forall|v: Vec<u32>, w: Vec<u32>| #[trigger]
                call_ensures(*change, (v,), w) ==> w@.len() == v@.len(),
            changed(*change, dim as nat, flat@, i as nat, out@),
        decreases rows - i,
    {
        let row: &[u32] = geometry::row_at(flat, dim, dim, i);
        assert(row@ =~= row_of(flat@, dim as nat, i as int));
        let before: Vec<u32> = data::copy_of(row);
        let ghost given = before;
        let mut after: Vec<u32> = change(before);
        let ghost made = after;
        assert(call_ensures(*change, (given,), made));
        proof {
            lemma_push(*change, dim as nat, flat@, i as nat, out@, made@);
        }
        let ghost so_far = out@;
        out.append(&mut after);
        assert(out@ =~= so_far + made@);
        i += 1;
    }
    proof {
        vstd::arithmetic::div_mod::lemma_fundamental_div_mod(flat@.len() as int, dim as int);
        assert(dim * (flat@.len() / dim as nat) == (flat@.len() / dim as nat) * dim)
            by (nonlinear_arith);
    }
    out
}

/// What is said of a row that is not of unit length; `norm` is its length
/// with four decimals.
pub fn norm_error(what: &str, row: usize, norm: &str) -> (r: String)
    ensures
        r@ == what@ + " row "@ + text::decimal(row as nat) + " has L2 norm "@ + norm@
            + ", expected 1.0 — pass --normalize to normalize file data"@,
{
    let mut out: String = String::new();
    out.append(what);
    out.append(" row ");
    text::push_decimal(&mut out, row as u128);
    out.append(" has L2 norm ");
    out.append(norm);
    out.append(", expected 1.0 — pass --normalize to normalize file data");
    assert(out@ =~= what@ + " row "@ + text::decimal(row as nat) + " has L2 norm "@ + norm@
        + ", expected 1.0 — pass --normalize to normalize file data"@);
    out
}

} // verus!
