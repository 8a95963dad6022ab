//! Whether the integer scores of a run fit their 32-bit accumulators. Up to
//! 131071 dimensions they always do; beyond, it depends on the codes.

use vstd::prelude::*;
use crate::kernels;
use crate::recall::data::Data;
use crate::recall::eval::{self, Coarse};
use crate::storage::Block;

verus! {

/// The sums of every representation fit for the queries below `n`.
pub open spec fn queries_fit(data: &Data, n: int) -> bool {
    forall|coarse: Coarse, qi: int| 0 <= qi < n ==> #[trigger] coarse.fits(data, qi)
}

/// The sums of query `qi` fit on row `id`.
pub open spec fn row_fits(data: &Data, qi: int, id: int) -> bool {
    &&& kernels::dot_fits(data.q_i8@[qi]@, data.i8s.matrix()[id])
    &&& kernels::distance(data.q_bits@[qi]@, data.bins.matrix()[id]) <= u32::MAX
    &&& kernels::signed_fits(data.q_i8@[qi]@, data.bins.matrix()[id])
}

/// Whether every partial sum of the dot product fits.
fn dot_stays(a: &[i8], b: &[i8]) -> (r: bool)
    requires
        a@.len() == b@.len(),
    ensures
        r == kernels::dot_fits(a@, b@),
{
    let mut acc: i64 = 0;
    let mut i: usize = 0;
    while i < a.len()
        invariant
            i <= a@.len() == b@.len(),
            acc == kernels::dot_prefix(a@, b@, i as nat),
            forall|n: nat|
                n <= i ==> i32::MIN <= #[trigger] kernels::dot_prefix(a@, b@, n) <= i32::MAX,
        decreases a@.len() - i,
    {
        let (x, y): (i64, i64) = (a[i] as i64, b[i] as i64);
        assert(-16384 <= x * y <= 16384) by (nonlinear_arith)
            requires
                -128 <= x <= 127,
                -128 <= y <= 127,
        ;
        assert(i32::MIN <= kernels::dot_prefix(a@, b@, i as nat) <= i32::MAX);
        acc = acc + x * y;
        assert(acc == kernels::dot_prefix(a@, b@, (i + 1) as nat));
        if acc < i32::MIN as i64 || acc > i32::MAX as i64 {
            return false;
        }
        i += 1;
    }
    true
}

/// Whether every partial sum of the signed sum fits.
fn signed_stays(q: &[i8], code: &[u8]) -> (r: bool)
    requires
        code@.len() == kernels::code_len(q@.len()),
    ensures
        r == kernels::signed_fits(q@, code@),
{
    let mut acc: i64 = 0;
    let mut i: usize = 0;
    while i < q.len()
        invariant
            i <= q@.len(),
            code@.len() == kernels::code_len(q@.len()),
            acc == kernels::signed_prefix(q@, code@, i as nat),
            forall|n: nat|
                n <= i ==> i32::MIN <= #[trigger] kernels::signed_prefix(q@, code@, n) <= i32::MAX,
        decreases q@.len() - i,
    {
        let x: i64 = q[i] as i64;
        assert(i32::MIN <= kernels::signed_prefix(q@, code@, i as nat) <= i32::MAX);
        if kernels::read_bit(code, i) {
            acc = acc + x;
        } else {
            acc = acc - x;
        }
        assert(acc == kernels::signed_prefix(q@, code@, (i + 1) as nat));
        if acc < i32::MIN as i64 || acc > i32::MAX as i64 {
            return false;
        }
        i += 1;
    }
    true
}

/// Whether the distance of two codes fits.
fn distance_stays(a: &[u8], b: &[u8]) -> (r: bool)
    requires
        a@.len() == b@.len(),
    ensures
        r == (kernels::distance(a@, b@) <= u32::MAX),
{
    let mut acc: u64 = 0;
    let mut i: usize = 0;
    while i < a.len()
        invariant
            i <= a@.len() == b@.len(),
            acc == kernels::differing(a@, b@, 8 * i as nat),
            acc <= u32::MAX,
        decreases a@.len() - i,
    {
        proof {
            kernels::lemma_byte_step(a@, b@, i as nat);
            kernels::lemma_differing_bounded(a@, b@, 8 * (i + 1) as nat, 8 * a@.len());
        }
        acc = acc + kernels::count_ones(a[i] ^ b[i]) as u64;
        if acc > u32::MAX as u64 {
            return false;
        }
        i += 1;
    }
    true
}

/// Whether the sums of query `qi` fit on row `id`.
fn row_stays(data: &Data, qi: usize, id: u32) -> (r: bool)
    requires
        data.wf(),
        qi < data.q_f32@.len(),
        id < data.rows(),
    ensures
        r == row_fits(data, qi as int, id as int),
{
    assert(data.q_i8@[qi as int]@.len() == data.dim());
    assert(data.q_bits@[qi as int]@.len() == kernels::code_len(data.dim()));
    let codes: &[i8] = data.q_i8[qi].as_slice();
    let bits: &[u8] = data.q_bits[qi].as_slice();
    let row: &[i8] = data.i8s.view().row(id);
    let packed: &[u8] = data.bins.view().row(id);
    dot_stays(codes, row) && distance_stays(bits, packed) && signed_stays(codes, packed)
}

/// The sums of a query fit where they fit on every row, and only there.
proof fn lemma_query_fits(data: &Data, qi: int)
    requires
        data.wf(),
    ensures
        (forall|coarse: Coarse| #[trigger] coarse.fits(data, qi)) == (forall|id: int|
            0 <= id < data.rows() ==> #[trigger] row_fits(data, qi, id)),
{
    if forall|coarse: Coarse| #[trigger] coarse.fits(data, qi) {
        assert(Coarse::I8Sym.fits(data, qi));
        assert(Coarse::BinSym.fits(data, qi));
        assert(Coarse::BinAsymI8q.fits(data, qi));
        assert forall|id: int| 0 <= id < data.rows() implies #[trigger] row_fits(data, qi, id) by {
            let (codes, bits) = (data.i8s.matrix()[id], data.bins.matrix()[id]);
            assert(kernels::dot_fits(data.q_i8@[qi]@, codes));
            assert(kernels::signed_fits(data.q_i8@[qi]@, bits));
        }
    }
    if forall|id: int| 0 <= id < data.rows() ==> #[trigger] row_fits(data, qi, id) {
        assert forall|coarse: Coarse| #[trigger] coarse.fits(data, qi) by {
            assert forall|id: int| 0 <= id < data.rows() implies kernels::dot_fits(
                data.q_i8@[qi]@,
                #[trigger] data.i8s.matrix()[id],
            ) by {
                assert(row_fits(data, qi, id));
            }
            assert forall|id: int| 0 <= id < data.rows() implies kernels::distance(
                data.q_bits@[qi]@,
                #[trigger] data.bins.matrix()[id],
            ) <= u32::MAX && kernels::signed_fits(data.q_i8@[qi]@, data.bins.matrix()[id]) by {
                assert(row_fits(data, qi, id));
            }
        }
    }
}

/// Whether the sums of query `qi` fit on every row.
fn query_stays(data: &Data, qi: usize) -> (r: bool)
    requires
        data.wf(),
        qi < data.q_f32@.len(),
    ensures
        r == (forall|coarse: Coarse| #[trigger] coarse.fits(data, qi as int)),
{
    proof {
        lemma_query_fits(data, qi as int);
    }
    let rows: usize = data.i8s.view().len();
    let mut id: u32 = 0;
    while (id as usize) < rows
        invariant
            data.wf(),
            qi < data.q_f32@.len(),
            id <= rows == data.rows() <= u32::MAX,
            forall|n: int| 0 <= n < id ==> #[trigger] row_fits(data, qi as int, n),
        decreases rows - id,
    {
        if !row_stays(data, qi, id) {
            proof {
                lemma_query_fits(data, qi as int);
                assert(!row_fits(data, qi as int, id as int));
            }
            return false;
        }
        id += 1;
    }
    true
}

/// Whether the integer scores of every query fit, in every representation:
/// what a scan or a rerank of the data needs.
pub fn scans_fit(data: &Data) -> (r: bool)
    requires
        data.wf(),
    ensures
        r == queries_fit(data, data.q_f32@.len() as int),
        data.dim() <= 131_071 ==> r,
{
    proof {
        if data.dim() <= 131_071 {
            assert forall|coarse: Coarse, qi: int| 0 <= qi < data.q_f32@.len() implies #[trigger] coarse.fits(
                data,
                qi,
            ) by {
                eval::law_moderate_dimensions_fit(coarse, data, qi);
            }
        }
    }
    if data.i8s.view().dim() <= 131_071 {
        return true;
    }
    let mut qi: usize = 0;
    while qi < data.q_f32.len()
        invariant
            data.wf(),
            data.dim() > 131_071,
            qi <= data.q_f32@.len(),
            queries_fit(data, qi as int),
        decreases data.q_f32@.len() - qi,
    {
        if !query_stays(data, qi) {
            return false;
        }
        qi += 1;
    }
    true
}

} // verus!
