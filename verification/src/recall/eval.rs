//! The evaluation grid: which representations are scanned and reranked, and
//! what recall they reach.
//!
//! Scanning all queries with one representation, and reranking all pools, are
//! steps that a caller may spread over threads: the module
//! [`run`](crate::recall::run) takes them as functions, or runs them one query
//! after another.

use vstd::prelude::*;
use crate::bitset::Bitset;
use crate::kernels;
use crate::kernels::backend::{self, Kernels};
use crate::kernels::laws as kernel_laws;
use crate::query::{I8Query, ViewQuery};
use crate::ratio::Ratio;
use crate::recall::data::Data;
use crate::recall::measure;
use crate::scan::hit::Hit;
use crate::scan::laws;
use crate::scan::scorer::{self, Scorer};
use crate::storage::Block;
use crate::text;

verus! {

/// How the coarse scan scores.
#[derive(Clone, Copy, PartialEq, Eq, Debug, Structural)]
pub enum Coarse {
    F32Control,
    I8Sym,
    BinSym,
    BinAsymF32q,
    BinAsymI8q,
}

/// What a pool is reranked against.
#[derive(Clone, Copy, PartialEq, Eq, Debug, Structural)]
pub enum Store {
    I8,
    F32,
}

/// One configuration of the grid.
#[derive(Clone, Copy, Debug)]
pub struct Cell {
    pub coarse: Coarse,
    /// `None` is single-stage; `Some((store, factor))` reranks the coarse
    /// top-`factor * k` pool against the store.
    pub two_stage: Option<(Store, usize)>,
}

impl Coarse {
    /// The label in tables.
    pub open spec fn name(self) -> Seq<char> {
        match self {
            Coarse::F32Control => "f32 (control)"@,
            Coarse::I8Sym => "int8 sym"@,
            Coarse::BinSym => "bin sym"@,
            Coarse::BinAsymF32q => "bin asym f32q"@,
            Coarse::BinAsymI8q => "bin asym i8q"@,
        }
    }

    /// The label in tables.
    pub fn label(self) -> (r: &'static str)
        ensures
            r@ == self.name(),
    {
        match self {
            Coarse::F32Control => "f32 (control)",
            Coarse::I8Sym => "int8 sym",
            Coarse::BinSym => "bin sym",
            Coarse::BinAsymF32q => "bin asym f32q",
            Coarse::BinAsymI8q => "bin asym i8q",
        }
    }

    /// The scorer pairs this representation of the corpus with query `qi`.
    pub open spec fn binds(self, data: &Data, qi: int, s: Scorer<'_>) -> bool {
        match self {
            Coarse::F32Control => s matches Scorer::F32 { query } && {
                &&& query.view.matrix() == data.f32s.matrix()
                &&& query.view.columns() == data.f32s.columns()
                &&& query.query@ == data.q_f32@[qi]@
            },
            Coarse::I8Sym => s matches Scorer::I8 { query } && {
                &&& query.view.matrix() == data.i8s.matrix()
                &&& query.view.columns() == data.i8s.columns()
                &&& query.view.row_scales() == data.i8s.row_scales()
                &&& query.query.codes@ == data.q_i8@[qi]@
                &&& query.query.scale == data.q_scales@[qi]
            },
            Coarse::BinSym => s matches Scorer::Bin { query } && {
                &&& query.view.matrix() == data.bins.matrix()
                &&& query.view.columns() == data.bins.columns()
                &&& query.query@ == data.q_bits@[qi]@
            },
            Coarse::BinAsymF32q => s matches Scorer::F32Bin { query } && {
                &&& query.view.matrix() == data.bins.matrix()
                &&& query.view.columns() == data.bins.columns()
                &&& query.query@ == data.q_f32@[qi]@
            },
            Coarse::BinAsymI8q => s matches Scorer::I8Bin { query } && {
                &&& query.view.matrix() == data.bins.matrix()
                &&& query.view.columns() == data.bins.columns()
                &&& query.query.codes@ == data.q_i8@[qi]@
                &&& query.query.scale == data.q_scales@[qi]
            },
        }
    }

    /// The integer sums of query `qi` fit their accumulators on every row.
    pub open spec fn fits(self, data: &Data, qi: int) -> bool {
        match self {
            Coarse::I8Sym => forall|id: int|
                0 <= id < data.rows() ==> kernels::dot_fits(
                    data.q_i8@[qi]@,
                    #[trigger] data.i8s.matrix()[id],
                ),
            Coarse::BinSym => forall|id: int|
                0 <= id < data.rows() ==> kernels::distance(
                    data.q_bits@[qi]@,
                    #[trigger] data.bins.matrix()[id],
                ) <= u32::MAX,
            Coarse::BinAsymI8q => forall|id: int|
                0 <= id < data.rows() ==> kernels::signed_fits(
                    data.q_i8@[qi]@,
                    #[trigger] data.bins.matrix()[id],
                ),
            Coarse::F32Control | Coarse::BinAsymF32q => true,
        }
    }

    /// The coarse-stage scorer for query `qi`.
    fn scorer<'a>(self, data: &'a Data, qi: usize) -> (r: Scorer<'a>)
        requires
            data.wf(),
            qi < data.q_f32@.len(),
        ensures
            self.binds(data, qi as int, r),
    {
        match self {
            Coarse::F32Control => Scorer::F32 {
                query: ViewQuery { view: data.f32s.view(), query: data.q_f32[qi].as_slice() },
            },
            Coarse::I8Sym => Scorer::I8 {
                query: ViewQuery {
                    view: data.i8s.view(),
                    query: I8Query { codes: data.q_i8[qi].as_slice(), scale: data.q_scales[qi] },
                },
            },
            Coarse::BinSym => Scorer::Bin {
                query: ViewQuery { view: data.bins.view(), query: data.q_bits[qi].as_slice() },
            },
            Coarse::BinAsymF32q => Scorer::F32Bin {
                query: ViewQuery { view: data.bins.view(), query: data.q_f32[qi].as_slice() },
            },
            Coarse::BinAsymI8q => Scorer::I8Bin {
                query: ViewQuery {
                    view: data.bins.view(),
                    query: I8Query { codes: data.q_i8[qi].as_slice(), scale: data.q_scales[qi] },
                },
            },
        }
    }
}

impl Store {
    /// The label in tables.
    pub open spec fn name(self) -> Seq<char> {
        match self {
            Store::I8 => "i8"@,
            Store::F32 => "f32"@,
        }
    }

    /// The label in tables.
    pub fn label(self) -> (r: &'static str)
        ensures
            r@ == self.name(),
    {
        match self {
            Store::I8 => "i8",
            Store::F32 => "f32",
        }
    }

    /// The representation that the store scores with.
    pub open spec fn kind(self) -> Coarse {
        match self {
            Store::I8 => Coarse::I8Sym,
            Store::F32 => Coarse::F32Control,
        }
    }

    /// The rerank scorer against this store for query `qi`.
    fn scorer<'a>(self, data: &'a Data, qi: usize) -> (r: Scorer<'a>)
        requires
            data.wf(),
            qi < data.q_f32@.len(),
        ensures
            self.kind().binds(data, qi as int, r),
    {
        match self {
            Store::F32 => Coarse::F32Control.scorer(data, qi),
            Store::I8 => Coarse::I8Sym.scorer(data, qi),
        }
    }
}

/// A bound scorer has no dimension error, scores all rows, and accepts each of
/// them where the sums fit.
proof fn lemma_bound(coarse: Coarse, data: &Data, qi: int, s: Scorer<'_>)
    requires
        data.wf(),
        0 <= qi < data.q_f32@.len(),
        coarse.binds(data, qi, s),
    ensures
        s.query_error() is None,
        s.row_total() == data.rows(),
        coarse.fits(data, qi) ==> forall|id: u32| id < data.rows() ==> #[trigger] s.scorable(id),
{
    assert(data.q_f32@[qi]@.len() == data.dim());
    assert(data.q_i8@[qi]@.len() == data.dim());
    assert(data.q_bits@[qi]@.len() == kernels::code_len(data.dim()));
    if coarse.fits(data, qi) {
        assert forall|id: u32| id < data.rows() implies #[trigger] s.scorable(id) by {
            match coarse {
                Coarse::I8Sym => {
                    assert(kernels::dot_fits(data.q_i8@[qi]@, data.i8s.matrix()[id as int]));
                },
                Coarse::BinSym => {
                    assert(kernels::distance(data.q_bits@[qi]@, data.bins.matrix()[id as int])
                        <= u32::MAX);
                },
                Coarse::BinAsymI8q => {
                    assert(kernels::signed_fits(data.q_i8@[qi]@, data.bins.matrix()[id as int]));
                },
                _ => {},
            }
        }
    }
}

/// Two scorers bound to the same query are alike.
pub proof fn lemma_bound_alike(coarse: Coarse, data: &Data, qi: int, a: Scorer<'_>, b: Scorer<'_>)
    requires
        coarse.binds(data, qi, a),
        coarse.binds(data, qi, b),
    ensures
        laws::alike(a, b),
{
}

/// Up to 131071 dimensions every sum fits, whatever the codes are.
pub proof fn law_moderate_dimensions_fit(coarse: Coarse, data: &Data, qi: int)
    requires
        data.wf(),
        0 <= qi < data.q_f32@.len(),
        data.dim() <= 131_071,
    ensures
        coarse.fits(data, qi),
{
    assert(data.q_i8@[qi]@.len() == data.dim());
    assert(data.q_bits@[qi]@.len() == kernels::code_len(data.dim()));
    assert forall|id: int| 0 <= id < data.rows() implies kernels::dot_fits(
        data.q_i8@[qi]@,
        #[trigger] data.i8s.matrix()[id],
    ) by {
        kernel_laws::law_dot_exact_over_full_domain(data.q_i8@[qi]@, data.i8s.matrix()[id]);
    }
    assert forall|id: int| 0 <= id < data.rows() implies kernels::distance(
        data.q_bits@[qi]@,
        #[trigger] data.bins.matrix()[id],
    ) <= u32::MAX && kernels::signed_fits(data.q_i8@[qi]@, data.bins.matrix()[id]) by {
        kernel_laws::law_distance_bounded(data.q_bits@[qi]@, data.bins.matrix()[id]);
        kernel_laws::law_signed_sum_exact_over_full_domain(
            data.q_i8@[qi]@,
            data.bins.matrix()[id],
        );
    }
}

/// The cells of one coarse kind and one store, in the order of the factors.
pub open spec fn reranked_cells(coarse: Coarse, store: Store, factors: Seq<usize>) -> Seq<Cell> {
    factors.map_values(|factor: usize| Cell { coarse, two_stage: Some((store, factor)) })
}

/// A single-stage cell.
pub open spec fn single(coarse: Coarse) -> Cell {
    Cell { coarse, two_stage: None }
}

/// The whole grid: every representation alone, then each binary one reranked
/// against both stores, then, where `full`, int8 reranked in single precision.
pub open spec fn grid(factors: Seq<usize>, full: bool) -> Seq<Cell> {
    let base = seq![
        single(Coarse::F32Control),
        single(Coarse::I8Sym),
        single(Coarse::BinSym),
        single(Coarse::BinAsymF32q),
        single(Coarse::BinAsymI8q),
    ] + reranked_cells(Coarse::BinSym, Store::I8, factors) + reranked_cells(
        Coarse::BinSym,
        Store::F32,
        factors,
    ) + reranked_cells(Coarse::BinAsymF32q, Store::I8, factors) + reranked_cells(
        Coarse::BinAsymF32q,
        Store::F32,
        factors,
    ) + reranked_cells(Coarse::BinAsymI8q, Store::I8, factors) + reranked_cells(
        Coarse::BinAsymI8q,
        Store::F32,
        factors,
    );
    if full {
        base + reranked_cells(Coarse::I8Sym, Store::F32, factors)
    } else {
        base
    }
}

/// Appends the cells of one coarse kind and one store.
fn push_reranked(cells: &mut Vec<Cell>, coarse: Coarse, store: Store, factors: &[usize])
    ensures
        final(cells)@ == old(cells)@ + reranked_cells(coarse, store, factors@),
{
    let mut i: usize = 0;
    assert(cells@ =~= old(cells)@ + reranked_cells(coarse, store, factors@).take(0));
    while i < factors.len()
        invariant
            i <= factors@.len(),
            cells@ == old(cells)@ + reranked_cells(coarse, store, factors@).take(i as int),
        decreases factors@.len() - i,
    {
        cells.push(Cell { coarse, two_stage: Some((store, factors[i])) });
        i += 1;
        assert(cells@ =~= old(cells)@ + reranked_cells(coarse, store, factors@).take(i as int));
    }
    assert(reranked_cells(coarse, store, factors@).take(i as int) =~= reranked_cells(
        coarse,
        store,
        factors@,
    ));
}

/// The evaluation grid. Absent on purpose: an asymmetric int8 scan (int8 error
/// is already second-order), reranking an exact scan (which changes nothing),
/// and variants of the rerank stage (the store defines its precision).
pub fn matrix(rerank_factors: &[usize], full: bool) -> (r: Vec<Cell>)
    ensures
        r@ == grid(rerank_factors@, full),
        r@.len() == 5 + (if full {
            7nat
        } else {
            6nat
        }) * rerank_factors@.len(),
{
    let mut cells: Vec<Cell> = vec![
        Cell { coarse: Coarse::F32Control, two_stage: None },
        Cell { coarse: Coarse::I8Sym, two_stage: None },
        Cell { coarse: Coarse::BinSym, two_stage: None },
        Cell { coarse: Coarse::BinAsymF32q, two_stage: None },
        Cell { coarse: Coarse::BinAsymI8q, two_stage: None },
    ];
    push_reranked(&mut cells, Coarse::BinSym, Store::I8, rerank_factors);
    push_reranked(&mut cells, Coarse::BinSym, Store::F32, rerank_factors);
    push_reranked(&mut cells, Coarse::BinAsymF32q, Store::I8, rerank_factors);
    push_reranked(&mut cells, Coarse::BinAsymF32q, Store::F32, rerank_factors);
    push_reranked(&mut cells, Coarse::BinAsymI8q, Store::I8, rerank_factors);
    push_reranked(&mut cells, Coarse::BinAsymI8q, Store::F32, rerank_factors);
    if full {
        push_reranked(&mut cells, Coarse::I8Sym, Store::F32, rerank_factors);
    }
    assert(cells@ =~= grid(rerank_factors@, full));
    cells
}

/// `hits` are what scanning query `qi` for `k` hits can give.
pub open spec fn found<D, B, T>(
    kern: Kernels<D, B, T>,
    data: &Data,
    coarse: Coarse,
    qi: int,
    filter: Option<&Bitset>,
    k: nat,
    hits: Seq<Hit>,
) -> bool where
    D: Fn(&[u32], &[u32]) -> u32,
    B: Fn(&[u32], &[u8]) -> u32,
    T: Fn(u32, u32) -> u32,
 {
    exists|s: Scorer<'_>, ids: Seq<u32>|
        {
            &&& #[trigger] coarse.binds(data, qi, s)
            &&& #[trigger] scorer::candidates(filter, data.rows(), ids)
            &&& s.selected(kern, ids, k, hits)
        }
}

/// `hits` are what reranking the pool for `k` hits can give.
pub open spec fn reranked<D, B, T>(
    kern: Kernels<D, B, T>,
    data: &Data,
    store: Store,
    qi: int,
    pool: Seq<u32>,
    k: nat,
    hits: Seq<Hit>,
) -> bool where
    D: Fn(&[u32], &[u32]) -> u32,
    B: Fn(&[u32], &[u8]) -> u32,
    T: Fn(u32, u32) -> u32,
 {
    exists|s: Scorer<'_>| #[trigger]
        store.kind().binds(data, qi, s) && s.selected(kern, pool, k, hits)
}

/// Scans the corpus for one query.
pub fn scan_query<D, B, T>(
    data: &Data,
    kern: &Kernels<D, B, T>,
    coarse: Coarse,
    qi: usize,
    k: usize,
    filter: Option<&Bitset>,
) -> (r: Vec<Hit>) where
    D: Fn(&[u32], &[u32]) -> u32,
    B: Fn(&[u32], &[u8]) -> u32,
    T: Fn(u32, u32) -> u32,

    requires
        data.wf(),
        qi < data.q_f32@.len(),
        backend::usable(*kern),
        coarse.fits(data, qi as int),
        filter matches Some(f) ==> f.size() == data.rows(),
    ensures
        found(*kern, data, coarse, qi as int, filter, k as nat, r@),
        forall|i: int| 0 <= i < r@.len() ==> (#[trigger] r@[i]).id < data.rows(),
{
    let s: Scorer<'_> = coarse.scorer(data, qi);
    proof {
        lemma_bound(coarse, data, qi as int, s);
    }
    match s.top_k(kern, k, filter) {
        Ok(hits) => {
            proof {
                let ids = choose|ids: Seq<u32>| #[trigger]
                    scorer::candidates(filter, s.row_total(), ids) && s.selected(
                        *kern,
                        ids,
                        k as nat,
                        hits@,
                    );
                assert(coarse.binds(data, qi as int, s));
                laws::law_result(s, *kern, ids, k as nat, hits@);
                if filter is Some {
                    filter->0.lemma_members_covered();
                }
                assert forall|i: int| 0 <= i < hits@.len() implies (#[trigger] hits@[i]).id
                    < data.rows() by {
                    assert(ids.contains(hits@[i].id));
                }
            }
            hits
        },
        Err(_) => {
            assert(false);
            Vec::new()
        },
    }
}

/// The part of a pool that a rerank for `k` hits looks at.
pub open spec fn pool_part(pool: Seq<u32>, factor: nat, k: nat) -> Seq<u32> {
    pool.take(measure::least(factor * k, pool.len()) as int)
}

/// Reranks one query's pool at every depth: the first `factor * k` of the pool
/// (all of it where it is shorter) for each `k`.
pub fn rerank_query<D, B, T>(
    data: &Data,
    kern: &Kernels<D, B, T>,
    store: Store,
    qi: usize,
    pool: &[u32],
    factor: usize,
    ks: &[usize],
) -> (r: Vec<Vec<Hit>>) where
    D: Fn(&[u32], &[u32]) -> u32,
    B: Fn(&[u32], &[u8]) -> u32,
    T: Fn(u32, u32) -> u32,

    requires
        data.wf(),
        qi < data.q_f32@.len(),
        backend::usable(*kern),
        store.kind().fits(data, qi as int),
        forall|i: int| 0 <= i < pool@.len() ==> #[trigger] pool@[i] < data.rows(),
        forall|i: int| 0 <= i < ks@.len() ==> factor * #[trigger] ks@[i] <= usize::MAX,
    ensures
        r@.len() == ks@.len(),
        forall|i: int|
            0 <= i < ks@.len() ==> reranked(
                *kern,
                data,
                store,
                qi as int,
                pool_part(pool@, factor as nat, ks@[i] as nat),
                ks@[i] as nat,
                (#[trigger] r@[i])@,
            ),
{
    let s: Scorer<'_> = store.scorer(data, qi);
    proof {
        lemma_bound(store.kind(), data, qi as int, s);
    }
    let len: usize = pool.len();
    let mut out: Vec<Vec<Hit>> = Vec::new();
    let mut i: usize = 0;
    while i < ks.len()
        invariant
            i <= ks@.len(),
            len == pool@.len(),
            backend::usable(*kern),
            store.kind().binds(data, qi as int, s),
            s.query_error() is None,
            forall|id: u32| id < data.rows() ==> #[trigger] s.scorable(id),
            forall|i: int| 0 <= i < pool@.len() ==> #[trigger] pool@[i] < data.rows(),
            forall|i: int| 0 <= i < ks@.len() ==> factor * #[trigger] ks@[i] <= usize::MAX,
            out@.len() == i,
            forall|j: int|
                0 <= j < i ==> reranked(
                    *kern,
                    data,
                    store,
                    qi as int,
                    pool_part(pool@, factor as nat, ks@[j] as nat),
                    ks@[j] as nat,
                    (#[trigger] out@[j])@,
                ),
        decreases ks@.len() - i,
    {
        let k: usize = ks[i];
        assert(factor * ks@[i as int] <= usize::MAX);
        let wanted: usize = factor * k;
        let n: usize = if wanted < len {
            wanted
        } else {
            len
        };
        let part: &[u32] = &pool[0..n];
        assert(part@ =~= pool_part(pool@, factor as nat, k as nat));
        assert forall|j: int| 0 <= j < part@.len() implies s.scorable(#[trigger] part@[j]) by {
            assert(pool@[j] < data.rows());
        }
        match s.rerank(kern, part, k) {
            Ok(hits) => {
                assert(reranked(
                    *kern,
                    data,
                    store,
                    qi as int,
                    pool_part(pool@, factor as nat, k as nat),
                    k as nat,
                    hits@,
                ));
                out.push(hits);
            },
            Err(_) => {
                assert(false);
            },
        }
        i += 1;
    }
    out
}

/// One line of the result.
#[derive(Debug)]
pub struct Row {
    pub coarse: &'static str,
    pub store: Option<&'static str>,
    pub factor: Option<usize>,
    /// Pool size per depth (two-stage only): `factor * k`.
    pub pool_at: Vec<Option<usize>>,
    /// Per depth, the recall of every query.
    pub recalls: Vec<Vec<Ratio>>,
}

impl Row {
    /// The configuration's text in tables.
    pub open spec fn caption(&self) -> Seq<char> {
        match (self.store, self.factor) {
            (Some(store), Some(factor)) => text::left_aligned(self.coarse@, 13) + " -> "@
                + text::left_aligned(store@, 3) + " x"@ + text::decimal(factor as nat),
            _ => self.coarse@,
        }
    }

    /// The configuration's text in tables.
    pub fn label(&self) -> (r: String)
        ensures
            r@ == self.caption(),
    {
        let mut out: String = String::new();
        match (self.store, self.factor) {
            (Some(store), Some(factor)) => {
                text::push_left(&mut out, self.coarse, 13);
                out.append(" -> ");
                text::push_left(&mut out, store, 3);
                out.append(" x");
                text::push_decimal(&mut out, factor as u128);
            },
            _ => {
                out.append(self.coarse);
            },
        }
        assert(out@ =~= self.caption());
        out
    }

    /// The row is about the cell.
    pub open spec fn describes(&self, cell: Cell, ks: Seq<usize>) -> bool {
        &&& self.coarse@ == cell.coarse.name()
        &&& self.pool_at@.len() == ks.len()
        &&& match cell.two_stage {
            None => {
                &&& self.store is None
                &&& self.factor is None
                &&& forall|i: int| 0 <= i < ks.len() ==> (#[trigger] self.pool_at@[i]) is None
            },
            Some((store, factor)) => {
                &&& self.store is Some
                &&& self.store->0@ == store.name()
                &&& self.factor == Some(factor)
                &&& forall|i: int|
                    0 <= i < ks.len() ==> (#[trigger] self.pool_at@[i]) is Some
                        && self.pool_at@[i]->0 == factor * ks[i]
            },
        }
    }
}

/// `recalls` are those of one result per query, cut at every depth.
pub open spec fn recalls_of_scans(
    recalls: Seq<Vec<Ratio>>,
    results: Seq<Vec<Hit>>,
    ks: Seq<usize>,
    gt: Seq<Vec<Hit>>,
) -> bool {
    &&& recalls.len() == ks.len()
    &&& forall|ki: int| 0 <= ki < ks.len() ==> (#[trigger] recalls[ki])@.len() == results.len()
    &&& forall|ki: int, qi: int|
        0 <= ki < ks.len() && 0 <= qi < results.len() ==> #[trigger] recalls[ki]@[qi]
            == measure::recall_against(results[qi]@, ks[ki] as nat, gt[qi]@)
}

/// `recalls` are those of one result per query and depth.
pub open spec fn recalls_of_reranks(
    recalls: Seq<Vec<Ratio>>,
    results: Seq<Vec<Vec<Hit>>>,
    ks: Seq<usize>,
    gt: Seq<Vec<Hit>>,
) -> bool {
    &&& recalls.len() == ks.len()
    &&& forall|ki: int| 0 <= ki < ks.len() ==> (#[trigger] recalls[ki])@.len() == results.len()
    &&& forall|ki: int, qi: int|
        0 <= ki < ks.len() && 0 <= qi < results.len() ==> #[trigger] recalls[ki]@[qi]
            == measure::recall_against(results[qi]@[ki]@, ks[ki] as nat, gt[qi]@)
}

/// The recalls of one result per query.
pub(crate) fn tally_scans(
    results: &Vec<Vec<Hit>>,
    ks: &[usize],
    gt: &[Vec<Hit>],
    prefixes: &Vec<Vec<Vec<u32>>>,
) -> (r: Vec<Vec<Ratio>>)
    requires
        results@.len() <= gt@.len(),
        measure::prefixes_of(gt@, ks@, prefixes@),
    ensures
        recalls_of_scans(r@, results@, ks@, gt@),
{
    let mut out: Vec<Vec<Ratio>> = Vec::new();
    let mut ki: usize = 0;
    while ki < ks.len()
        invariant
            ki <= ks@.len(),
            results@.len() <= gt@.len(),
            measure::prefixes_of(gt@, ks@, prefixes@),
            out@.len() == ki,
            forall|i: int| 0 <= i < ki ==> (#[trigger] out@[i])@.len() == results@.len(),
            forall|i: int, qi: int|
                0 <= i < ki && 0 <= qi < results@.len() ==> #[trigger] out@[i]@[qi]
                    == measure::recall_against(results@[qi]@, ks@[i] as nat, gt@[qi]@),
        decreases ks@.len() - ki,
    {
        let k: usize = ks[ki];
        let mut line: Vec<Ratio> = Vec::new();
        let mut qi: usize = 0;
        while qi < results.len()
            invariant
                ki < ks@.len(),
                k == ks@[ki as int],
                qi <= results@.len() <= gt@.len(),
                measure::prefixes_of(gt@, ks@, prefixes@),
                line@.len() == qi,
                forall|j: int|
                    0 <= j < qi ==> #[trigger] line@[j] == measure::recall_against(
                        results@[j]@,
                        k as nat,
                        gt@[j]@,
                    ),
            decreases results@.len() - qi,
        {
            assert(measure::query_prefixes(gt@[qi as int]@, ks@, prefixes@[qi as int]@));
            let ids: &Vec<u32> = &prefixes[qi][ki];
            assert(measure::sorted_prefix(gt@[qi as int]@, k as nat, ids@));
            line.push(measure::recall_at_k(results[qi].as_slice(), k, ids.as_slice()));
            proof {
                measure::lemma_recall_against(
                    results@[qi as int]@,
                    k as nat,
                    gt@[qi as int]@,
                    ids@,
                );
            }
            qi += 1;
        }
        out.push(line);
        ki += 1;
    }
    out
}

/// The recalls of one result per query and depth.
pub(crate) fn tally_reranks(
    results: &Vec<Vec<Vec<Hit>>>,
    ks: &[usize],
    gt: &[Vec<Hit>],
    prefixes: &Vec<Vec<Vec<u32>>>,
) -> (r: Vec<Vec<Ratio>>)
    requires
        results@.len() <= gt@.len(),
        forall|qi: int| 0 <= qi < results@.len() ==> (#[trigger] results@[qi])@.len() == ks@.len(),
        measure::prefixes_of(gt@, ks@, prefixes@),
    ensures
        recalls_of_reranks(r@, results@, ks@, gt@),
{
    let mut out: Vec<Vec<Ratio>> = Vec::new();
    let mut ki: usize = 0;
    while ki < ks.len()
        invariant
            ki <= ks@.len(),
            results@.len() <= gt@.len(),
            forall|qi: int|
                0 <= qi < results@.len() ==> (#[trigger] results@[qi])@.len() == ks@.len(),
            measure::prefixes_of(gt@, ks@, prefixes@),
            out@.len() == ki,
            forall|i: int| 0 <= i < ki ==> (#[trigger] out@[i])@.len() == results@.len(),
            forall|i: int, qi: int|
                0 <= i < ki && 0 <= qi < results@.len() ==> #[trigger] out@[i]@[qi]
                    == measure::recall_against(results@[qi]@[i]@, ks@[i] as nat, gt@[qi]@),
        decreases ks@.len() - ki,
    {
        let k: usize = ks[ki];
        let mut line: Vec<Ratio> = Vec::new();
        let mut qi: usize = 0;
        while qi < results.len()
            invariant
                ki < ks@.len(),
                k == ks@[ki as int],
                qi <= results@.len() <= gt@.len(),
                forall|qi: int|
                    0 <= qi < results@.len() ==> (#[trigger] results@[qi])@.len() == ks@.len(),
                measure::prefixes_of(gt@, ks@, prefixes@),
                line@.len() == qi,
                forall|j: int|
                    0 <= j < qi ==> #[trigger] line@[j] == measure::recall_against(
                        results@[j]@[ki as int]@,
                        k as nat,
                        gt@[j]@,
                    ),
            decreases results@.len() - qi,
        {
            assert(measure::query_prefixes(gt@[qi as int]@, ks@, prefixes@[qi as int]@));
            let ids: &Vec<u32> = &prefixes[qi][ki];
            assert(measure::sorted_prefix(gt@[qi as int]@, k as nat, ids@));
            assert(results@[qi as int]@.len() == ks@.len());
            let hits: &Vec<Hit> = &results[qi][ki];
            line.push(measure::recall_at_k(hits.as_slice(), k, ids.as_slice()));
            proof {
                measure::lemma_recall_against(hits@, k as nat, gt@[qi as int]@, ids@);
            }
            qi += 1;
        }
        out.push(line);
        ki += 1;
    }
    out
}

} // verus!
