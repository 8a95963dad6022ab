//! A query bound to the corpus representation that scores it, and the two
//! scans over it: the whole view (or a filter's ids), and a candidate list.

use vstd::prelude::*;
use crate::bitset::{self, Bitset};
use crate::ieee;
use crate::kernels;
use crate::kernels::backend::{self, Kernels};
use crate::query::{self, CorpusView, I8Query, QueryData, ViewQuery};
use crate::scan::error::ScanError;
use crate::scan::hit::{self, Hit};
use crate::scan::select;
use crate::storage::binary::BinaryView;
use crate::storage::int8::I8View;
use crate::storage::single::F32View;

verus! {

/// One variant per distance kernel, so that only meaningful pairings can be
/// written and the variant fixes the score formula.
#[derive(Clone, Copy)]
pub enum Scorer<'a> {
    /// Exact single-precision dot (cosine on normalized data): the
    /// ground-truth scorer. Score: `dot_f32(query, row)`.
    F32 { query: ViewQuery<F32View<'a>> },
    /// Symmetric scaled int8 dot; the query is pre-quantized.
    /// Score: `dot_i8(query.codes, row) * (query.scale * row_scale)`.
    I8 { query: ViewQuery<I8View<'a>> },
    /// Symmetric binary similarity; the query is packed sign bits like the
    /// rows. Score: `-hamming(query, row)`, so higher is better.
    Bin { query: ViewQuery<BinaryView<'a>> },
    /// Asymmetric dot of a single-precision query with binary rows.
    /// Score: `dot_f32_bin(query, row)`.
    F32Bin { query: ViewQuery<BinaryView<'a>, &'a [u32]> },
    /// Asymmetric dot of an int8 query with binary rows (the query scale keeps
    /// the score in dot units). Score: `dot_i8_bin(query.codes, row) * query.scale`.
    I8Bin { query: ViewQuery<BinaryView<'a>, I8Query<'a>> },
}

impl<'a> Scorer<'a> {
    /// Rows of the view that is scored.
    pub open spec fn row_total(self) -> nat {
        match self {
            Scorer::F32 { query } => query.view.matrix().len(),
            Scorer::I8 { query } => query.view.matrix().len(),
            Scorer::Bin { query } => query.view.matrix().len(),
            Scorer::F32Bin { query } => query.view.matrix().len(),
            Scorer::I8Bin { query } => query.view.matrix().len(),
        }
    }

    /// What is wrong with the query's dimension, if anything. A packed query
    /// has none to check.
    pub open spec fn query_error(self) -> Option<ScanError> {
        let (query_dim, view_dim) = match self {
            Scorer::F32 { query } => (query.query@.len(), query.view.columns()),
            Scorer::I8 { query } => (query.query.codes@.len(), query.view.columns()),
            Scorer::Bin { query } => (0, 0),
            Scorer::F32Bin { query } => (query.query@.len(), query.view.columns()),
            Scorer::I8Bin { query } => (query.query.codes@.len(), query.view.columns()),
        };
        if query_dim != view_dim {
            Some(
                ScanError::QueryDim { query_dim: query_dim as usize, view_dim: view_dim as usize },
            )
        } else {
            None
        }
    }

    /// Row `id` exists and the kernel accepts it: a packed query has the row's
    /// length, and integer sums fit their accumulators.
    pub open spec fn scorable(self, id: u32) -> bool {
        &&& id < self.row_total()
        &&& match self {
            Scorer::F32 { query } => true,
            Scorer::I8 { query } => kernels::dot_fits(
                query.query.codes@,
                query.view.matrix()[id as int],
            ),
            Scorer::Bin { query } => {
                &&& query.query@.len() == kernels::code_len(query.view.columns())
                &&& kernels::distance(query.query@, query.view.matrix()[id as int]) <= u32::MAX
            },
            Scorer::F32Bin { query } => true,
            Scorer::I8Bin { query } => kernels::signed_fits(
                query.query.codes@,
                query.view.matrix()[id as int],
            ),
        }
    }

    /// `score` is one that row `id` can get: the formula of the variant.
    pub open spec fn scores<D, B, T>(self, kern: Kernels<D, B, T>, id: u32, score: u32) -> bool
        where
            D: Fn(&[u32], &[u32]) -> u32,
            B: Fn(&[u32], &[u8]) -> u32,
            T: Fn(u32, u32) -> u32,
     {
        match self {
            Scorer::F32 { query } => exists|row: &[u32]|
                row@ == query.view.matrix()[id as int] && #[trigger] call_ensures(
                    kern.dot_f32,
                    (query.query, row),
                    score,
                ),
            Scorer::I8 { query } => exists|scale: u32| #[trigger]
                call_ensures(
                    kern.times,
                    (query.query.scale, query.view.row_scales()[id as int]),
                    scale,
                ) && kernels::scaled_int(
                    kern.times,
                    kernels::dot(query.query.codes@, query.view.matrix()[id as int]),
                    scale,
                    score,
                ),
            Scorer::Bin { query } => ieee::nearest_int(
                ieee::negated(score),
                kernels::distance(query.query@, query.view.matrix()[id as int]) as int,
            ),
            Scorer::F32Bin { query } => exists|row: &[u8]|
                row@ == query.view.matrix()[id as int] && #[trigger] call_ensures(
                    kern.dot_f32_bin,
                    (query.query, row),
                    score,
                ),
            Scorer::I8Bin { query } => kernels::scaled_int(
                kern.times,
                kernels::signed_sum(query.query.codes@, query.view.matrix()[id as int]),
                query.query.scale,
                score,
            ),
        }
    }

    /// `hits` are the ids in their order, each with a score that its row gets.
    pub open spec fn scored<D, B, T>(
        self,
        kern: Kernels<D, B, T>,
        ids: Seq<u32>,
        hits: Seq<Hit>,
    ) -> bool where
        D: Fn(&[u32], &[u32]) -> u32,
        B: Fn(&[u32], &[u8]) -> u32,
        T: Fn(u32, u32) -> u32,
     {
        &&& hits.len() == ids.len()
        &&& forall|i: int|
            0 <= i < ids.len() ==> (#[trigger] hits[i]).id == ids[i] && self.scores(
                kern,
                ids[i],
                hits[i].score,
            )
    }

    /// `r` is the top `k` of the scored ids; with `k == 0` nothing is scored.
    pub open spec fn selected<D, B, T>(
        self,
        kern: Kernels<D, B, T>,
        ids: Seq<u32>,
        k: nat,
        r: Seq<Hit>,
    ) -> bool where
        D: Fn(&[u32], &[u32]) -> u32,
        B: Fn(&[u32], &[u8]) -> u32,
        T: Fn(u32, u32) -> u32,
     {
        if k == 0 {
            r == Seq::<Hit>::empty()
        } else {
            exists|hits: Seq<Hit>| #[trigger] self.scored(kern, ids, hits) && r == hit::top(hits, k)
        }
    }
}

/// The filter covers another number of ids than there are rows.
pub open spec fn filter_error(filter: Option<&Bitset>, rows: nat) -> Option<ScanError> {
    match filter {
        Some(f) => if f.size() != rows {
            Some(ScanError::FilterLen { filter_len: f.size() as usize, rows: rows as usize })
        } else {
            None
        },
        None => None,
    }
}

/// `ids` are the candidates of a scan in ascending order: the filter's ids, or
/// all of them where there is no filter.
pub open spec fn candidates(filter: Option<&Bitset>, rows: nat, ids: Seq<u32>) -> bool {
    match filter {
        Some(f) => bitset::lists(ids, f@),
        None => ids == Seq::new(rows, |i: int| i as u32),
    }
}

/// Fails where the filter's length is not the number of rows.
fn check_filter(filter: Option<&Bitset>, rows: usize) -> (r: Result<(), ScanError>)
    ensures
        r is Err <==> filter_error(filter, rows as nat) is Some,
        r matches Err(e) ==> filter_error(filter, rows as nat) == Some(e),
{
    match filter {
        Some(f) => {
            let filter_len: usize = f.len();
            if filter_len != rows {
                return Err(ScanError::FilterLen { filter_len, rows });
            }
            Ok(())
        },
        None => Ok(()),
    }
}

impl<'a> Scorer<'a> {
    /// Exact top-k over the whole view, or over the filter's set ids only.
    /// Results are best-first. Fails on a query/view dimension mismatch
    /// (packed queries are exempt) and then on a filter/view length mismatch.
    pub fn top_k<D, B, T>(
        self,
        kern: &Kernels<D, B, T>,
        k: usize,
        filter: Option<&Bitset>,
    ) -> (r: Result<Vec<Hit>, ScanError>) where
        D: Fn(&[u32], &[u32]) -> u32,
        B: Fn(&[u32], &[u8]) -> u32,
        T: Fn(u32, u32) -> u32,

        requires
            backend::usable(*kern),
            k > 0 && self.query_error() is None && filter_error(filter, self.row_total()) is None
                ==> forall|id: u32|
                id < self.row_total() && (filter matches Some(f) ==> f@.contains(id))
                    ==> #[trigger] self.scorable(id),
        ensures
            r is Err <==> self.query_error() is Some || filter_error(
                filter,
                self.row_total(),
            ) is Some,
            r matches Err(e) ==> Some(e) == (if self.query_error() is Some {
                self.query_error()
            } else {
                filter_error(filter, self.row_total())
            }),
            r matches Ok(hits) ==> exists|ids: Seq<u32>| #[trigger]
                candidates(filter, self.row_total(), ids) && self.selected(
                    *kern,
                    ids,
                    k as nat,
                    hits@,
                ),
    {
        match self.check_query_dim() {
            Err(e) => {
                return Err(e);
            },
            Ok(()) => {},
        }
        let rows: usize = self.rows();
        match check_filter(filter, rows) {
            Err(e) => {
                return Err(e);
            },
            Ok(()) => {},
        }
        let ids: Vec<u32> = match filter {
            Some(f) => f.iter_ones(),
            None => all_ids(rows),
        };
        assert(candidates(filter, self.row_total(), ids@));
        assert forall|i: int| k > 0 && 0 <= i < ids@.len() implies self.scorable(
            #[trigger] ids@[i],
        ) by {
            assert(ids@.contains(ids@[i]));
        }
        Ok(self.select(kern, ids.as_slice(), k))
    }

    /// Top-k among an explicit candidate list: the rerank step of two-stage
    /// search. Scores are computed from this scorer's view and never blended
    /// with those of the pool. Fails as [`Scorer::top_k`] does on a dimension
    /// mismatch.
    pub fn rerank<D, B, T>(self, kern: &Kernels<D, B, T>, candidates: &[u32], k: usize) -> (r:
        Result<Vec<Hit>, ScanError>) where
        D: Fn(&[u32], &[u32]) -> u32,
        B: Fn(&[u32], &[u8]) -> u32,
        T: Fn(u32, u32) -> u32,

        requires
            backend::usable(*kern),
            k > 0 && self.query_error() is None ==> forall|i: int|
                0 <= i < candidates@.len() ==> self.scorable(#[trigger] candidates@[i]),
        ensures
            r is Err <==> self.query_error() is Some,
            r matches Err(e) ==> Some(e) == self.query_error(),
            r matches Ok(hits) ==> self.selected(*kern, candidates@, k as nat, hits@),
    {
        match self.check_query_dim() {
            Err(e) => {
                return Err(e);
            },
            Ok(()) => {},
        }
        Ok(self.select(kern, candidates, k))
    }

    /// Rows of the view.
    fn rows(&self) -> (r: usize)
        ensures
            r == self.row_total(),
            r <= u32::MAX,
    {
        match self {
            Scorer::F32 { query } => query.rows(),
            Scorer::I8 { query } => query.rows(),
            Scorer::Bin { query } => query.rows(),
            Scorer::F32Bin { query } => query.rows(),
            Scorer::I8Bin { query } => query.rows(),
        }
    }

    /// Fails where the query's dimension is not the view's.
    fn check_query_dim(&self) -> (r: Result<(), ScanError>)
        ensures
            r is Err <==> self.query_error() is Some,
            r matches Err(e) ==> Some(e) == self.query_error(),
    {
        match self {
            Scorer::F32 { query } => query.check_dim(),
            Scorer::I8 { query } => query.check_dim(),
            Scorer::Bin { query } => query.check_dim(),
            Scorer::F32Bin { query } => query.check_dim(),
            Scorer::I8Bin { query } => query.check_dim(),
        }
    }

    /// One match per scan, never per row: each arm hands its own scoring
    /// function to the selection loop.
    fn select<D, B, T>(self, kern: &Kernels<D, B, T>, candidates: &[u32], k: usize) -> (r: Vec<
        Hit,
    >) where
        D: Fn(&[u32], &[u32]) -> u32,
        B: Fn(&[u32], &[u8]) -> u32,
        T: Fn(u32, u32) -> u32,

        requires
            backend::usable(*kern),
            self.query_error() is None,
            k > 0 ==> forall|i: int|
                0 <= i < candidates@.len() ==> self.scorable(#[trigger] candidates@[i]),
        ensures
            self.selected(*kern, candidates@, k as nat, r@),
    {
        let r: Vec<Hit> = match self {
            Scorer::F32 { query: ViewQuery { view, query } } => {
                let score = |id: u32| -> (s: u32)
                    requires
                        self.scorable(id),
                    ensures
                        self.scores(*kern, id, s),
                    { (kern.dot_f32)(query, view.row(id)) };
                let r = select::select_top_k(candidates, score, k);
                assert(k > 0 ==> forall|hits: Seq<Hit>| #[trigger]
                    select::scored_by(candidates@, score, hits) ==> self.scored(
                        *kern,
                        candidates@,
                        hits,
                    ));
                r
            },
            Scorer::I8 { query: ViewQuery { view, query } } => {
                let score = |id: u32| -> (s: u32)
                    requires
                        self.scorable(id),
                    ensures
                        self.scores(*kern, id, s),
                    {
                        let n: i32 = kern.integers.dot_i8(query.codes, view.row(id));
                        let x: u32 = ieee::from_i32(n);
                        let scale: u32 = (kern.times)(query.scale, view.scale(id));
                        (kern.times)(x, scale)
                    };
                let r = select::select_top_k(candidates, score, k);
                assert(k > 0 ==> forall|hits: Seq<Hit>| #[trigger]
                    select::scored_by(candidates@, score, hits) ==> self.scored(
                        *kern,
                        candidates@,
                        hits,
                    ));
                r
            },
            Scorer::Bin { query: ViewQuery { view, query } } => {
                let score = |id: u32| -> (s: u32)
                    requires
                        self.scorable(id),
                    ensures
                        self.scores(*kern, id, s),
                    {
                        let h: u32 = kern.integers.hamming(query, view.row(id));
                        ieee::negate(ieee::from_u32(h))
                    };
                let r = select::select_top_k(candidates, score, k);
                assert(k > 0 ==> forall|hits: Seq<Hit>| #[trigger]
                    select::scored_by(candidates@, score, hits) ==> self.scored(
                        *kern,
                        candidates@,
                        hits,
                    ));
                r
            },
            Scorer::F32Bin { query: ViewQuery { view, query } } => {
                let score = |id: u32| -> (s: u32)
                    requires
                        self.scorable(id),
                    ensures
                        self.scores(*kern, id, s),
                    { (kern.dot_f32_bin)(query, view.row(id)) };
                let r = select::select_top_k(candidates, score, k);
                assert(k > 0 ==> forall|hits: Seq<Hit>| #[trigger]
                    select::scored_by(candidates@, score, hits) ==> self.scored(
                        *kern,
                        candidates@,
                        hits,
                    ));
                r
            },
            Scorer::I8Bin { query: ViewQuery { view, query } } => {
                let score = |id: u32| -> (s: u32)
                    requires
                        self.scorable(id),
                    ensures
                        self.scores(*kern, id, s),
                    {
                        let n: i32 = kern.integers.dot_i8_bin(query.codes, view.row(id));
                        let x: u32 = ieee::from_i32(n);
                        (kern.times)(x, query.scale)
                    };
                let r = select::select_top_k(candidates, score, k);
                assert(k > 0 ==> forall|hits: Seq<Hit>| #[trigger]
                    select::scored_by(candidates@, score, hits) ==> self.scored(
                        *kern,
                        candidates@,
                        hits,
                    ));
                r
            },
        };
        r
    }
}

/// All row ids, ascending.
fn all_ids(rows: usize) -> (r: Vec<u32>)
    requires
        rows <= u32::MAX,
    ensures
        r@ == Seq::new(rows as nat, |i: int| i as u32),
{
    let mut ids: Vec<u32> = Vec::new();
    let mut i: usize = 0;
    while i < rows
        invariant
            i <= rows <= u32::MAX,
            ids@ == Seq::new(i as nat, |i: int| i as u32),
        decreases rows - i,
    {
        ids.push(i as u32);
        i += 1;
        assert(ids@ =~= Seq::new(i as nat, |i: int| i as u32));
    }
    ids
}

} // verus!
