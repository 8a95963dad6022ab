//! What a scan or a rerank answers: which inputs it refuses, and which of its
//! candidates it gives back, in which order.

use vstd::prelude::*;
use vstd::seq_lib::*;
use std::cmp::Ordering;
use crate::bitset::Bitset;
use crate::ieee;
use crate::kernels::backend::Kernels;
use crate::recall::measure;
use crate::scan::error::ScanError;
use crate::scan::hit::{self, Hit};
use crate::scan::laws;
use crate::scan::scorer::{self, Scorer};
use crate::scan::select;
use crate::text;

verus! {

/// `a` comes before `b`: its score is higher in the total order, or the same
/// and its id lower.
pub open spec fn before(a: Hit, b: Hit) -> bool {
    ieee::total_rank(a.score) > ieee::total_rank(b.score) || (ieee::total_rank(a.score)
        == ieee::total_rank(b.score) && a.id < b.id)
}

/// The id has a hit that is among `hits` or comes after each of them.
pub open spec fn placed(score: spec_fn(u32, u32) -> bool, id: u32, hits: Seq<Hit>) -> bool {
    exists|s: u32| #[trigger]
        score(id, s) && (hits.contains(Hit { id, score: s }) || forall|i: int|
            0 <= i < hits.len() ==> before(#[trigger] hits[i], Hit { id, score: s }))
}

/// The ids of hits, in their order.
pub open spec fn ids_of(hits: Seq<Hit>) -> Seq<u32> {
    Seq::new(hits.len(), |i: int| hits[i].id)
}

/// `hits` are the best `k` of the ids by the score, best first: as many as
/// there can be, each with its own score, none more often than it is among the
/// ids, and every id that is missing comes after all of them.
pub open spec fn best(
    score: spec_fn(u32, u32) -> bool,
    ids: Seq<u32>,
    k: nat,
    hits: Seq<Hit>,
) -> bool {
    &&& hits.len() == (if k < ids.len() {
        k
    } else {
        ids.len()
    })
    &&& forall|i: int|
        0 <= i < hits.len() ==> ids.contains((#[trigger] hits[i]).id) && score(
            hits[i].id,
            hits[i].score,
        )
    &&& forall|i: int, j: int|
        0 <= i < j < hits.len() ==> before(#[trigger] hits[i], #[trigger] hits[j]) || hits[i]
            == hits[j]
    &&& forall|id: u32| #[trigger]
        ids_of(hits).to_multiset().count(id) <= ids.to_multiset().count(id)
    &&& k > 0 ==> forall|n: int| 0 <= n < ids.len() ==> placed(score, #[trigger] ids[n], hits)
}

/// The hits of a selection are some of the hits.
proof fn lemma_no_more(scored: Seq<Hit>, ids: Seq<u32>, k: nat, hits: Seq<Hit>)
    requires
        ids_of(scored) == ids,
        hits == hit::top(scored, k),
    ensures
        forall|id: u32| #[trigger]
            ids_of(hits).to_multiset().count(id) <= ids.to_multiset().count(id),
{
    let all = hit::ranking(scored);
    hit::lemma_ranking(scored);
    measure::lemma_ids_reordered(scored, all);
    assert(measure::ids_of(scored) =~= ids);
    assert(measure::ids_of(all) =~= ids_of(all));
    let rest = ids_of(all).skip(hits.len() as int);
    assert(ids_of(all) =~= ids_of(hits) + rest);
    lemma_multiset_commutative(ids_of(hits), rest);
    assert forall|id: u32| #[trigger] ids_of(hits).to_multiset().count(id)
        <= ids.to_multiset().count(id) by {
        assert(ids_of(all).to_multiset().count(id) == ids_of(hits).to_multiset().count(id)
            + rest.to_multiset().count(id));
    }
}

/// A selection is the best by any score that its scorer gives.
pub proof fn lemma_best<D, B, T>(
    s: Scorer<'_>,
    kern: Kernels<D, B, T>,
    ids: Seq<u32>,
    k: nat,
    hits: Seq<Hit>,
    score: spec_fn(u32, u32) -> bool,
) where
    D: Fn(&[u32], &[u32]) -> u32,
    B: Fn(&[u32], &[u8]) -> u32,
    T: Fn(u32, u32) -> u32,

    requires
        s.selected(kern, ids, k, hits),
        forall|id: u32, x: u32| #[trigger] s.scores(kern, id, x) ==> score(id, x),
    ensures
        best(score, ids, k, hits),
{
    laws::law_result(s, kern, ids, k, hits);
    assert forall|i: int| 0 <= i < hits.len() implies ids.contains((#[trigger] hits[i]).id) && score(
        hits[i].id,
        hits[i].score,
    ) by {
        assert(s.scores(kern, hits[i].id, hits[i].score));
    }
    assert forall|i: int, j: int| 0 <= i < j < hits.len() implies before(
        #[trigger] hits[i],
        #[trigger] hits[j],
    ) || hits[i] == hits[j] by {
        assert(hit::at_least(hits[i], hits[j]));
    }
    if k > 0 {
        let scored = choose|scored: Seq<Hit>| #[trigger]
            s.scored(kern, ids, scored) && hits == hit::top(scored, k);
        assert(ids_of(scored) =~= ids);
        lemma_no_more(scored, ids, k, hits);
    } else {
        assert(ids_of(hits) =~= Seq::<u32>::empty());
        Seq::<u32>::empty().to_multiset_ensures();
        assert forall|id: u32| #[trigger] ids_of(hits).to_multiset().count(id)
            <= ids.to_multiset().count(id) by {}
    }
    if k > 0 {
        assert forall|n: int| 0 <= n < ids.len() implies placed(score, #[trigger] ids[n], hits) by {
            assert(laws::accounted_for(s, kern, ids[n], hits));
            let h = choose|h: Hit|
                h.id == ids[n] && s.scores(kern, ids[n], h.score) && #[trigger]
                laws::kept_or_beaten(hits, h);
            assert(h == (Hit { id: ids[n], score: h.score }));
            assert(score(ids[n], h.score));
            if !hits.contains(h) {
                assert forall|i: int| 0 <= i < hits.len() implies before(#[trigger] hits[i], h) by {
                    assert(hit::beats(hits[i], h));
                }
            }
        }
    }
}

/// The candidates of a scan: the ids that the filter holds, or all rows.
pub open spec fn scanned(filter: Option<&Bitset>, rows: nat, ids: Seq<u32>) -> bool {
    &&& forall|i: int, j: int| 0 <= i < j < ids.len() ==> ids[i] < ids[j]
    &&& forall|id: u32| #[trigger]
        ids.contains(id) <==> match filter {
            Some(f) => f@.contains(id),
            None => id < rows,
        }
}

/// `hits` are the best `k` of the candidates of a scan.
pub open spec fn best_of_scan(
    score: spec_fn(u32, u32) -> bool,
    filter: Option<&Bitset>,
    rows: nat,
    k: nat,
    hits: Seq<Hit>,
) -> bool {
    exists|ids: Seq<u32>| #[trigger] scanned(filter, rows, ids) && best(score, ids, k, hits)
}

pub proof fn lemma_scanned(filter: Option<&Bitset>, rows: nat, ids: Seq<u32>)
    requires
        rows <= u32::MAX,
        scorer::candidates(filter, rows, ids),
    ensures
        scanned(filter, rows, ids),
{
    if filter is None {
        assert forall|id: u32| #[trigger] ids.contains(id) <==> id < rows by {
            if id < rows {
                assert(ids[id as int] == id);
            }
        }
    }
}

/// The dimensions of query and view, where the query has one.
pub open spec fn dimensions(s: Scorer<'_>) -> Option<(nat, nat)> {
    match s {
        Scorer::F32 { query } => Some((query.query@.len(), query.view.columns())),
        Scorer::I8 { query } => Some((query.query.codes@.len(), query.view.columns())),
        Scorer::Bin { query } => None,
        Scorer::F32Bin { query } => Some((query.query@.len(), query.view.columns())),
        Scorer::I8Bin { query } => Some((query.query.codes@.len(), query.view.columns())),
    }
}

/// The rows of the view.
pub open spec fn rows(s: Scorer<'_>) -> nat {
    match s {
        Scorer::F32 { query } => query.view.matrix().len(),
        Scorer::I8 { query } => query.view.matrix().len(),
        Scorer::Bin { query } => query.view.matrix().len(),
        Scorer::F32Bin { query } => query.view.matrix().len(),
        Scorer::I8Bin { query } => query.view.matrix().len(),
    }
}

/// A scan refuses a query of another dimension than the view's, and then a
/// filter that covers another number of ids than there are rows. It answers
/// everything else with the best candidates: all rows, or those that the
/// filter holds.
pub proof fn law_scan<D, B, T>(
    s: Scorer<'_>,
    kern: &Kernels<D, B, T>,
    k: usize,
    filter: Option<&Bitset>,
    r: Result<Vec<Hit>, ScanError>,
) where
    D: Fn(&[u32], &[u32]) -> u32,
    B: Fn(&[u32], &[u8]) -> u32,
    T: Fn(u32, u32) -> u32,

    requires
        rows(s) <= u32::MAX,
        call_ensures(Scorer::top_k::<D, B, T>, (s, kern, k, filter), r),
    ensures
        dimensions(s) is Some && (dimensions(s)->0).0 != (dimensions(s)->0).1 ==> r == Err::<
            Vec<Hit>,
            ScanError,
        >(
            ScanError::QueryDim {
                query_dim: (dimensions(s)->0).0 as usize,
                view_dim: (dimensions(s)->0).1 as usize,
            },
        ),
        (dimensions(s) is None || (dimensions(s)->0).0 == (dimensions(s)->0).1) && filter is Some
            && filter->0.size() != rows(s) ==> r == Err::<Vec<Hit>, ScanError>(
            ScanError::FilterLen {
                filter_len: filter->0.size() as usize,
                rows: rows(s) as usize,
            },
        ),
        (dimensions(s) is None || (dimensions(s)->0).0 == (dimensions(s)->0).1) && (filter is None
            || filter->0.size() == rows(s)) ==> r is Ok && best_of_scan(
            |id: u32, score: u32| s.scores(*kern, id, score),
            filter,
            rows(s),
            k as nat,
            r->Ok_0@,
        ),
{
    if r is Ok {
        let ids = choose|ids: Seq<u32>| #[trigger]
            scorer::candidates(filter, s.row_total(), ids) && s.selected(
                *kern,
                ids,
                k as nat,
                r->Ok_0@,
            );
        lemma_scanned(filter, rows(s), ids);
        lemma_best(
            s,
            *kern,
            ids,
            k as nat,
            r->Ok_0@,
            |id: u32, score: u32| s.scores(*kern, id, score),
        );
    }
}

/// A rerank refuses a query of another dimension than the view's, and answers
/// everything else with the best of the candidates that it was given.
pub proof fn law_rerank<D, B, T>(
    s: Scorer<'_>,
    kern: &Kernels<D, B, T>,
    candidates: &[u32],
    k: usize,
    r: Result<Vec<Hit>, ScanError>,
) where
    D: Fn(&[u32], &[u32]) -> u32,
    B: Fn(&[u32], &[u8]) -> u32,
    T: Fn(u32, u32) -> u32,

    requires
        call_ensures(Scorer::rerank::<D, B, T>, (s, kern, candidates, k), r),
    ensures
        dimensions(s) is Some && (dimensions(s)->0).0 != (dimensions(s)->0).1 ==> r == Err::<
            Vec<Hit>,
            ScanError,
        >(
            ScanError::QueryDim {
                query_dim: (dimensions(s)->0).0 as usize,
                view_dim: (dimensions(s)->0).1 as usize,
            },
        ),
        dimensions(s) is None || (dimensions(s)->0).0 == (dimensions(s)->0).1 ==> r is Ok && best(
            |id: u32, score: u32| s.scores(*kern, id, score),
            candidates@,
            k as nat,
            r->Ok_0@,
        ),
{
    if r is Ok {
        lemma_best(
            s,
            *kern,
            candidates@,
            k as nat,
            r->Ok_0@,
            |id: u32, score: u32| s.scores(*kern, id, score),
        );
    }
}

/// Selecting by a score gives the best candidates by it.
pub proof fn law_selection_by_score<F: Fn(u32) -> u32>(
    candidates: &[u32],
    score: F,
    k: usize,
    r: Vec<Hit>,
)
    requires
        call_ensures(select::select_top_k::<F>, (candidates, score, k), r),
    ensures
        best(
            |id: u32, s: u32| call_ensures(score, (id,), s),
            candidates@,
            k as nat,
            r@,
        ),
{
    let rated = |id: u32, s: u32| call_ensures(score, (id,), s);
    let (ids, hits) = (candidates@, r@);
    if k == 0 {
        assert(ids_of(hits) =~= Seq::<u32>::empty());
        Seq::<u32>::empty().to_multiset_ensures();
    } else {
        let scored = choose|scored: Seq<Hit>| #[trigger]
            select::scored_by(ids, score, scored) && hits == hit::top(scored, k as nat);
        assert(ids_of(scored) =~= ids);
        lemma_no_more(scored, ids, k as nat, hits);
        hit::law_prefix(scored, k as nat, k as nat);
        hit::law_selection(scored, k as nat);
        assert forall|i: int| 0 <= i < hits.len() implies ids.contains((#[trigger] hits[i]).id)
            && rated(hits[i].id, hits[i].score) by {
            assert(hits.contains(hits[i]));
            let n = choose|n: int| 0 <= n < scored.len() && scored[n] == hits[i];
            assert(scored[n].id == ids[n]);
        }
        assert forall|i: int, j: int| 0 <= i < j < hits.len() implies before(
            #[trigger] hits[i],
            #[trigger] hits[j],
        ) || hits[i] == hits[j] by {
            assert(hit::at_least(hits[i], hits[j]));
        }
        assert forall|n: int| 0 <= n < ids.len() implies placed(rated, #[trigger] ids[n], hits) by {
            let h = scored[n];
            assert(h == (Hit { id: ids[n], score: h.score }));
            assert(scored.contains(h));
            assert(rated(ids[n], h.score));
            if !hits.contains(h) {
                assert forall|i: int| 0 <= i < hits.len() implies before(#[trigger] hits[i], h) by {
                    assert(hit::beats(hits[i], h));
                }
            }
        }
    }
}

/// What refused inputs are told: both sides of the mismatch, each by its name.
pub proof fn law_scan_messages(e: &ScanError, r: String)
    requires
        call_ensures(ScanError::to_string, (e,), r),
    ensures
        *e matches ScanError::FilterLen { filter_len, rows } ==> r@ == "filter covers "@
            + text::decimal(filter_len as nat) + " ids but the view has "@ + text::decimal(
            rows as nat,
        ) + " rows"@,
        *e matches ScanError::QueryDim { query_dim, view_dim } ==> r@ == "query dim "@
            + text::decimal(query_dim as nat) + " vs view dim "@ + text::decimal(view_dim as nat),
{
}

/// Comparing two hits agrees with which of them is better; only equal hits
/// compare equal.
pub proof fn law_comparison(a: &Hit, b: &Hit, r: Ordering, better: bool, worse: bool)
    requires
        call_ensures(Hit::cmp, (a, b), r),
        call_ensures(Hit::is_better, (a, b), better),
        call_ensures(Hit::is_better, (b, a), worse),
    ensures
        r == Ordering::Greater <==> better,
        r == Ordering::Less <==> worse,
        r == Ordering::Equal <==> a.id == b.id && a.score == b.score,
{
}

} // verus!
