//! What holds of the evaluation as a whole, for kernels that give one result
//! for one input.

use vstd::prelude::*;
use vstd::seq_lib::*;
use crate::bitset::{self, Bitset};
use crate::kernels::backend::Kernels;
use crate::ratio::Ratio;
use crate::recall::data::Data;
use crate::recall::eval::{self, Cell, Coarse, Row, Store};
use crate::recall::measure;
use crate::recall::run;
use crate::scan::hit::{self, Hit};
use crate::scan::laws;
use crate::scan::scorer::{self, Scorer};

verus! {

/// The candidates of a scan are the same ids whenever it runs, each once.
proof fn lemma_same_candidates(filter: Option<&Bitset>, rows: nat, a: Seq<u32>, b: Seq<u32>)
    requires
        rows <= u32::MAX,
        scorer::candidates(filter, rows, a),
        scorer::candidates(filter, rows, b),
    ensures
        a.no_duplicates(),
        a.to_multiset() == b.to_multiset(),
{
    if filter is Some {
        bitset::lemma_lists_same(a, b, filter->0@);
    }
}

/// The pool of a smaller depth is a prefix of the pool of a greater one: one
/// shared scan serves every combination of factor and `k`.
pub proof fn law_shared_scan<D, B, T>(
    kern: Kernels<D, B, T>,
    data: &Data,
    coarse: Coarse,
    qi: int,
    filter: Option<&Bitset>,
    depth: nat,
    factor: nat,
    k: nat,
    shared: Seq<Hit>,
    own: Seq<Hit>,
) where
    D: Fn(&[u32], &[u32]) -> u32,
    B: Fn(&[u32], &[u8]) -> u32,
    T: Fn(u32, u32) -> u32,

    requires
        laws::deterministic(kern),
        data.rows() <= u32::MAX,
        factor * k <= depth,
        eval::found(kern, data, coarse, qi, filter, depth, shared),
        eval::found(kern, data, coarse, qi, filter, factor * k, own),
    ensures
        eval::pool_part(measure::ids_of(shared), factor, k) == measure::ids_of(own),
{
    let (s, ids) = choose|s: Scorer<'_>, ids: Seq<u32>|
        {
            &&& #[trigger] coarse.binds(data, qi, s)
            &&& #[trigger] scorer::candidates(filter, data.rows(), ids)
            &&& s.selected(kern, ids, depth, shared)
        };
    let (t, others) = choose|t: Scorer<'_>, others: Seq<u32>|
        {
            &&& #[trigger] coarse.binds(data, qi, t)
            &&& #[trigger] scorer::candidates(filter, data.rows(), others)
            &&& t.selected(kern, others, factor * k, own)
        };
    eval::lemma_bound_alike(coarse, data, qi, s, t);
    lemma_same_candidates(filter, data.rows(), ids, others);
    lemma_reselect(t, kern, others, ids, factor * k, own);
    laws::law_scan_prefix(t, s, kern, ids, factor * k, depth, own, shared);
    laws::law_result(s, kern, ids, depth, shared);
    let part = eval::pool_part(measure::ids_of(shared), factor, k);
    assert(part =~= measure::ids_of(own));
}

/// What is selected from some ids is also selected from the same ids in
/// another order.
proof fn lemma_reselect<D, B, T>(
    s: Scorer<'_>,
    kern: Kernels<D, B, T>,
    ids: Seq<u32>,
    others: Seq<u32>,
    k: nat,
    r: Seq<Hit>,
) where
    D: Fn(&[u32], &[u32]) -> u32,
    B: Fn(&[u32], &[u8]) -> u32,
    T: Fn(u32, u32) -> u32,

    requires
        laws::deterministic(kern),
        ids.to_multiset() == others.to_multiset(),
        s.selected(kern, ids, k, r),
    ensures
        s.selected(kern, others, k, r),
{
    if k > 0 {
        let hits = choose|hits: Seq<Hit>| #[trigger]
            s.scored(kern, ids, hits) && r == hit::top(hits, k);
        ids.to_multiset_ensures();
        others.to_multiset_ensures();
        let score_of = |id: u32| hits[choose|i: int| 0 <= i < ids.len() && ids[i] == id].score;
        let moved = others.map_values(|id: u32| Hit { id, score: score_of(id) });
        assert forall|i: int| 0 <= i < others.len() implies (#[trigger] moved[i]).id == others[i]
            && s.scores(kern, others[i], moved[i].score) by {
            let id = others[i];
            assert(others.contains(id));
            assert(others.to_multiset().count(id) > 0);
            assert(ids.contains(id));
            let n = choose|n: int| 0 <= n < ids.len() && ids[n] == id;
            assert(hits[n].id == id);
        }
        assert(s.scored(kern, others, moved));
        laws::lemma_same_hits(s, s, kern, ids, others, hits, moved);
        hit::law_order_independent(hits, moved, k);
    }
}

/// Scanning the same query again gives the same hits.
pub proof fn law_scan_repeats<D, B, T>(
    kern: Kernels<D, B, T>,
    data: &Data,
    coarse: Coarse,
    qi: int,
    filter: Option<&Bitset>,
    k: nat,
    a: Seq<Hit>,
    b: Seq<Hit>,
) where
    D: Fn(&[u32], &[u32]) -> u32,
    B: Fn(&[u32], &[u8]) -> u32,
    T: Fn(u32, u32) -> u32,

    requires
        laws::deterministic(kern),
        data.rows() <= u32::MAX,
        eval::found(kern, data, coarse, qi, filter, k, a),
        eval::found(kern, data, coarse, qi, filter, k, b),
    ensures
        a == b,
{
    let (s, ids) = choose|s: Scorer<'_>, ids: Seq<u32>|
        {
            &&& #[trigger] coarse.binds(data, qi, s)
            &&& #[trigger] scorer::candidates(filter, data.rows(), ids)
            &&& s.selected(kern, ids, k, a)
        };
    let (t, others) = choose|t: Scorer<'_>, others: Seq<u32>|
        {
            &&& #[trigger] coarse.binds(data, qi, t)
            &&& #[trigger] scorer::candidates(filter, data.rows(), others)
            &&& t.selected(kern, others, k, b)
        };
    eval::lemma_bound_alike(coarse, data, qi, s, t);
    lemma_same_candidates(filter, data.rows(), ids, others);
    laws::law_candidate_order_is_irrelevant(s, t, kern, ids, others, k, a, b);
}

/// The control row is exact: against the ground truth of the same kernels and
/// filter, every query's recall is 1 at every depth.
pub proof fn law_control_row_is_exact<D, B, T>(
    kern: Kernels<D, B, T>,
    data: &Data,
    filter: Option<&Bitset>,
    row: Row,
    ks: Seq<usize>,
    gt: Seq<Vec<Hit>>,
) where
    D: Fn(&[u32], &[u32]) -> u32,
    B: Fn(&[u32], &[u8]) -> u32,
    T: Fn(u32, u32) -> u32,

    requires
        laws::deterministic(kern),
        data.rows() <= u32::MAX,
        run::all_found(
            kern,
            data,
            Coarse::F32Control,
            filter,
            run::greatest(ks) as nat,
            gt,
        ),
        run::data_scan_row(kern, data, filter, row, eval::single(Coarse::F32Control), ks, gt),
    ensures
        forall|ki: int, qi: int|
            0 <= ki < ks.len() && 0 <= qi < gt.len() ==> (#[trigger] row.recalls@[ki]@[qi]).numerator
                == row.recalls@[ki]@[qi].denominator,
{
    let kmax = run::greatest(ks) as nat;
    let results = choose|results: Seq<Vec<Hit>>| #[trigger]
        run::all_found(kern, data, Coarse::F32Control, filter, kmax, results)
            && eval::recalls_of_scans(row.recalls@, results, ks, gt);
    assert forall|ki: int, qi: int| 0 <= ki < ks.len() && 0 <= qi < gt.len() implies (
    #[trigger] row.recalls@[ki]@[qi]).numerator == row.recalls@[ki]@[qi].denominator by {
        assert(eval::found(kern, data, Coarse::F32Control, qi, filter, kmax, results[qi]@));
        assert(eval::found(kern, data, Coarse::F32Control, qi, filter, kmax, gt[qi]@));
        law_scan_repeats(
            kern,
            data,
            Coarse::F32Control,
            qi,
            filter,
            kmax,
            results[qi]@,
            gt[qi]@,
        );
        assert(row.recalls@[ki]@[qi] == measure::recall_against(
            results[qi]@,
            ks[ki] as nat,
            gt[qi]@,
        ));
        lemma_self_recall(gt[qi]@, ks[ki] as nat);
    }
}

/// A result has recall 1 against itself.
proof fn lemma_self_recall(hits: Seq<Hit>, k: nat)
    ensures
        measure::recall_against(hits, k, hits).numerator == measure::recall_against(
            hits,
            k,
            hits,
        ).denominator,
{
    let n = measure::least(k, hits.len());
    let ids = measure::ids_of(hits.take(n as int));
    measure::lemma_all_match(hits, n, n, ids);
}

/// The ids that a query wants: those of the ground truth's first `k` hits.
pub open spec fn wanted(truth: Seq<Hit>, k: nat) -> Seq<u32> {
    measure::ids_of(truth.take(measure::least(k, truth.len()) as int))
}

/// The wanted ids that a pool holds.
pub open spec fn pooled(pool: Seq<u32>, truth: Seq<Hit>, k: nat) -> Set<u32> {
    wanted(truth, k).to_set().intersect(pool.to_set())
}

/// How much of what a query wants its pool holds: the share of the wanted ids
/// that are in the pool, 1 where none is wanted.
pub open spec fn pool_recall(pool: Seq<u32>, truth: Seq<Hit>, k: nat) -> Ratio {
    if wanted(truth, k).len() == 0 {
        Ratio { numerator: 1, denominator: 1 }
    } else {
        Ratio {
            numerator: pooled(pool, truth, k).len() as u128,
            denominator: wanted(truth, k).len() as u128,
        }
    }
}

/// Reranking in single precision finds exactly the wanted ids that the pool
/// holds: the recall after the rerank is the pool's.
pub proof fn law_exact_rerank_recall<D, B, T>(
    kern: Kernels<D, B, T>,
    data: &Data,
    qi: int,
    filter: Option<&Bitset>,
    kmax: nat,
    k: nat,
    truth: Seq<Hit>,
    ids: Seq<u32>,
    pool: Seq<u32>,
    r: Seq<Hit>,
) where
    D: Fn(&[u32], &[u32]) -> u32,
    B: Fn(&[u32], &[u8]) -> u32,
    T: Fn(u32, u32) -> u32,

    requires
        laws::deterministic(kern),
        data.rows() <= u32::MAX,
        k <= kmax,
        eval::found(kern, data, Coarse::F32Control, qi, filter, kmax, truth),
        scorer::candidates(filter, data.rows(), ids),
        pool.no_duplicates(),
        forall|id: u32| #[trigger] pool.contains(id) ==> ids.contains(id),
        eval::reranked(kern, data, Store::F32, qi, pool, k, r),
    ensures
        measure::recall_against(r, k, truth) == pool_recall(pool, truth, k),
{
    if k > 0 {
        lemma_exact_matches(kern, data, qi, filter, kmax, k, truth, ids, pool, r);
    } else {
        assert(wanted(truth, k).len() == 0);
    }
}

/// The matches of an exact rerank are the wanted ids of its pool.
proof fn lemma_exact_matches<D, B, T>(
    kern: Kernels<D, B, T>,
    data: &Data,
    qi: int,
    filter: Option<&Bitset>,
    kmax: nat,
    k: nat,
    truth: Seq<Hit>,
    ids: Seq<u32>,
    pool: Seq<u32>,
    r: Seq<Hit>,
) where
    D: Fn(&[u32], &[u32]) -> u32,
    B: Fn(&[u32], &[u8]) -> u32,
    T: Fn(u32, u32) -> u32,

    requires
        laws::deterministic(kern),
        data.rows() <= u32::MAX,
        0 < k <= kmax,
        eval::found(kern, data, Coarse::F32Control, qi, filter, kmax, truth),
        scorer::candidates(filter, data.rows(), ids),
        pool.no_duplicates(),
        forall|id: u32| #[trigger] pool.contains(id) ==> ids.contains(id),
        eval::reranked(kern, data, Store::F32, qi, pool, k, r),
    ensures
        measure::matches_among(r, measure::least(k, r.len()), wanted(truth, k)) == pooled(
            pool,
            truth,
            k,
        ).len(),
{
    let want = wanted(truth, k);
    let t = choose|t: Scorer<'_>| #[trigger]
        Store::F32.kind().binds(data, qi, t) && t.selected(kern, pool, k, r);
    let (u, others) = choose|u: Scorer<'_>, others: Seq<u32>|
        {
            &&& #[trigger] Coarse::F32Control.binds(data, qi, u)
            &&& #[trigger] scorer::candidates(filter, data.rows(), others)
            &&& u.selected(kern, others, kmax, truth)
        };
    lemma_same_candidates(filter, data.rows(), others, ids);
    eval::lemma_bound_alike(Coarse::F32Control, data, qi, t, u);
    let all = choose|hits: Seq<Hit>| #[trigger]
        u.scored(kern, others, hits) && truth == hit::top(hits, kmax);
    let part = choose|hits: Seq<Hit>| #[trigger]
        t.scored(kern, pool, hits) && r == hit::top(hits, k);
    laws::law_result(t, kern, pool, k, r);
    laws::lemma_result_no_duplicates(t, kern, pool, k, r);
    let m = measure::least(k, r.len());
    measure::lemma_matches_are_members(r, m, want);
    let found = measure::matched_ids(r, m, want);
    hit::law_prefix(all, k, kmax);
    assert(truth.take(measure::least(k, truth.len()) as int) =~= hit::top(all, k)) by {
        hit::law_prefix(all, kmax, kmax);
    }
    others.to_multiset_ensures();
    ids.to_multiset_ensures();
    assert forall|h: Hit| #[trigger] part.contains(h) implies all.contains(h) by {
        let i = choose|i: int| 0 <= i < part.len() && part[i] == h;
        assert(part[i].id == pool[i]);
        assert(pool.contains(pool[i]));
        assert(ids.contains(h.id));
        assert(ids.to_multiset().count(h.id) > 0);
        assert(others.contains(h.id));
        let j = choose|j: int| 0 <= j < others.len() && others[j] == h.id;
        assert(all[j].id == h.id);
        laws::law_scores_determined(t, u, kern, h.id, h.score, all[j].score);
        assert(all[j] == h);
    }
    assert(part.no_duplicates()) by {
        assert forall|i: int, j: int| 0 <= i < part.len() && 0 <= j < part.len() && i != j implies part[i]
            != part[j] by {
            assert(part[i].id == pool[i] && part[j].id == pool[j]);
        }
    }
    assert forall|id: u32| #[trigger] pooled(pool, truth, k).contains(id) implies found.contains(
        id,
    ) by {
        assert(pool.contains(id) && want.contains(id));
        let d = choose|d: int| 0 <= d < pool.len() && pool[d] == id;
        let w = choose|w: int| 0 <= w < want.len() && want[w] == id;
        let h = hit::top(all, k)[w];
        assert(h.id == id);
        assert(hit::top(all, k).contains(h));
        hit::law_selection(all, k);
        assert(all.contains(h));
        let j = choose|j: int| 0 <= j < all.len() && all[j] == h;
        assert(part[d].id == id);
        assert(all[j].id == others[j]);
        laws::law_scores_determined(t, u, kern, id, part[d].score, h.score);
        assert(part[d] == h);
        hit::law_best_survive_in_parts(all, part, k, h);
        let e = choose|e: int| 0 <= e < r.len() && r[e] == h;
        measure::lemma_match_is_member(r, m, want, e);
    }
    assert forall|id: u32| #[trigger] found.contains(id) implies pooled(pool, truth, k).contains(
        id,
    ) by {
        let i = choose|i: int| 0 <= i < m && (#[trigger] r[i]).id == id;
        assert(pool.contains(r[i].id));
    }
    assert(found =~= pooled(pool, truth, k));
}

/// A pool that holds the ids of another has at least its recall.
proof fn lemma_pool_monotone(shallow: Seq<u32>, deep: Seq<u32>, truth: Seq<Hit>, k: nat)
    requires
        wanted(truth, k).len() <= u64::MAX,
        forall|id: u32| #[trigger] shallow.contains(id) ==> deep.contains(id),
    ensures
        pool_recall(shallow, truth, k).denominator == pool_recall(deep, truth, k).denominator,
        pool_recall(shallow, truth, k).numerator <= pool_recall(deep, truth, k).numerator,
{
    let (want, x, y) = (wanted(truth, k), pooled(shallow, truth, k), pooled(deep, truth, k));
    seq_to_set_is_finite(want);
    assert(x.subset_of(y)) by {
        assert forall|id: u32| x.contains(id) implies y.contains(id) by {
            assert(shallow.contains(id));
        }
    }
    vstd::set_lib::lemma_len_subset(x, y);
    vstd::set_lib::lemma_len_subset(y, want.to_set());
    want.lemma_cardinality_of_set();
}

/// Reranking in single precision never loses recall by looking deeper: where
/// one pool holds the ids of another, its recall is at least as high.
pub proof fn law_exact_rerank_is_monotone<D, B, T>(
    kern: Kernels<D, B, T>,
    data: &Data,
    qi: int,
    filter: Option<&Bitset>,
    kmax: nat,
    k: nat,
    truth: Seq<Hit>,
    ids: Seq<u32>,
    shallow: Seq<u32>,
    deep: Seq<u32>,
    a: Seq<Hit>,
    b: Seq<Hit>,
) where
    D: Fn(&[u32], &[u32]) -> u32,
    B: Fn(&[u32], &[u8]) -> u32,
    T: Fn(u32, u32) -> u32,

    requires
        laws::deterministic(kern),
        data.rows() <= u32::MAX,
        k <= kmax,
        eval::found(kern, data, Coarse::F32Control, qi, filter, kmax, truth),
        scorer::candidates(filter, data.rows(), ids),
        shallow.no_duplicates(),
        deep.no_duplicates(),
        forall|id: u32| #[trigger] shallow.contains(id) ==> deep.contains(id),
        forall|id: u32| #[trigger] deep.contains(id) ==> ids.contains(id),
        eval::reranked(kern, data, Store::F32, qi, shallow, k, a),
        eval::reranked(kern, data, Store::F32, qi, deep, k, b),
    ensures
        measure::recall_against(a, k, truth).denominator == measure::recall_against(
            b,
            k,
            truth,
        ).denominator,
        measure::recall_against(a, k, truth).numerator <= measure::recall_against(
            b,
            k,
            truth,
        ).numerator,
{
    law_exact_rerank_recall(kern, data, qi, filter, kmax, k, truth, ids, shallow, a);
    law_exact_rerank_recall(kern, data, qi, filter, kmax, k, truth, ids, deep, b);
    lemma_truth_bounded(kern, data, qi, filter, kmax, truth);
    lemma_pool_monotone(shallow, deep, truth, k);
}

/// There are no more true hits than rows.
proof fn lemma_truth_bounded<D, B, T>(
    kern: Kernels<D, B, T>,
    data: &Data,
    qi: int,
    filter: Option<&Bitset>,
    kmax: nat,
    truth: Seq<Hit>,
) where
    D: Fn(&[u32], &[u32]) -> u32,
    B: Fn(&[u32], &[u8]) -> u32,
    T: Fn(u32, u32) -> u32,

    requires
        data.rows() <= u32::MAX,
        eval::found(kern, data, Coarse::F32Control, qi, filter, kmax, truth),
    ensures
        truth.len() <= 0x1_0000_0000,
{
    let (u, ids) = choose|u: Scorer<'_>, ids: Seq<u32>|
        {
            &&& #[trigger] Coarse::F32Control.binds(data, qi, u)
            &&& #[trigger] scorer::candidates(filter, data.rows(), ids)
            &&& u.selected(kern, ids, kmax, truth)
        };
    laws::law_result(u, kern, ids, kmax, truth);
    if filter is Some {
        lemma_ascending_bounded(ids, ids.len() as int);
    }
}

/// An ascending list holds no more ids than there are.
proof fn lemma_ascending_bounded(ids: Seq<u32>, n: int)
    requires
        0 <= n <= ids.len(),
        forall|i: int, j: int| 0 <= i < j < ids.len() ==> ids[i] < ids[j],
    ensures
        n <= 0x1_0000_0000,
        n > 0 ==> ids[n - 1] >= n - 1,
    decreases n,
{
    if n > 0 {
        lemma_ascending_bounded(ids, n - 1);
        let last: u32 = ids[n - 1];
        assert(last >= n - 1);
    }
}

/// The front of a scan's result is what a scan for fewer hits can give.
proof fn lemma_shallower<D, B, T>(
    kern: Kernels<D, B, T>,
    data: &Data,
    coarse: Coarse,
    qi: int,
    filter: Option<&Bitset>,
    depth: nat,
    k: nat,
    shared: Seq<Hit>,
) where
    D: Fn(&[u32], &[u32]) -> u32,
    B: Fn(&[u32], &[u8]) -> u32,
    T: Fn(u32, u32) -> u32,

    requires
        k <= depth,
        eval::found(kern, data, coarse, qi, filter, depth, shared),
    ensures
        eval::found(
            kern,
            data,
            coarse,
            qi,
            filter,
            k,
            shared.take(measure::least(k, shared.len()) as int),
        ),
{
    let (s, ids) = choose|s: Scorer<'_>, ids: Seq<u32>|
        {
            &&& #[trigger] coarse.binds(data, qi, s)
            &&& #[trigger] scorer::candidates(filter, data.rows(), ids)
            &&& s.selected(kern, ids, depth, shared)
        };
    let front = shared.take(measure::least(k, shared.len()) as int);
    if k > 0 {
        let hits = choose|hits: Seq<Hit>| #[trigger]
            s.scored(kern, ids, hits) && shared == hit::top(hits, depth);
        hit::law_prefix(hits, k, depth);
        hit::law_prefix(hits, depth, depth);
        assert(front =~= hit::top(hits, k));
    } else {
        assert(front =~= Seq::<Hit>::empty());
    }
    assert(s.selected(kern, ids, k, front));
}

/// A row of an exact rerank reports, for every query and depth, the share of
/// the wanted ids that the query's own coarse scan for `factor * k` hits finds.
pub proof fn law_exact_rerank_row<D, B, T>(
    kern: Kernels<D, B, T>,
    data: &Data,
    filter: Option<&Bitset>,
    row: Row,
    coarse: Coarse,
    factor: usize,
    cells: Seq<Cell>,
    ks: Seq<usize>,
    gt: Seq<Vec<Hit>>,
    ki: int,
    qi: int,
    own: Seq<Hit>,
) where
    D: Fn(&[u32], &[u32]) -> u32,
    B: Fn(&[u32], &[u8]) -> u32,
    T: Fn(u32, u32) -> u32,

    requires
        laws::deterministic(kern),
        data.rows() <= u32::MAX,
        run::all_found(
            kern,
            data,
            Coarse::F32Control,
            filter,
            run::greatest(ks) as nat,
            gt,
        ),
        cells.contains(exact_cell(coarse, factor)),
        run::data_row(
            kern,
            data,
            filter,
            row,
            exact_cell(coarse, factor),
            cells,
            ks,
            gt,
        ),
        0 <= ki < ks.len(),
        0 <= qi < gt.len(),
        eval::found(kern, data, coarse, qi, filter, (factor * ks[ki]) as nat, own),
    ensures
        row.recalls@[ki]@[qi] == pool_recall(measure::ids_of(own), gt[qi]@, ks[ki] as nat),
{
    let cell = exact_cell(coarse, factor);
    let depth = run::depth(cells, coarse, ks) as nat;
    run::lemma_depth_covers(cells, cell, ks);
    let (hits, pools, results) = choose|
        hits: Seq<Vec<Hit>>,
        pools: Seq<Vec<u32>>,
        results: Seq<Vec<Vec<Hit>>>,
    |
        {
            &&& #[trigger] run::all_found(kern, data, coarse, filter, depth, hits)
            &&& #[trigger] run::pools_of(hits, pools)
            &&& run::all_reranked(
                kern,
                data,
                (cell.two_stage->0).0,
                pools,
                run::factor_of(cell) as nat,
                ks,
                results,
            )
            &&& #[trigger] eval::recalls_of_reranks(row.recalls@, results, ks, gt)
        };
    let (f, k, kmax) = (factor as nat, ks[ki] as nat, run::greatest(ks) as nat);
    run::lemma_greatest(ks);
    assert(ks[ki] <= run::greatest(ks));
    assert(f * k <= factor * run::greatest(ks)) by (nonlinear_arith)
        requires
            k <= run::greatest(ks),
            f == factor,
    ;
    assert(eval::found(kern, data, coarse, qi, filter, depth, hits[qi]@));
    assert(eval::found(kern, data, Coarse::F32Control, qi, filter, kmax, gt[qi]@));
    law_shared_scan(kern, data, coarse, qi, filter, depth, f, k, hits[qi]@, own);
    assert(pools[qi]@ == measure::ids_of(hits[qi]@));
    let pool = measure::ids_of(own);
    assert(eval::reranked(
        kern,
        data,
        Store::F32,
        qi,
        eval::pool_part(pools[qi]@, f, k),
        k,
        results[qi]@[ki]@,
    ));
    let (s, ids) = choose|s: Scorer<'_>, ids: Seq<u32>|
        {
            &&& #[trigger] coarse.binds(data, qi, s)
            &&& #[trigger] scorer::candidates(filter, data.rows(), ids)
            &&& s.selected(kern, ids, f * k, own)
        };
    lemma_same_candidates(filter, data.rows(), ids, ids);
    laws::law_result(s, kern, ids, f * k, own);
    laws::lemma_result_no_duplicates(s, kern, ids, f * k, own);
    assert forall|id: u32| #[trigger] pool.contains(id) implies ids.contains(id) by {
        let n = choose|n: int| 0 <= n < pool.len() && pool[n] == id;
        assert(own[n].id == id);
    }
    law_exact_rerank_recall(
        kern,
        data,
        qi,
        filter,
        kmax,
        k,
        gt[qi]@,
        ids,
        pool,
        results[qi]@[ki]@,
    );
    assert(row.recalls@[ki]@[qi] == measure::recall_against(results[qi]@[ki]@, k, gt[qi]@));
}

/// The cell that reranks a coarse kind's pool in single precision.
pub open spec fn exact_cell(coarse: Coarse, factor: usize) -> Cell {
    Cell { coarse, two_stage: Some((Store::F32, factor)) }
}

/// The sum of fractions over a common multiple of their denominators: their
/// mean is this over the multiple and their number.
pub open spec fn sum_over(recalls: Seq<Ratio>, common: nat) -> nat
    decreases recalls.len(),
{
    if recalls.len() == 0 {
        0
    } else {
        let last = recalls.last();
        sum_over(recalls.drop_last(), common) + (last.numerator as nat) * (common
            / last.denominator as nat)
    }
}

/// Fractions that are pairwise at most as great have a sum that is.
proof fn lemma_sum_monotone(a: Seq<Ratio>, b: Seq<Ratio>, common: nat)
    requires
        a.len() == b.len(),
        forall|i: int|
            0 <= i < a.len() ==> (#[trigger] a[i]).denominator == b[i].denominator
                && a[i].numerator <= b[i].numerator,
    ensures
        sum_over(a, common) <= sum_over(b, common),
    decreases a.len(),
{
    if a.len() > 0 {
        lemma_sum_monotone(a.drop_last(), b.drop_last(), common);
        assert(a[a.len() - 1].denominator == b[a.len() - 1].denominator);
        let (x, y, m) = (
            a.last().numerator as nat,
            b.last().numerator as nat,
            common / a.last().denominator as nat,
        );
        assert(x * m <= y * m) by (nonlinear_arith)
            requires
                x <= y,
        ;
    }
}

/// Of two rows that rerank the same coarse kind in single precision, the one
/// with the larger factor never has the smaller recall: not for any query at
/// any depth, and not in the mean over the queries.
pub proof fn law_larger_factor_never_loses<D, B, T>(
    kern: Kernels<D, B, T>,
    data: &Data,
    filter: Option<&Bitset>,
    low: Row,
    high: Row,
    coarse: Coarse,
    smaller: usize,
    larger: usize,
    cells: Seq<Cell>,
    ks: Seq<usize>,
    gt: Seq<Vec<Hit>>,
    ki: int,
    common: nat,
) where
    D: Fn(&[u32], &[u32]) -> u32,
    B: Fn(&[u32], &[u8]) -> u32,
    T: Fn(u32, u32) -> u32,

    requires
        laws::deterministic(kern),
        data.rows() <= u32::MAX,
        run::all_found(
            kern,
            data,
            Coarse::F32Control,
            filter,
            run::greatest(ks) as nat,
            gt,
        ),
        cells.contains(exact_cell(coarse, smaller)),
        run::data_row(
            kern,
            data,
            filter,
            low,
            exact_cell(coarse, smaller),
            cells,
            ks,
            gt,
        ),
        cells.contains(exact_cell(coarse, larger)),
        run::data_row(
            kern,
            data,
            filter,
            high,
            exact_cell(coarse, larger),
            cells,
            ks,
            gt,
        ),
        smaller <= larger,
        0 <= ki < ks.len(),
    ensures
        forall|qi: int|
            0 <= qi < gt.len() ==> (#[trigger] low.recalls@[ki]@[qi]).denominator
                == high.recalls@[ki]@[qi].denominator && low.recalls@[ki]@[qi].numerator
                <= high.recalls@[ki]@[qi].numerator,
        sum_over(low.recalls@[ki]@, common) <= sum_over(high.recalls@[ki]@, common),
{
    let depth = run::depth(cells, coarse, ks) as nat;
    run::lemma_depth_covers(cells, exact_cell(coarse, larger), ks);
    let (hits, pools, results) = choose|
        hits: Seq<Vec<Hit>>,
        pools: Seq<Vec<u32>>,
        results: Seq<Vec<Vec<Hit>>>,
    |
        {
            &&& #[trigger] run::all_found(kern, data, coarse, filter, depth, hits)
            &&& #[trigger] run::pools_of(hits, pools)
            &&& run::all_reranked(
                kern,
                data,
                Store::F32,
                pools,
                larger as nat,
                ks,
                results,
            )
            &&& #[trigger] eval::recalls_of_reranks(high.recalls@, results, ks, gt)
        };
    let (k, most) = (ks[ki] as nat, run::greatest(ks));
    run::lemma_greatest(ks);
    assert(ks[ki] <= most);
    assert(smaller * k <= larger * k && larger * k <= larger * most && smaller * most <= larger
        * most) by (nonlinear_arith)
        requires
            smaller <= larger,
            k <= most,
    ;
    let (few, many) = ((smaller * k) as nat, (larger * k) as nat);
    assert(high.recalls@[ki]@.len() == gt.len() && low.recalls@[ki]@.len() == gt.len());
    assert forall|qi: int| 0 <= qi < gt.len() implies (
    #[trigger] low.recalls@[ki]@[qi]).denominator == high.recalls@[ki]@[qi].denominator
        && low.recalls@[ki]@[qi].numerator <= high.recalls@[ki]@[qi].numerator by {
        let shared = hits[qi]@;
        assert(eval::found(kern, data, coarse, qi, filter, depth, shared));
        lemma_shallower(kern, data, coarse, qi, filter, depth, few, shared);
        lemma_shallower(kern, data, coarse, qi, filter, depth, many, shared);
        let front = shared.take(measure::least(few, shared.len()) as int);
        let longer = shared.take(measure::least(many, shared.len()) as int);
        law_exact_rerank_row(
            kern,
            data,
            filter,
            low,
            coarse,
            smaller,
            cells,
            ks,
            gt,
            ki,
            qi,
            front,
        );
        law_exact_rerank_row(
            kern,
            data,
            filter,
            high,
            coarse,
            larger,
            cells,
            ks,
            gt,
            ki,
            qi,
            longer,
        );
        let (shallow, deep) = (measure::ids_of(front), measure::ids_of(longer));
        assert forall|id: u32| #[trigger] shallow.contains(id) implies deep.contains(id) by {
            let n = choose|n: int| 0 <= n < shallow.len() && shallow[n] == id;
            assert(deep[n] == id);
        }
        assert(eval::found(kern, data, Coarse::F32Control, qi, filter, most as nat, gt[qi]@));
        lemma_truth_bounded(kern, data, qi, filter, most as nat, gt[qi]@);
        lemma_pool_monotone(shallow, deep, gt[qi]@, k);
    }
    lemma_sum_monotone(low.recalls@[ki]@, high.recalls@[ki]@, common);
}

} // verus!
