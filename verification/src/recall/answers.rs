//! What an evaluation reports: which hits every cell of the grid finds, and how
//! much of the truth they hold.

use vstd::prelude::*;
use crate::bitset::Bitset;
use crate::kernels::backend::Kernels;
use crate::ratio::Ratio;
use crate::recall::data::Data;
use crate::recall::eval::{self, Cell, Coarse, Row, Store};
use crate::recall::measure;
use crate::recall::run;
use crate::recall::scores;
use crate::scan::hit::Hit;
use crate::scan::outcome;
use crate::scan::scorer::{self, Scorer};

verus! {

/// The score of a representation.
pub open spec fn scan_score<D, B, T>(
    kern: Kernels<D, B, T>,
    data: &Data,
    coarse: Coarse,
    qi: int,
) -> spec_fn(u32, u32) -> bool where
    D: Fn(&[u32], &[u32]) -> u32,
    B: Fn(&[u32], &[u8]) -> u32,
    T: Fn(u32, u32) -> u32,
 {
    |id: u32, score: u32|
        match coarse {
            Coarse::F32Control => scores::single_score(kern, data, qi, id, score),
            Coarse::I8Sym => scores::int8_score(kern, data, qi, id, score),
            Coarse::BinSym => scores::bits_score(data, qi, id, score),
            Coarse::BinAsymF32q => scores::single_bits_score(kern, data, qi, id, score),
            Coarse::BinAsymI8q => scores::int8_bits_score(kern, data, qi, id, score),
        }
}

/// The score of a store.
pub open spec fn store_score<D, B, T>(
    kern: Kernels<D, B, T>,
    data: &Data,
    store: Store,
    qi: int,
) -> spec_fn(u32, u32) -> bool where
    D: Fn(&[u32], &[u32]) -> u32,
    B: Fn(&[u32], &[u8]) -> u32,
    T: Fn(u32, u32) -> u32,
 {
    |id: u32, score: u32|
        match store {
            Store::F32 => scores::single_score(kern, data, qi, id, score),
            Store::I8 => scores::int8_score(kern, data, qi, id, score),
        }
}

proof fn lemma_bound_scores<D, B, T>(
    kern: Kernels<D, B, T>,
    data: &Data,
    coarse: Coarse,
    qi: int,
    s: Scorer<'_>,
) where
    D: Fn(&[u32], &[u32]) -> u32,
    B: Fn(&[u32], &[u8]) -> u32,
    T: Fn(u32, u32) -> u32,

    requires
        coarse.binds(data, qi, s),
    ensures
        forall|id: u32, x: u32| #[trigger]
            s.scores(kern, id, x) ==> scan_score(kern, data, coarse, qi)(id, x),
{
    if coarse is I8Sym {
        scores::lemma_int8(kern, data, qi, s);
    }
    assert forall|id: u32, x: u32| #[trigger] s.scores(kern, id, x) implies scan_score(
        kern,
        data,
        coarse,
        qi,
    )(id, x) by {}
}

/// What a scan finds is the best by the representation's score.
proof fn lemma_scan<D, B, T>(
    kern: Kernels<D, B, T>,
    data: &Data,
    coarse: Coarse,
    qi: int,
    filter: Option<&Bitset>,
    k: nat,
    hits: Seq<Hit>,
) where
    D: Fn(&[u32], &[u32]) -> u32,
    B: Fn(&[u32], &[u8]) -> u32,
    T: Fn(u32, u32) -> u32,

    requires
        data.rows() <= u32::MAX,
        eval::found(kern, data, coarse, qi, filter, k, hits),
    ensures
        outcome::best_of_scan(
            scan_score(kern, data, coarse, qi),
            filter,
            data.rows(),
            k,
            hits,
        ),
{
    let (s, ids) = choose|s: Scorer<'_>, ids: Seq<u32>|
        {
            &&& #[trigger] coarse.binds(data, qi, s)
            &&& #[trigger] scorer::candidates(filter, data.rows(), ids)
            &&& s.selected(kern, ids, k, hits)
        };
    outcome::lemma_scanned(filter, data.rows(), ids);
    lemma_bound_scores(kern, data, coarse, qi, s);
    outcome::lemma_best(s, kern, ids, k, hits, scan_score(kern, data, coarse, qi));
}

/// What a rerank gives is the best of the pool by the store's score.
proof fn lemma_rerank<D, B, T>(
    kern: Kernels<D, B, T>,
    data: &Data,
    store: Store,
    qi: int,
    pool: Seq<u32>,
    k: nat,
    hits: Seq<Hit>,
) where
    D: Fn(&[u32], &[u32]) -> u32,
    B: Fn(&[u32], &[u8]) -> u32,
    T: Fn(u32, u32) -> u32,

    requires
        eval::reranked(kern, data, store, qi, pool, k, hits),
    ensures
        outcome::best(store_score(kern, data, store, qi), pool, k, hits),
{
    let s = choose|s: Scorer<'_>| #[trigger]
        store.kind().binds(data, qi, s) && s.selected(kern, pool, k, hits);
    lemma_bound_scores(kern, data, store.kind(), qi, s);
    let score = store_score(kern, data, store, qi);
    assert forall|id: u32, x: u32| #[trigger] s.scores(kern, id, x) implies score(id, x) by {
        assert(scan_score(kern, data, store.kind(), qi)(id, x));
    }
    outcome::lemma_best(s, kern, pool, k, hits, score);
}

/// Scanning all queries answers each of them with the best rows by the score of
/// the representation that was asked for.
pub proof fn law_scans_answer_every_query<D, B, T>(
    data: &Data,
    kern: &Kernels<D, B, T>,
    coarse: Coarse,
    k: usize,
    filter: Option<&Bitset>,
    r: Vec<Vec<Hit>>,
) where
    D: Fn(&[u32], &[u32]) -> u32,
    B: Fn(&[u32], &[u8]) -> u32,
    T: Fn(u32, u32) -> u32,

    requires
        data.rows() <= u32::MAX,
        call_ensures(run::scan_queries::<D, B, T>, (data, kern, coarse, k, filter), r),
    ensures
        r@.len() == data.q_f32@.len(),
        forall|q: int|
            0 <= q < r@.len() ==> outcome::best_of_scan(
                scan_score(*kern, data, coarse, q),
                filter,
                data.rows(),
                k as nat,
                (#[trigger] r@[q])@,
            ),
{
    assert forall|q: int| 0 <= q < r@.len() implies outcome::best_of_scan(
        scan_score(*kern, data, coarse, q),
        filter,
        data.rows(),
        k as nat,
        (#[trigger] r@[q])@,
    ) by {
        lemma_scan(*kern, data, coarse, q, filter, k as nat, r@[q]@);
    }
}

/// The ground truth is the best rows by the single-precision dot.
pub proof fn law_truth_is_exact<D, B, T>(
    data: &Data,
    kern: &Kernels<D, B, T>,
    kmax: usize,
    filter: Option<&Bitset>,
    r: Vec<Vec<Hit>>,
) where
    D: Fn(&[u32], &[u32]) -> u32,
    B: Fn(&[u32], &[u8]) -> u32,
    T: Fn(u32, u32) -> u32,

    requires
        data.rows() <= u32::MAX,
        call_ensures(run::ground_truth::<D, B, T>, (data, kern, kmax, filter), r),
    ensures
        r@.len() == data.q_f32@.len(),
        forall|q: int|
            0 <= q < r@.len() ==> outcome::best_of_scan(
                |id: u32, score: u32| scores::single_score(*kern, data, q, id, score),
                filter,
                data.rows(),
                kmax as nat,
                (#[trigger] r@[q])@,
            ),
{
    assert forall|q: int| 0 <= q < r@.len() implies outcome::best_of_scan(
        |id: u32, score: u32| scores::single_score(*kern, data, q, id, score),
        filter,
        data.rows(),
        kmax as nat,
        (#[trigger] r@[q])@,
    ) by {
        lemma_scan(*kern, data, Coarse::F32Control, q, filter, kmax as nat, r@[q]@);
        assert(scan_score(*kern, data, Coarse::F32Control, q) =~= (|id: u32, score: u32|
            scores::single_score(*kern, data, q, id, score)));
    }
}

/// Reranking all pools gives, per query and depth, the best of the front of
/// that query's own pool by the score of the store that was asked for.
pub proof fn law_reranks_answer_every_query<D, B, T>(
    data: &Data,
    kern: &Kernels<D, B, T>,
    store: Store,
    pools: &Vec<Vec<u32>>,
    factor: usize,
    ks: &[usize],
    r: Vec<Vec<Vec<Hit>>>,
) where
    D: Fn(&[u32], &[u32]) -> u32,
    B: Fn(&[u32], &[u8]) -> u32,
    T: Fn(u32, u32) -> u32,

    requires
        call_ensures(
            run::rerank_queries::<D, B, T>,
            (data, kern, store, pools, factor, ks),
            r,
        ),
    ensures
        r@.len() == data.q_f32@.len(),
        forall|q: int| 0 <= q < r@.len() ==> (#[trigger] r@[q])@.len() == ks@.len(),
        forall|q: int, i: int|
            0 <= q < r@.len() && 0 <= i < ks@.len() ==> outcome::best(
                store_score(*kern, data, store, q),
                scores::front(pools@[q]@, factor as int, ks@[i] as int),
                ks@[i] as nat,
                (#[trigger] r@[q]@[i])@,
            ),
{
    assert forall|q: int, i: int| 0 <= q < r@.len() && 0 <= i < ks@.len() implies outcome::best(
        store_score(*kern, data, store, q),
        scores::front(pools@[q]@, factor as int, ks@[i] as int),
        ks@[i] as nat,
        (#[trigger] r@[q]@[i])@,
    ) by {
        let part = eval::pool_part(pools@[q]@, factor as nat, ks@[i] as nat);
        scores::lemma_factor(factor, ks@[i]);
        assert(part == scores::front(pools@[q]@, factor as int, ks@[i] as int));
        lemma_rerank(*kern, data, store, q, part, ks@[i] as nat, r@[q]@[i]@);
    }
}

/// The places among the first `k` hits that hold a wanted id.
pub open spec fn wanted_places(hits: Seq<Hit>, k: int, wanted: spec_fn(u32) -> bool) -> Set<int> {
    Set::new(|i: int| 0 <= i < k && i < hits.len() && wanted(hits[i].id))
}

proof fn lemma_places(hits: Seq<Hit>, n: nat, ids: Seq<u32>, wanted: spec_fn(u32) -> bool)
    requires
        n <= hits.len(),
        forall|id: u32| #[trigger] wanted(id) <==> ids.contains(id),
    ensures
        wanted_places(hits, n as int, wanted).finite(),
        wanted_places(hits, n as int, wanted).len() == measure::matches_among(hits, n, ids),
    decreases n,
{
    let now = wanted_places(hits, n as int, wanted);
    if n == 0 {
        assert(now =~= Set::<int>::empty());
    } else {
        lemma_places(hits, (n - 1) as nat, ids, wanted);
        let before = wanted_places(hits, n - 1, wanted);
        assert(wanted(hits[n - 1].id) <==> ids.contains(hits[n - 1].id));
        if wanted(hits[n - 1].id) {
            assert(now =~= before.insert(n - 1));
        } else {
            assert(now =~= before);
        }
    }
}

/// The recall is the number of the first `k` hits whose id is wanted, over the
/// number of wanted ids; one where nothing is wanted.
pub proof fn law_recall_counts_wanted_ids(result: &[Hit], k: usize, ids: &[u32], r: Ratio)
    requires
        call_ensures(measure::recall_at_k, (result, k, ids), r),
    ensures
        ids@.len() == 0 ==> r.numerator == 1 && r.denominator == 1,
        ids@.len() > 0 ==> r.denominator == ids@.len() && r.numerator == wanted_places(
            result@,
            k as int,
            |id: u32| ids@.contains(id),
        ).len(),
{
    let wanted = |id: u32| ids@.contains(id);
    let n = measure::least(k as nat, result@.len());
    lemma_places(result@, n, ids@, wanted);
    assert(wanted_places(result@, n as int, wanted) =~= wanted_places(result@, k as int, wanted));
    measure::lemma_matches_bounded(result@, n, ids@);
    assert(ids@.len() == ids.len());
    assert(measure::matches_among(result@, n, ids@) <= k);
}

/// The truth's prefixes: per query and depth the ids of the first hits, as many
/// as there are up to the depth, ascending.
pub proof fn law_prefixes_hold_the_first_ids(
    gt: &[Vec<Hit>],
    ks: &[usize],
    r: Vec<Vec<Vec<u32>>>,
    q: int,
    i: int,
)
    requires
        call_ensures(measure::gt_prefixes, (gt, ks), r),
        0 <= q < gt@.len(),
        0 <= i < ks@.len(),
    ensures
        r@.len() == gt@.len(),
        r@[q]@.len() == ks@.len(),
        r@[q]@[i]@.len() == (if ks@[i] < gt@[q]@.len() {
            ks@[i] as nat
        } else {
            gt@[q]@.len()
        }),
        forall|a: int, b: int|
            0 <= a <= b < r@[q]@[i]@.len() ==> #[trigger] r@[q]@[i]@[a] <= #[trigger] r@[q]@[i]@[b],
        forall|id: u32| #[trigger]
            r@[q]@[i]@.contains(id) <==> exists|j: int|
                0 <= j < ks@[i] && j < gt@[q]@.len() && (#[trigger] gt@[q]@[j]).id == id,
{
    let (hits, k, ids) = (gt@[q]@, ks@[i] as nat, r@[q]@[i]@);
    assert(measure::query_prefixes(gt@[q]@, ks@, r@[q]@));
    assert(measure::sorted_prefix(hits, k, ids));
    let n = measure::least(k, hits.len());
    let first = measure::ids_of(hits.take(n as int));
    ids.to_multiset_ensures();
    first.to_multiset_ensures();
    assert forall|id: u32| #[trigger] ids.contains(id) <==> exists|j: int|
        0 <= j < k && j < hits.len() && (#[trigger] hits[j]).id == id by {
        assert(ids.contains(id) <==> ids.to_multiset().count(id) > 0);
        assert(first.contains(id) <==> first.to_multiset().count(id) > 0);
        if first.contains(id) {
            let j = choose|j: int| 0 <= j < first.len() && first[j] == id;
            assert(hits[j].id == id);
        }
        if exists|j: int| 0 <= j < k && j < hits.len() && (#[trigger] hits[j]).id == id {
            let j = choose|j: int| 0 <= j < k && j < hits.len() && (#[trigger] hits[j]).id == id;
            assert(first[j] == id);
        }
    }
}

/// `ratio` is the part of the first `k` hits of the truth that is among the
/// first `k` of `hits`; one where the truth is empty.
pub open spec fn holds_part(ratio: Ratio, hits: Seq<Hit>, k: nat, truth: Seq<Hit>) -> bool {
    let total = if k < truth.len() {
        k
    } else {
        truth.len()
    };
    if total == 0 {
        ratio.numerator == 1 && ratio.denominator == 1
    } else {
        &&& ratio.denominator == total
        &&& ratio.numerator == wanted_places(
            hits,
            k as int,
            |id: u32| exists|j: int| 0 <= j < total && (#[trigger] truth[j]).id == id,
        ).len()
    }
}

proof fn lemma_part(hits: Seq<Hit>, k: usize, truth: Seq<Hit>)
    ensures
        holds_part(measure::recall_against(hits, k as nat, truth), hits, k as nat, truth),
{
    let total = measure::least(k as nat, truth.len());
    let ids = measure::ids_of(truth.take(total as int));
    assert(ids.len() == total);
    let wanted = |id: u32| exists|j: int| 0 <= j < total && (#[trigger] truth[j]).id == id;
    assert forall|id: u32| #[trigger] wanted(id) <==> ids.contains(id) by {
        if wanted(id) {
            let j = choose|j: int| 0 <= j < total && (#[trigger] truth[j]).id == id;
            assert(ids[j] == id);
        }
        if ids.contains(id) {
            let j = choose|j: int| 0 <= j < ids.len() && ids[j] == id;
            assert(truth[j].id == id);
        }
    }
    let n = measure::least(k as nat, hits.len());
    lemma_places(hits, n, ids, wanted);
    measure::lemma_matches_bounded(hits, n, ids);
    assert(wanted_places(hits, n as int, wanted) =~= wanted_places(hits, k as int, wanted));
}

/// The label of a representation.
pub open spec fn coarse_label(coarse: Coarse) -> Seq<char> {
    match coarse {
        Coarse::F32Control => "f32 (control)"@,
        Coarse::I8Sym => "int8 sym"@,
        Coarse::BinSym => "bin sym"@,
        Coarse::BinAsymF32q => "bin asym f32q"@,
        Coarse::BinAsymI8q => "bin asym i8q"@,
    }
}

/// The label of a store.
pub open spec fn store_label(store: Store) -> Seq<char> {
    match store {
        Store::I8 => "i8"@,
        Store::F32 => "f32"@,
    }
}

/// The labels of representations and stores.
pub proof fn law_labels(coarse: Coarse, store: Store, c: &'static str, s: &'static str)
    requires
        call_ensures(Coarse::label, (coarse,), c),
        call_ensures(Store::label, (store,), s),
    ensures
        c@ == coarse_label(coarse),
        s@ == store_label(store),
{
}

/// The ratio is the recall of a scan in the representation, deep enough for
/// `k` hits.
pub open spec fn scan_recall<D, B, T>(
    kern: Kernels<D, B, T>,
    data: &Data,
    coarse: Coarse,
    filter: Option<&Bitset>,
    qi: int,
    k: nat,
    truth: Seq<Hit>,
    ratio: Ratio,
) -> bool where
    D: Fn(&[u32], &[u32]) -> u32,
    B: Fn(&[u32], &[u8]) -> u32,
    T: Fn(u32, u32) -> u32,
 {
    exists|hits: Seq<Hit>, depth: nat|
        {
            &&& depth >= k
            &&& #[trigger] outcome::best_of_scan(
                scan_score(kern, data, coarse, qi),
                filter,
                data.rows(),
                depth,
                hits,
            )
            &&& holds_part(ratio, hits, k, truth)
        }
}

/// The ratio is the recall of a rerank against the store, of the first
/// `factor * k` hits of a scan in the representation.
pub open spec fn rerank_recall<D, B, T>(
    kern: Kernels<D, B, T>,
    data: &Data,
    coarse: Coarse,
    store: Store,
    factor: usize,
    filter: Option<&Bitset>,
    qi: int,
    k: nat,
    truth: Seq<Hit>,
    ratio: Ratio,
) -> bool where
    D: Fn(&[u32], &[u32]) -> u32,
    B: Fn(&[u32], &[u8]) -> u32,
    T: Fn(u32, u32) -> u32,
 {
    exists|pool: Seq<Hit>, depth: nat, hits: Seq<Hit>|
        {
            &&& depth >= factor * k
            &&& #[trigger] outcome::best_of_scan(
                scan_score(kern, data, coarse, qi),
                filter,
                data.rows(),
                depth,
                pool,
            )
            &&& #[trigger] outcome::best(
                store_score(kern, data, store, qi),
                scores::front(outcome::ids_of(pool), factor as int, k as int),
                k,
                hits,
            )
            &&& holds_part(ratio, hits, k, truth)
        }
}

/// The row is about the cell: it is labelled with it, and its recalls are those
/// of the cell's search, one per depth and query.
pub open spec fn reports<D, B, T>(
    kern: Kernels<D, B, T>,
    data: &Data,
    filter: Option<&Bitset>,
    row: Row,
    cell: Cell,
    ks: Seq<usize>,
    gt: Seq<Vec<Hit>>,
) -> bool where
    D: Fn(&[u32], &[u32]) -> u32,
    B: Fn(&[u32], &[u8]) -> u32,
    T: Fn(u32, u32) -> u32,
 {
    &&& row.coarse@ == coarse_label(cell.coarse)
    &&& row.pool_at@.len() == ks.len()
    &&& row.recalls@.len() == ks.len()
    &&& forall|ki: int|
        0 <= ki < ks.len() ==> (#[trigger] row.recalls@[ki])@.len() == data.q_f32@.len()
    &&& match cell.two_stage {
        None => {
            &&& row.store is None
            &&& row.factor is None
            &&& forall|ki: int| 0 <= ki < ks.len() ==> (#[trigger] row.pool_at@[ki]) is None
            &&& forall|ki: int, qi: int|
                0 <= ki < ks.len() && 0 <= qi < data.q_f32@.len() ==> scan_recall(
                    kern,
                    data,
                    cell.coarse,
                    filter,
                    qi,
                    ks[ki] as nat,
                    gt[qi]@,
                    #[trigger] row.recalls@[ki]@[qi],
                )
        },
        Some((store, factor)) => {
            &&& row.store is Some
            &&& row.store->0@ == store_label(store)
            &&& row.factor == Some(factor)
            &&& forall|ki: int|
                0 <= ki < ks.len() ==> (#[trigger] row.pool_at@[ki]) is Some
                    && row.pool_at@[ki]->0 == factor * ks[ki]
            &&& forall|ki: int, qi: int|
                0 <= ki < ks.len() && 0 <= qi < data.q_f32@.len() ==> rerank_recall(
                    kern,
                    data,
                    cell.coarse,
                    store,
                    factor,
                    filter,
                    qi,
                    ks[ki] as nat,
                    gt[qi]@,
                    #[trigger] row.recalls@[ki]@[qi],
                )
        },
    }
}

proof fn lemma_row_reports<D, B, T>(
    kern: Kernels<D, B, T>,
    data: &Data,
    filter: Option<&Bitset>,
    row: Row,
    cell: Cell,
    cells: Seq<Cell>,
    ks: Seq<usize>,
    gt: Seq<Vec<Hit>>,
) where
    D: Fn(&[u32], &[u32]) -> u32,
    B: Fn(&[u32], &[u8]) -> u32,
    T: Fn(u32, u32) -> u32,

    requires
        data.rows() <= u32::MAX,
        run::data_row(kern, data, filter, row, cell, cells, ks, gt),
        cell.two_stage is Some ==> forall|i: int|
            0 <= i < ks.len() ==> run::factor_of(cell) * #[trigger] ks[i] <= run::depth(
                cells,
                cell.coarse,
                ks,
            ),
        cell.two_stage is Some ==> run::depth(cells, cell.coarse, ks) >= 0,
    ensures
        reports(kern, data, filter, row, cell, ks, gt),
{
    if cell.two_stage is None {
        lemma_scan_row(kern, data, filter, row, cell, ks, gt);
    } else {
        let depth = run::depth(cells, cell.coarse, ks) as nat;
        lemma_rerank_row(kern, data, filter, row, cell, depth, ks, gt);
    }
}

proof fn lemma_scan_row<D, B, T>(
    kern: Kernels<D, B, T>,
    data: &Data,
    filter: Option<&Bitset>,
    row: Row,
    cell: Cell,
    ks: Seq<usize>,
    gt: Seq<Vec<Hit>>,
) where
    D: Fn(&[u32], &[u32]) -> u32,
    B: Fn(&[u32], &[u8]) -> u32,
    T: Fn(u32, u32) -> u32,

    requires
        data.rows() <= u32::MAX,
        cell.two_stage is None,
        run::data_scan_row(kern, data, filter, row, cell, ks, gt),
    ensures
        reports(kern, data, filter, row, cell, ks, gt),
{
    let results = choose|results: Seq<Vec<Hit>>| #[trigger]
        run::all_found(
            kern,
            data,
            cell.coarse,
            filter,
            run::greatest(ks) as nat,
            results,
        ) && eval::recalls_of_scans(row.recalls@, results, ks, gt);
    run::lemma_greatest(ks);
    assert forall|ki: int, qi: int|
        0 <= ki < ks.len() && 0 <= qi < data.q_f32@.len() implies scan_recall(
        kern,
        data,
        cell.coarse,
        filter,
        qi,
        ks[ki] as nat,
        gt[qi]@,
        #[trigger] row.recalls@[ki]@[qi],
    ) by {
        let depth = run::greatest(ks) as nat;
        let hits = results[qi]@;
        lemma_scan(kern, data, cell.coarse, qi, filter, depth, hits);
        lemma_part(hits, ks[ki], gt[qi]@);
    }
}

proof fn lemma_rerank_row<D, B, T>(
    kern: Kernels<D, B, T>,
    data: &Data,
    filter: Option<&Bitset>,
    row: Row,
    cell: Cell,
    depth: nat,
    ks: Seq<usize>,
    gt: Seq<Vec<Hit>>,
) where
    D: Fn(&[u32], &[u32]) -> u32,
    B: Fn(&[u32], &[u8]) -> u32,
    T: Fn(u32, u32) -> u32,

    requires
        data.rows() <= u32::MAX,
        cell.two_stage is Some,
        run::data_rerank_row(kern, data, filter, row, cell, depth, ks, gt),
        forall|i: int| 0 <= i < ks.len() ==> run::factor_of(cell) * #[trigger] ks[i] <= depth,
    ensures
        reports(kern, data, filter, row, cell, ks, gt),
{
    let (store, factor) = cell.two_stage->0;
    let (pool, pools, results) = choose|
        hits: Seq<Vec<Hit>>,
        pools: Seq<Vec<u32>>,
        results: Seq<Vec<Vec<Hit>>>,
    |
        {
            &&& #[trigger] run::all_found(kern, data, cell.coarse, filter, depth, hits)
            &&& #[trigger] run::pools_of(hits, pools)
            &&& run::all_reranked(
                kern,
                data,
                (cell.two_stage->0).0,
                pools,
                run::factor_of(cell) as nat,
                ks,
                results,
            )
            &&& #[trigger] eval::recalls_of_reranks(row.recalls@, results, ks, gt)
        };
    assert forall|ki: int, qi: int|
        0 <= ki < ks.len() && 0 <= qi < data.q_f32@.len() implies rerank_recall(
        kern,
        data,
        cell.coarse,
        store,
        factor,
        filter,
        qi,
        ks[ki] as nat,
        gt[qi]@,
        #[trigger] row.recalls@[ki]@[qi],
    ) by {
        let hits = results[qi]@[ki]@;
        let k = ks[ki] as nat;
        lemma_scan(kern, data, cell.coarse, qi, filter, depth, pool[qi]@);
        assert(pools[qi]@ =~= outcome::ids_of(pool[qi]@));
        let part = eval::pool_part(pools[qi]@, factor as nat, k);
        scores::lemma_factor(factor, ks[ki]);
        assert(part == scores::front(outcome::ids_of(pool[qi]@), factor as int, k as int));
        lemma_rerank(kern, data, store, qi, part, k, hits);
        lemma_part(hits, ks[ki], gt[qi]@);
        assert(outcome::best(
            store_score(kern, data, store, qi),
            scores::front(outcome::ids_of(pool[qi]@), factor as int, k as int),
            k,
            hits,
        ));
    }
}

/// A cell is run: it is single-stage, or its first stage is not the exact scan.
pub open spec fn is_run(cell: Cell) -> bool {
    cell.two_stage is None || cell.coarse != Coarse::F32Control
}

proof fn lemma_singles(cells: Seq<Cell>)
    ensures
        forall|c: Cell| #[trigger]
            run::single_stage(cells).contains(c) <==> cells.contains(c) && c.two_stage is None,
    decreases cells.len(),
{
    if cells.len() > 0 {
        let before = cells.drop_last();
        lemma_singles(before);
        let (old_group, group) = (run::single_stage(before), run::single_stage(cells));
        assert(cells =~= before.push(cells.last()));
        lemma_pushed(before, cells.last());
        lemma_pushed(old_group, cells.last());
        assert forall|c: Cell| #[trigger] group.contains(c) <==> cells.contains(c)
            && c.two_stage is None by {
            assert(old_group.contains(c) <==> before.contains(c) && c.two_stage is None);
        }
    }
}

proof fn lemma_pushed(s: Seq<Cell>, x: Cell)
    ensures
        forall|c: Cell| #[trigger] s.push(x).contains(c) <==> s.contains(c) || c == x,
{
    assert forall|c: Cell| #[trigger] s.push(x).contains(c) <==> s.contains(c) || c == x by {
        if s.contains(c) {
            let i = choose|i: int| 0 <= i < s.len() && s[i] == c;
            assert(s.push(x)[i] == c);
        }
        if c == x {
            assert(s.push(x)[s.len() as int] == c);
        }
    }
}

proof fn lemma_doubles(cells: Seq<Cell>, coarse: Coarse)
    ensures
        forall|c: Cell| #[trigger]
            run::two_stage(cells, coarse).contains(c) <==> cells.contains(c) && c.coarse == coarse
                && c.two_stage is Some,
    decreases cells.len(),
{
    if cells.len() > 0 {
        let before = cells.drop_last();
        lemma_doubles(before, coarse);
        let (old_group, group) = (run::two_stage(before, coarse), run::two_stage(cells, coarse));
        assert(cells =~= before.push(cells.last()));
        lemma_pushed(before, cells.last());
        lemma_pushed(old_group, cells.last());
        assert forall|c: Cell| #[trigger] group.contains(c) <==> cells.contains(c) && c.coarse
            == coarse && c.two_stage is Some by {
            assert(old_group.contains(c) <==> before.contains(c) && c.coarse == coarse
                && c.two_stage is Some);
        }
    }
}

proof fn lemma_order_len(cells: Seq<Cell>)
    requires
        forall|i: int| 0 <= i < cells.len() ==> is_run(#[trigger] cells[i]),
    ensures
        run::row_order(cells).len() == cells.len(),
    decreases cells.len(),
{
    if cells.len() > 0 {
        let before = cells.drop_last();
        assert forall|i: int| 0 <= i < before.len() implies is_run(#[trigger] before[i]) by {
            assert(before[i] == cells[i]);
        }
        lemma_order_len(before);
        assert(is_run(cells[cells.len() - 1]));
    }
}

proof fn lemma_order_holds(cells: Seq<Cell>, c: Cell)
    ensures
        run::row_order(cells).contains(c) <==> cells.contains(c) && is_run(c),
{
    lemma_singles(cells);
    lemma_doubles(cells, Coarse::I8Sym);
    lemma_doubles(cells, Coarse::BinSym);
    lemma_doubles(cells, Coarse::BinAsymF32q);
    lemma_doubles(cells, Coarse::BinAsymI8q);
    let a = run::single_stage(cells);
    let b = run::two_stage(cells, Coarse::I8Sym);
    let d = run::two_stage(cells, Coarse::BinSym);
    let e = run::two_stage(cells, Coarse::BinAsymF32q);
    let f = run::two_stage(cells, Coarse::BinAsymI8q);
    assert(a.contains(c) <==> cells.contains(c) && c.two_stage is None);
    assert(b.contains(c) <==> cells.contains(c) && c.coarse == Coarse::I8Sym && c.two_stage is Some);
    assert(d.contains(c) <==> cells.contains(c) && c.coarse == Coarse::BinSym
        && c.two_stage is Some);
    assert(e.contains(c) <==> cells.contains(c) && c.coarse == Coarse::BinAsymF32q
        && c.two_stage is Some);
    assert(f.contains(c) <==> cells.contains(c) && c.coarse == Coarse::BinAsymI8q
        && c.two_stage is Some);
    lemma_joined(a, b, c);
    lemma_joined(a + b, d, c);
    lemma_joined(a + b + d, e, c);
    lemma_joined(a + b + d + e, f, c);
}

proof fn lemma_joined(a: Seq<Cell>, b: Seq<Cell>, c: Cell)
    ensures
        (a + b).contains(c) <==> a.contains(c) || b.contains(c),
{
    if a.contains(c) {
        let i = choose|i: int| 0 <= i < a.len() && a[i] == c;
        assert((a + b)[i] == c);
    }
    if b.contains(c) {
        let i = choose|i: int| 0 <= i < b.len() && b[i] == c;
        assert((a + b)[a.len() + i] == c);
    }
    if (a + b).contains(c) {
        let i = choose|i: int| 0 <= i < (a + b).len() && (a + b)[i] == c;
        if i < a.len() {
            assert(a[i] == c);
        } else {
            assert(b[i - a.len()] == c);
        }
    }
}

/// Running the grid gives one row per cell, no row without a cell and no cell
/// without a row; each row carries its cell's labels and the recalls of its
/// cell's own search.
pub proof fn law_every_cell_is_reported<D, B, T>(
    data: &Data,
    kern: &Kernels<D, B, T>,
    cells: &[Cell],
    ks: &[usize],
    gt: &[Vec<Hit>],
    filter: Option<&Bitset>,
    r: Vec<Row>,
) where
    D: Fn(&[u32], &[u32]) -> u32,
    B: Fn(&[u32], &[u8]) -> u32,
    T: Fn(u32, u32) -> u32,

    requires
        data.rows() <= u32::MAX,
        forall|i: int| 0 <= i < cells@.len() ==> is_run(#[trigger] cells@[i]),
        call_ensures(run::run_matrix::<D, B, T>, (data, kern, cells, ks, gt, filter), r),
    ensures
        r@.len() == cells@.len(),
        forall|j: int|
            0 <= j < r@.len() ==> exists|c: Cell| #[trigger]
                cells@.contains(c) && reports(*kern, data, filter, #[trigger] r@[j], c, ks@, gt@),
        forall|i: int|
            0 <= i < cells@.len() ==> exists|j: int|
                0 <= j < r@.len() && reports(
                    *kern,
                    data,
                    filter,
                    #[trigger] r@[j],
                    #[trigger] cells@[i],
                    ks@,
                    gt@,
                ),
{
    let order = run::row_order(cells@);
    lemma_order_len(cells@);
    assert forall|j: int| 0 <= j < r@.len() implies reports(
        *kern,
        data,
        filter,
        #[trigger] r@[j],
        order[j],
        ks@,
        gt@,
    ) && cells@.contains(order[j]) by {
        let c = order[j];
        assert(order.contains(c));
        lemma_order_holds(cells@, c);
        assert(run::data_row(*kern, data, filter, r@[j], c, cells@, ks@, gt@));
        if c.two_stage is Some {
            run::lemma_depth_covers(cells@, c, ks@);
            run::lemma_greatest(ks@);
            assert forall|i: int| 0 <= i < ks@.len() implies run::factor_of(c) * #[trigger] ks@[i]
                <= run::depth(cells@, c.coarse, ks@) by {
                let (f, k, most) = (run::factor_of(c) as int, ks@[i] as int, run::greatest(
                    ks@,
                ) as int);
                assert(f * k <= f * most) by (nonlinear_arith)
                    requires
                        0 <= f,
                        k <= most,
                ;
            }
        }
        lemma_row_reports(*kern, data, filter, r@[j], c, cells@, ks@, gt@);
    }
    assert forall|i: int| 0 <= i < cells@.len() implies exists|j: int|
        0 <= j < r@.len() && reports(
            *kern,
            data,
            filter,
            #[trigger] r@[j],
            #[trigger] cells@[i],
            ks@,
            gt@,
        ) by {
        assert(cells@.contains(cells@[i]));
        lemma_order_holds(cells@, cells@[i]);
        let j = choose|j: int| 0 <= j < order.len() && order[j] == cells@[i];
        assert(reports(*kern, data, filter, r@[j], cells@[i], ks@, gt@));
    }
}

/// The grid: the five representations alone, each once; every binary one
/// reranked against both stores with every factor; and, where all are asked
/// for, int8 reranked in single precision. Nothing else.
pub proof fn law_grid(factors: &[usize], full: bool, r: Vec<Cell>, cell: Cell)
    requires
        call_ensures(eval::matrix, (factors, full), r),
    ensures
        r@.len() == 5 + (if full {
            7nat
        } else {
            6nat
        }) * factors@.len(),
        r@.contains(cell) <==> match cell.two_stage {
            None => true,
            Some((store, factor)) => factors@.contains(factor) && match cell.coarse {
                Coarse::F32Control => false,
                Coarse::I8Sym => full && store == Store::F32,
                _ => true,
            },
        },
        forall|i: int| 0 <= i < 5 ==> (#[trigger] r@[i]).two_stage is None,
        forall|i: int| 5 <= i < r@.len() ==> (#[trigger] r@[i]).two_stage is Some,
{
    let f = factors@;
    let first = seq![
        eval::single(Coarse::F32Control),
        eval::single(Coarse::I8Sym),
        eval::single(Coarse::BinSym),
        eval::single(Coarse::BinAsymF32q),
        eval::single(Coarse::BinAsymI8q),
    ];
    let p1 = eval::reranked_cells(Coarse::BinSym, Store::I8, f);
    let p2 = eval::reranked_cells(Coarse::BinSym, Store::F32, f);
    let p3 = eval::reranked_cells(Coarse::BinAsymF32q, Store::I8, f);
    let p4 = eval::reranked_cells(Coarse::BinAsymF32q, Store::F32, f);
    let p5 = eval::reranked_cells(Coarse::BinAsymI8q, Store::I8, f);
    let p6 = eval::reranked_cells(Coarse::BinAsymI8q, Store::F32, f);
    let p7 = eval::reranked_cells(Coarse::I8Sym, Store::F32, f);
    lemma_part_of_grid(Coarse::BinSym, Store::I8, f, cell);
    lemma_part_of_grid(Coarse::BinSym, Store::F32, f, cell);
    lemma_part_of_grid(Coarse::BinAsymF32q, Store::I8, f, cell);
    lemma_part_of_grid(Coarse::BinAsymF32q, Store::F32, f, cell);
    lemma_part_of_grid(Coarse::BinAsymI8q, Store::I8, f, cell);
    lemma_part_of_grid(Coarse::BinAsymI8q, Store::F32, f, cell);
    lemma_part_of_grid(Coarse::I8Sym, Store::F32, f, cell);
    lemma_joined(first, p1, cell);
    lemma_joined(first + p1, p2, cell);
    lemma_joined(first + p1 + p2, p3, cell);
    lemma_joined(first + p1 + p2 + p3, p4, cell);
    lemma_joined(first + p1 + p2 + p3 + p4, p5, cell);
    lemma_joined(first + p1 + p2 + p3 + p4 + p5, p6, cell);
    lemma_joined(first + p1 + p2 + p3 + p4 + p5 + p6, p7, cell);
    assert(first[0] == eval::single(Coarse::F32Control) && first[1] == eval::single(Coarse::I8Sym)
        && first[2] == eval::single(Coarse::BinSym) && first[3] == eval::single(
        Coarse::BinAsymF32q,
    ) && first[4] == eval::single(Coarse::BinAsymI8q));
    if cell.two_stage is None {
        assert(cell == eval::single(cell.coarse));
        assert(first.contains(cell));
    }
}

proof fn lemma_part_of_grid(coarse: Coarse, store: Store, factors: Seq<usize>, cell: Cell)
    ensures
        eval::reranked_cells(coarse, store, factors).len() == factors.len(),
        eval::reranked_cells(coarse, store, factors).contains(cell) <==> cell.coarse == coarse
            && cell.two_stage is Some && (cell.two_stage->0).0 == store && factors.contains(
            (cell.two_stage->0).1,
        ),
{
    let part = eval::reranked_cells(coarse, store, factors);
    if cell.coarse == coarse && cell.two_stage is Some && (cell.two_stage->0).0 == store
        && factors.contains((cell.two_stage->0).1) {
        let i = choose|i: int| 0 <= i < factors.len() && factors[i] == (cell.two_stage->0).1;
        assert(part[i] == cell);
    }
    if part.contains(cell) {
        let i = choose|i: int| 0 <= i < part.len() && part[i] == cell;
        assert(factors[i] == (cell.two_stage->0).1);
    }
}

} // verus!
