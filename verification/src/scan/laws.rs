//! What holds of scans as a whole: results are a function of the candidate
//! set, have the prefix property, and never leave the filter or the pool.

use vstd::prelude::*;
use vstd::multiset::*;
use vstd::seq_lib::*;
use crate::bitset::{self, Bitset};
use crate::ieee;
use crate::kernels;
use crate::kernels::backend::{self, Backend, Kernels};
use crate::kernels::determinism;
use crate::scan::hit::{self, Hit};
use crate::scan::scorer::{self, Scorer};

verus! {

/// The table's functions give one result for one input (vectors and rows
/// count by their elements).
pub open spec fn deterministic<D, B, T>(k: Kernels<D, B, T>) -> bool where
    D: Fn(&[u32], &[u32]) -> u32,
    B: Fn(&[u32], &[u8]) -> u32,
    T: Fn(u32, u32) -> u32,
 {
    &&& forall|p: &[u32], q: &[u32], a: &[u32], b: &[u32], x: u32, y: u32|
        p@ == q@ && a@ == b@ && #[trigger] call_ensures(k.dot_f32, (p, a), x)
            && #[trigger] call_ensures(k.dot_f32, (q, b), y) ==> x == y
    &&& forall|p: &[u32], q: &[u32], a: &[u8], b: &[u8], x: u32, y: u32|
        p@ == q@ && a@ == b@ && #[trigger] call_ensures(k.dot_f32_bin, (p, a), x)
            && #[trigger] call_ensures(k.dot_f32_bin, (q, b), y) ==> x == y
    &&& forall|a: u32, b: u32, x: u32, y: u32| #[trigger]
        call_ensures(k.times, (a, b), x) && #[trigger] call_ensures(k.times, (a, b), y) ==> x == y
}

/// A backend's table over arithmetic with one result for its operands gives
/// one result for one input.
pub proof fn law_table_is_deterministic<D, B, X, M, T, P>(
    k: Kernels<D, B, X>,
    of: Backend,
    fma: M,
    times: T,
    plus: P,
) where
    D: Fn(&[u32], &[u32]) -> u32,
    B: Fn(&[u32], &[u8]) -> u32,
    X: Fn(u32, u32) -> u32,
    M: Fn(u32, u32, u32) -> u32,
    T: Fn(u32, u32) -> u32,
    P: Fn(u32, u32) -> u32,

    requires
        backend::is_table(k, of, fma, times, plus),
        determinism::single_valued_three(fma),
        determinism::single_valued(times),
        determinism::single_valued(plus),
    ensures
        deterministic(k),
{
    assert forall|p: &[u32], q: &[u32], a: &[u32], b: &[u32], x: u32, y: u32|
        p@ == q@ && a@ == b@ && #[trigger] call_ensures(k.dot_f32, (p, a), x)
            && #[trigger] call_ensures(k.dot_f32, (q, b), y) implies x == y by {
        determinism::law_dot_is_determined(of, fma, times, plus, p@, a@, x, y);
    }
    assert forall|p: &[u32], q: &[u32], a: &[u8], b: &[u8], x: u32, y: u32|
        p@ == q@ && a@ == b@ && #[trigger] call_ensures(k.dot_f32_bin, (p, a), x)
            && #[trigger] call_ensures(k.dot_f32_bin, (q, b), y) implies x == y by {
        determinism::law_signed_dot_is_determined(of, plus, p@, a@, b@, x, y);
    }
}

/// Two scorers pair the same rows with the same query.
pub open spec fn alike(a: Scorer<'_>, b: Scorer<'_>) -> bool {
    match (a, b) {
        (Scorer::F32 { query: p }, Scorer::F32 { query: q }) => p.view.matrix() == q.view.matrix()
            && p.query@ == q.query@,
        (Scorer::I8 { query: p }, Scorer::I8 { query: q }) => {
            &&& p.view.matrix() == q.view.matrix()
            &&& p.view.row_scales() == q.view.row_scales()
            &&& p.query.codes@ == q.query.codes@
            &&& p.query.scale == q.query.scale
        },
        (Scorer::Bin { query: p }, Scorer::Bin { query: q }) => p.view.matrix() == q.view.matrix()
            && p.query@ == q.query@,
        (Scorer::F32Bin { query: p }, Scorer::F32Bin { query: q }) => p.view.matrix()
            == q.view.matrix() && p.query@ == q.query@,
        (Scorer::I8Bin { query: p }, Scorer::I8Bin { query: q }) => {
            &&& p.view.matrix() == q.view.matrix()
            &&& p.query.codes@ == q.query.codes@
            &&& p.query.scale == q.query.scale
        },
        _ => false,
    }
}

/// A scaled integer has one value under a deterministic multiplication.
proof fn lemma_scaled_determined<T: Fn(u32, u32) -> u32>(
    times: T,
    n: int,
    scale: u32,
    x: u32,
    y: u32,
)
    requires
        forall|a: u32, b: u32, x: u32, y: u32| #[trigger]
            call_ensures(times, (a, b), x) && #[trigger] call_ensures(times, (a, b), y) ==> x == y,
        kernels::scaled_int(times, n, scale, x),
        kernels::scaled_int(times, n, scale, y),
    ensures
        x == y,
{
    let a = choose|a: u32| #[trigger]
        ieee::nearest_int(a, n) && call_ensures(times, (a, scale), x);
    let b = choose|b: u32| #[trigger]
        ieee::nearest_int(b, n) && call_ensures(times, (b, scale), y);
    ieee::lemma_nearest_unique(a, b, n);
}

/// With deterministic kernels a row has one score, whichever of two like
/// scorers gives it.
pub proof fn law_scores_determined<D, B, T>(
    one: Scorer<'_>,
    other: Scorer<'_>,
    kern: Kernels<D, B, T>,
    id: u32,
    x: u32,
    y: u32,
) where
    D: Fn(&[u32], &[u32]) -> u32,
    B: Fn(&[u32], &[u8]) -> u32,
    T: Fn(u32, u32) -> u32,

    requires
        deterministic(kern),
        alike(one, other),
        one.scores(kern, id, x),
        other.scores(kern, id, y),
    ensures
        x == y,
{
    match (one, other) {
        (Scorer::I8 { query: p }, Scorer::I8 { query: q }) => {
            let row_scale = p.view.row_scales()[id as int];
            let dot = kernels::dot(p.query.codes@, p.view.matrix()[id as int]);
            let a = choose|a: u32| #[trigger]
                call_ensures(kern.times, (p.query.scale, row_scale), a) && kernels::scaled_int(
                    kern.times,
                    dot,
                    a,
                    x,
                );
            let b = choose|b: u32| #[trigger]
                call_ensures(kern.times, (p.query.scale, row_scale), b) && kernels::scaled_int(
                    kern.times,
                    dot,
                    b,
                    y,
                );
            assert(a == b);
            lemma_scaled_determined(kern.times, dot, a, x, y);
        },
        (Scorer::Bin { query: p }, Scorer::Bin { query: q }) => {
            ieee::lemma_nearest_unique(
                ieee::negated(x),
                ieee::negated(y),
                kernels::distance(p.query@, p.view.matrix()[id as int]) as int,
            );
        },
        (Scorer::I8Bin { query: p }, Scorer::I8Bin { query: q }) => {
            lemma_scaled_determined(
                kern.times,
                kernels::signed_sum(p.query.codes@, p.view.matrix()[id as int]),
                p.query.scale,
                x,
                y,
            );
        },
        _ => {},
    }
}

/// The same ids in another order get the same hits in another order.
pub proof fn lemma_same_hits<D, B, T>(
    one: Scorer<'_>,
    other: Scorer<'_>,
    kern: Kernels<D, B, T>,
    ids_a: Seq<u32>,
    ids_b: Seq<u32>,
    hits_a: Seq<Hit>,
    hits_b: Seq<Hit>,
) where
    D: Fn(&[u32], &[u32]) -> u32,
    B: Fn(&[u32], &[u8]) -> u32,
    T: Fn(u32, u32) -> u32,

    requires
        deterministic(kern),
        alike(one, other),
        ids_a.to_multiset() == ids_b.to_multiset(),
        one.scored(kern, ids_a, hits_a),
        other.scored(kern, ids_b, hits_b),
    ensures
        hits_a.to_multiset() == hits_b.to_multiset(),
    decreases ids_a.len(),
{
    broadcast use group_multiset_axioms;

    ids_a.to_multiset_ensures();
    ids_b.to_multiset_ensures();
    hits_a.to_multiset_ensures();
    hits_b.to_multiset_ensures();
    if ids_a.len() == 0 {
        assert(hits_a =~= hits_b);
    } else {
        let last = ids_a.len() - 1;
        let id = ids_a[last];
        assert(ids_a.contains(id));
        assert(ids_a.to_multiset().count(id) > 0);
        assert(ids_b.contains(id));
        let j = choose|j: int| 0 <= j < ids_b.len() && ids_b[j] == id;
        let (rest_a, rest_b) = (hits_a.remove(last), hits_b.remove(j));
        assert forall|i: int| 0 <= i < ids_a.remove(last).len() implies (#[trigger] rest_a[i]).id
            == ids_a.remove(last)[i] && one.scores(
            kern,
            ids_a.remove(last)[i],
            rest_a[i].score,
        ) by {
            assert(rest_a[i] == hits_a[i]);
        }
        assert forall|i: int| 0 <= i < ids_b.remove(j).len() implies (#[trigger] rest_b[i]).id
            == ids_b.remove(j)[i] && other.scores(
            kern,
            ids_b.remove(j)[i],
            rest_b[i].score,
        ) by {
            let k = if i < j {
                i
            } else {
                i + 1
            };
            assert(rest_b[i] == hits_b[k]);
            assert(ids_b.remove(j)[i] == ids_b[k]);
        }
        lemma_same_hits(one, other, kern, ids_a.remove(last), ids_b.remove(j), rest_a, rest_b);
        assert(hits_a[last].id == id && hits_b[j].id == id);
        law_scores_determined(one, other, kern, id, hits_a[last].score, hits_b[j].score);
        assert(hits_a[last] == hits_b[j]);
        assert(hits_a.to_multiset() =~= rest_a.to_multiset().insert(hits_a[last]));
        assert(hits_b.to_multiset() =~= rest_b.to_multiset().insert(hits_b[j]));
    }
}

/// With deterministic kernels a result is a function of the candidates as a
/// multiset: the order in which they come does not matter, and neither does
/// whether they come from a scan or a pool, nor which of two like scorers ran.
pub proof fn law_candidate_order_is_irrelevant<D, B, T>(
    one: Scorer<'_>,
    other: Scorer<'_>,
    kern: Kernels<D, B, T>,
    ids_a: Seq<u32>,
    ids_b: Seq<u32>,
    k: nat,
    a: Seq<Hit>,
    b: Seq<Hit>,
) where
    D: Fn(&[u32], &[u32]) -> u32,
    B: Fn(&[u32], &[u8]) -> u32,
    T: Fn(u32, u32) -> u32,

    requires
        deterministic(kern),
        alike(one, other),
        ids_a.to_multiset() == ids_b.to_multiset(),
        one.selected(kern, ids_a, k, a),
        other.selected(kern, ids_b, k, b),
    ensures
        a == b,
{
    if k > 0 {
        let hits_a = choose|hits: Seq<Hit>| #[trigger]
            one.scored(kern, ids_a, hits) && a == hit::top(hits, k);
        let hits_b = choose|hits: Seq<Hit>| #[trigger]
            other.scored(kern, ids_b, hits) && b == hit::top(hits, k);
        lemma_same_hits(one, other, kern, ids_a, ids_b, hits_a, hits_b);
        hit::law_order_independent(hits_a, hits_b, k);
    }
}

/// The prefix property: with deterministic kernels, a scan for `k1` hits gives
/// the first `k1` of what a scan for `k2 >= k1` gives.
pub proof fn law_scan_prefix<D, B, T>(
    one: Scorer<'_>,
    other: Scorer<'_>,
    kern: Kernels<D, B, T>,
    ids: Seq<u32>,
    k1: nat,
    k2: nat,
    small: Seq<Hit>,
    big: Seq<Hit>,
) where
    D: Fn(&[u32], &[u32]) -> u32,
    B: Fn(&[u32], &[u8]) -> u32,
    T: Fn(u32, u32) -> u32,

    requires
        deterministic(kern),
        alike(one, other),
        k1 <= k2,
        one.selected(kern, ids, k1, small),
        other.selected(kern, ids, k2, big),
    ensures
        small.len() == if k1 < ids.len() {
            k1
        } else {
            ids.len()
        },
        small.len() <= big.len(),
        small == big.take(small.len() as int),
{
    if k1 == 0 {
        assert(small =~= big.take(0));
    } else {
        let a = choose|hits: Seq<Hit>| #[trigger]
            one.scored(kern, ids, hits) && small == hit::top(hits, k1);
        let b = choose|hits: Seq<Hit>| #[trigger]
            other.scored(kern, ids, hits) && big == hit::top(hits, k2);
        assert forall|i: int| 0 <= i < ids.len() implies a[i] == b[i] by {
            assert(a[i].id == ids[i] && b[i].id == ids[i]);
            law_scores_determined(one, other, kern, ids[i], a[i].score, b[i].score);
        }
        assert(a =~= b);
        hit::law_prefix(a, k1, k2);
        hit::law_prefix(a, k2, k2);
    }
}

/// The hit is in the result, or each hit of the result beats it.
pub open spec fn kept_or_beaten(r: Seq<Hit>, h: Hit) -> bool {
    r.contains(h) || forall|i: int| 0 <= i < r.len() ==> hit::beats(#[trigger] r[i], h)
}

/// The id's hit is in the result or beaten by all of it.
pub open spec fn accounted_for<D, B, T>(
    scorer: Scorer<'_>,
    kern: Kernels<D, B, T>,
    id: u32,
    r: Seq<Hit>,
) -> bool where
    D: Fn(&[u32], &[u32]) -> u32,
    B: Fn(&[u32], &[u8]) -> u32,
    T: Fn(u32, u32) -> u32,
 {
    exists|h: Hit|
        h.id == id && scorer.scores(kern, id, h.score) && #[trigger] kept_or_beaten(r, h)
}

/// A result never leaves its candidates, holds as many hits as it can, and is
/// sorted best-first; a candidate that is missing from it is worse than each
/// of its hits.
pub proof fn law_result<D, B, T>(
    scorer: Scorer<'_>,
    kern: Kernels<D, B, T>,
    ids: Seq<u32>,
    k: nat,
    r: Seq<Hit>,
) where
    D: Fn(&[u32], &[u32]) -> u32,
    B: Fn(&[u32], &[u8]) -> u32,
    T: Fn(u32, u32) -> u32,

    requires
        scorer.selected(kern, ids, k, r),
    ensures
        r.len() == if k < ids.len() {
            k
        } else {
            ids.len()
        },
        forall|i: int|
            0 <= i < r.len() ==> ids.contains((#[trigger] r[i]).id) && scorer.scores(
                kern,
                r[i].id,
                r[i].score,
            ),
        forall|i: int, j: int|
            0 <= i < j < r.len() ==> hit::at_least(#[trigger] r[i], #[trigger] r[j]),
        k > 0 ==> forall|n: int|
            0 <= n < ids.len() ==> accounted_for(scorer, kern, #[trigger] ids[n], r),
{
    if k > 0 {
        let hits = choose|hits: Seq<Hit>| #[trigger]
            scorer.scored(kern, ids, hits) && r == hit::top(hits, k);
        hit::law_prefix(hits, k, k);
        hit::law_selection(hits, k);
        assert forall|i: int| 0 <= i < r.len() implies ids.contains((#[trigger] r[i]).id)
            && scorer.scores(kern, r[i].id, r[i].score) by {
            assert(r.contains(r[i]));
            assert(hits.contains(r[i]));
            let n = choose|n: int| 0 <= n < hits.len() && hits[n] == r[i];
            assert(hits[n].id == ids[n]);
        }
        assert forall|n: int| 0 <= n < ids.len() implies accounted_for(
            scorer,
            kern,
            #[trigger] ids[n],
            r,
        ) by {
            let h = hits[n];
            assert(hits.contains(h));
            assert(h.id == ids[n] && scorer.scores(kern, h.id, h.score));
            assert(kept_or_beaten(r, h));
        }
    }
}

/// Where no candidate comes twice, no id comes twice in the result.
pub proof fn lemma_result_no_duplicates<D, B, T>(
    scorer: Scorer<'_>,
    kern: Kernels<D, B, T>,
    ids: Seq<u32>,
    k: nat,
    r: Seq<Hit>,
) where
    D: Fn(&[u32], &[u32]) -> u32,
    B: Fn(&[u32], &[u8]) -> u32,
    T: Fn(u32, u32) -> u32,

    requires
        scorer.selected(kern, ids, k, r),
        ids.no_duplicates(),
    ensures
        r.map_values(|h: Hit| h.id).no_duplicates(),
{
    let r_ids = r.map_values(|h: Hit| h.id);
    if k > 0 {
        let hits = choose|hits: Seq<Hit>| #[trigger]
            scorer.scored(kern, ids, hits) && r == hit::top(hits, k);
        assert(hits.no_duplicates()) by {
            assert forall|i: int, j: int|
                0 <= i < hits.len() && 0 <= j < hits.len() && i != j implies hits[i] != hits[j] by {
                assert(hits[i].id == ids[i] && hits[j].id == ids[j]);
            }
        }
        hit::lemma_top_no_duplicates(hits, k);
        hit::law_selection(hits, k);
        assert forall|i: int, j: int| 0 <= i < r.len() && 0 <= j < r.len() && i != j implies r_ids[i]
            != r_ids[j] by {
            assert(r.contains(r[i]) && r.contains(r[j]));
            assert(hits.contains(r[i]) && hits.contains(r[j]));
            let x = choose|x: int| 0 <= x < hits.len() && hits[x] == r[i];
            let y = choose|y: int| 0 <= y < hits.len() && hits[y] == r[j];
            assert(hits[x].id == ids[x] && hits[y].id == ids[y]);
        }
    }
}

/// The id's hit is beaten by every hit of the result.
pub open spec fn beaten<D, B, T>(
    scorer: Scorer<'_>,
    kern: Kernels<D, B, T>,
    id: u32,
    r: Seq<Hit>,
) -> bool where
    D: Fn(&[u32], &[u32]) -> u32,
    B: Fn(&[u32], &[u8]) -> u32,
    T: Fn(u32, u32) -> u32,
 {
    exists|h: Hit|
        {
            &&& h.id == id
            &&& #[trigger] scorer.scores(kern, id, h.score)
            &&& forall|i: int| 0 <= i < r.len() ==> hit::beats(#[trigger] r[i], h)
        }
}

/// A scan's result is strictly descending, each id comes once, and each
/// candidate that it leaves out is worse than all of it.
pub proof fn law_scan_result_is_strict<D, B, T>(
    scorer: Scorer<'_>,
    kern: Kernels<D, B, T>,
    filter: Option<&Bitset>,
    rows: nat,
    ids: Seq<u32>,
    k: nat,
    r: Seq<Hit>,
) where
    D: Fn(&[u32], &[u32]) -> u32,
    B: Fn(&[u32], &[u8]) -> u32,
    T: Fn(u32, u32) -> u32,

    requires
        rows <= u32::MAX,
        scorer::candidates(filter, rows, ids),
        scorer.selected(kern, ids, k, r),
    ensures
        r.map_values(|h: Hit| h.id).no_duplicates(),
        forall|i: int, j: int|
            0 <= i < j < r.len() ==> hit::beats(#[trigger] r[i], #[trigger] r[j]),
        k > 0 ==> forall|id: u32| #[trigger]
            ids.contains(id) && (forall|i: int| 0 <= i < r.len() ==> (#[trigger] r[i]).id != id)
                ==> beaten(scorer, kern, id, r),
{
    assert(ids.no_duplicates());
    law_result(scorer, kern, ids, k, r);
    lemma_result_no_duplicates(scorer, kern, ids, k, r);
    let r_ids = r.map_values(|h: Hit| h.id);
    assert forall|i: int, j: int| 0 <= i < j < r.len() implies hit::beats(
        #[trigger] r[i],
        #[trigger] r[j],
    ) by {
        assert(r_ids[i] != r_ids[j]);
        assert(hit::at_least(r[i], r[j]));
    }
    if k > 0 {
        assert forall|id: u32| #[trigger]
            ids.contains(id) && (forall|i: int| 0 <= i < r.len() ==> (#[trigger] r[i]).id
                != id) implies beaten(scorer, kern, id, r) by {
            let n = choose|n: int| 0 <= n < ids.len() && ids[n] == id;
            assert(accounted_for(scorer, kern, ids[n], r));
            let h = choose|h: Hit|
                h.id == id && scorer.scores(kern, id, h.score) && #[trigger] kept_or_beaten(r, h);
            assert(!r.contains(h));
            assert(scorer.scores(kern, id, h.score));
        }
    }
}

/// The list of the first `rows` ids holds each id at its own place.
proof fn lemma_lists_every_id(ids: Seq<u32>, set: Set<u32>, rows: nat, n: nat)
    requires
        bitset::lists(ids, set),
        forall|id: u32| set.contains(id) <==> id < rows,
        n <= rows <= u32::MAX,
    ensures
        n <= ids.len(),
        forall|i: int| 0 <= i < n ==> ids[i] == i,
    decreases n,
{
    if n > 0 {
        lemma_lists_every_id(ids, set, rows, (n - 1) as nat);
        let id = (n - 1) as u32;
        assert(set.contains(id));
        assert(ids.contains(id));
        let p = choose|p: int| 0 <= p < ids.len() && ids[p] == id;
        assert(p >= n - 1);
        if n > 1 {
            assert(ids[n - 2] == n - 2);
        }
        assert(ids[n - 1] == id);
    }
}

/// A filter with every bit set changes nothing: the candidates are those of a
/// scan without a filter, and so is the result.
pub proof fn law_full_filter_is_no_filter<D, B, T>(
    one: Scorer<'_>,
    other: Scorer<'_>,
    kern: Kernels<D, B, T>,
    full: &Bitset,
    rows: nat,
    filtered: Seq<u32>,
    unfiltered: Seq<u32>,
    k: nat,
    a: Seq<Hit>,
    b: Seq<Hit>,
) where
    D: Fn(&[u32], &[u32]) -> u32,
    B: Fn(&[u32], &[u8]) -> u32,
    T: Fn(u32, u32) -> u32,

    requires
        rows <= u32::MAX,
        forall|id: u32| full@.contains(id) <==> id < rows,
        scorer::candidates(Some(full), rows, filtered),
        scorer::candidates(None, rows, unfiltered),
        deterministic(kern),
        alike(one, other),
        one.selected(kern, filtered, k, a),
        other.selected(kern, unfiltered, k, b),
    ensures
        filtered == unfiltered,
        a == b,
{
    lemma_lists_every_id(filtered, full@, rows, rows);
    if filtered.len() > rows {
        assert(filtered.contains(filtered[rows as int]));
        if rows > 0 {
            assert(filtered[rows - 1] < filtered[rows as int]);
        }
        assert(full@.contains(filtered[rows as int]));
    }
    assert(filtered =~= unfiltered);
    law_candidate_order_is_irrelevant(one, other, kern, filtered, unfiltered, k, a, b);
}

/// A filtered scan returns only ids of the filter, and a rerank of its result
/// stays within the filter too.
pub proof fn law_filter_is_never_left<D, B, T>(
    coarse: Scorer<'_>,
    precise: Scorer<'_>,
    kern: Kernels<D, B, T>,
    filter: &Bitset,
    ids: Seq<u32>,
    depth: nat,
    k: nat,
    pool: Seq<Hit>,
    r: Seq<Hit>,
) where
    D: Fn(&[u32], &[u32]) -> u32,
    B: Fn(&[u32], &[u8]) -> u32,
    T: Fn(u32, u32) -> u32,

    requires
        scorer::candidates(Some(filter), coarse.row_total(), ids),
        coarse.selected(kern, ids, depth, pool),
        precise.selected(kern, pool.map_values(|h: Hit| h.id), k, r),
    ensures
        forall|i: int| 0 <= i < pool.len() ==> filter@.contains((#[trigger] pool[i]).id),
        forall|i: int| 0 <= i < r.len() ==> filter@.contains((#[trigger] r[i]).id),
{
    let pool_ids = pool.map_values(|h: Hit| h.id);
    law_result(coarse, kern, ids, depth, pool);
    law_result(precise, kern, pool_ids, k, r);
    assert forall|i: int| 0 <= i < pool.len() implies filter@.contains((#[trigger] pool[i]).id) by {
        assert(ids.contains(pool[i].id));
    }
    assert forall|i: int| 0 <= i < r.len() implies filter@.contains((#[trigger] r[i]).id) by {
        assert(pool_ids.contains(r[i].id));
        let n = choose|n: int| 0 <= n < pool_ids.len() && pool_ids[n] == r[i].id;
        assert(pool[n].id == r[i].id);
    }
}

} // verus!
