//! Recall: how much of the ground truth a result holds.

use vstd::prelude::*;
use vstd::multiset::*;
use vstd::seq_lib::*;
use crate::ratio::Ratio;
use crate::scan::hit::{self, Hit};
use crate::scan::select::Selection;

verus! {

/// The ids of hits.
pub open spec fn ids_of(hits: Seq<Hit>) -> Seq<u32> {
    hits.map_values(|h: Hit| h.id)
}

/// The smaller of two numbers.
pub open spec fn least(a: nat, b: nat) -> nat {
    if a < b {
        a
    } else {
        b
    }
}

/// How many of the first `n` hits have an id among `ids`.
pub open spec fn matches_among(hits: Seq<Hit>, n: nat, ids: Seq<u32>) -> nat
    decreases n,
{
    if n == 0 {
        0
    } else {
        matches_among(hits, (n - 1) as nat, ids) + if ids.contains(hits[n - 1].id) {
            1nat
        } else {
            0nat
        }
    }
}

/// recall@k of a result against the ids of the ground truth's first `k` hits:
/// the matches among the first `k` of the result, over the number of ids; 1
/// where there are none.
pub open spec fn recall(result: Seq<Hit>, k: nat, ids: Seq<u32>) -> Ratio {
    if ids.len() == 0 {
        Ratio { numerator: 1, denominator: 1 }
    } else {
        Ratio {
            numerator: matches_among(result, least(k, result.len()), ids) as u128,
            denominator: ids.len() as u128,
        }
    }
}

/// The ids are sorted.
pub open spec fn ascending(ids: Seq<u32>) -> bool {
    forall|i: int, j: int| 0 <= i <= j < ids.len() ==> ids[i] <= ids[j]
}

/// `ids` are the ids of the first `k` hits (of all where there are fewer),
/// sorted.
pub open spec fn sorted_prefix(hits: Seq<Hit>, k: nat, ids: Seq<u32>) -> bool {
    &&& ascending(ids)
    &&& ids.to_multiset() == ids_of(hits.take(least(k, hits.len()) as int)).to_multiset()
}

/// Whether a sorted list holds an id.
fn holds(ids: &[u32], id: u32) -> (r: bool)
    requires
        ascending(ids@),
    ensures
        r == ids@.contains(id),
{
    let mut lo: usize = 0;
    let mut hi: usize = ids.len();
    while lo < hi
        invariant
            lo <= hi <= ids@.len(),
            ascending(ids@),
            forall|i: int| 0 <= i < lo ==> ids@[i] < id,
            forall|i: int| hi <= i < ids@.len() ==> ids@[i] > id,
        decreases hi - lo,
    {
        let mid: usize = lo + (hi - lo) / 2;
        let x: u32 = ids[mid];
        if x == id {
            assert(ids@[mid as int] == id);
            return true;
        }
        if x < id {
            lo = mid + 1;
        } else {
            hi = mid;
        }
    }
    false
}

/// recall@k = |result@k ∩ truth@k| / min(k, |truth|), and 1 where the truth is
/// empty. The ids passed in are already those of the truth's first
/// `min(k, |truth|)` hits; the result is cut at `k`.
pub fn recall_at_k(result: &[Hit], k: usize, gt_prefix_sorted_ids: &[u32]) -> (r: Ratio)
    requires
        ascending(gt_prefix_sorted_ids@),
    ensures
        r == recall(result@, k as nat, gt_prefix_sorted_ids@),
        r.wf(),
{
    let denominator: usize = gt_prefix_sorted_ids.len();
    if denominator == 0 {
        return Ratio { numerator: 1, denominator: 1 };
    }
    let len: usize = result.len();
    let n: usize = if k < len {
        k
    } else {
        len
    };
    let mut hits: usize = 0;
    let mut i: usize = 0;
    while i < n
        invariant
            i <= n <= result@.len(),
            ascending(gt_prefix_sorted_ids@),
            hits == matches_among(result@, i as nat, gt_prefix_sorted_ids@),
            hits <= i,
        decreases n - i,
    {
        if holds(gt_prefix_sorted_ids, result[i].id) {
            hits += 1;
        }
        i += 1;
    }
    Ratio { numerator: hits as u128, denominator: denominator as u128 }
}

/// Reordered hits have reordered ids.
pub proof fn lemma_ids_reordered(a: Seq<Hit>, b: Seq<Hit>)
    requires
        a.to_multiset() == b.to_multiset(),
    ensures
        ids_of(a).to_multiset() == ids_of(b).to_multiset(),
    decreases a.len(),
{
    broadcast use group_multiset_axioms;

    a.to_multiset_ensures();
    b.to_multiset_ensures();
    ids_of(a).to_multiset_ensures();
    ids_of(b).to_multiset_ensures();
    if a.len() == 0 {
        assert(ids_of(a) =~= ids_of(b));
    } else {
        let last = a.len() - 1;
        let h = a[last];
        assert(a.contains(h));
        assert(a.to_multiset().count(h) > 0);
        assert(b.contains(h));
        let j = choose|j: int| 0 <= j < b.len() && b[j] == h;
        lemma_ids_reordered(a.remove(last), b.remove(j));
        assert(ids_of(a.remove(last)) =~= ids_of(a).remove(last));
        assert(ids_of(b.remove(j)) =~= ids_of(b).remove(j));
        assert(ids_of(a).to_multiset() =~= ids_of(a).remove(last).to_multiset().insert(h.id));
        assert(ids_of(b).to_multiset() =~= ids_of(b).remove(j).to_multiset().insert(h.id));
    }
}

/// The ids of the first `k` hits, sorted.
fn prefix_ids(hits: &[Hit], k: usize) -> (r: Vec<u32>)
    ensures
        sorted_prefix(hits@, k as nat, r@),
{
    let len: usize = hits.len();
    let n: usize = if k < len {
        k
    } else {
        len
    };
    let mut selection: Selection = Selection::new(n);
    let mut i: usize = 0;
    while i < n
        invariant
            i <= n <= hits@.len(),
            selection.limit() == n,
            selection@.len() == i,
            forall|j: int|
                0 <= j < i ==> #[trigger] selection@[j] == (Hit { id: hits@[j].id, score: 0 }),
        decreases n - i,
    {
        selection = selection.offer(Hit { id: hits[i].id, score: 0 });
        i += 1;
    }
    let ghost before = selection@;
    assert(ids_of(before) =~= ids_of(hits@.take(n as int)));
    let level: Vec<Hit> = selection.into_sorted();
    proof {
        hit::lemma_ranking(before);
        lemma_ids_reordered(level@, before);
        level@.to_multiset_ensures();
        before.to_multiset_ensures();
        assert forall|x: int, y: int| 0 <= x <= y < level@.len() implies ids_of(level@)[x] <= ids_of(
            level@,
        )[y] by {
            assert(level@.contains(level@[x]) && level@.contains(level@[y]));
            assert(level@.to_multiset().count(level@[x]) > 0);
            assert(level@.to_multiset().count(level@[y]) > 0);
            assert(before.contains(level@[x]) && before.contains(level@[y]));
            if x < y {
                assert(hit::at_least(level@[x], level@[y]));
            }
        }
    }
    let mut out: Vec<u32> = Vec::new();
    let mut j: usize = 0;
    while j < level.len()
        invariant
            j <= level@.len(),
            out@ == ids_of(level@.take(j as int)),
        decreases level@.len() - j,
    {
        out.push(level[j].id);
        j += 1;
        assert(out@ =~= ids_of(level@.take(j as int)));
    }
    assert(level@.take(j as int) =~= level@);
    out
}

/// The ids of hits in nested vectors.
pub open spec fn prefixes_of(
    gt: Seq<Vec<Hit>>,
    ks: Seq<usize>,
    prefixes: Seq<Vec<Vec<u32>>>,
) -> bool {
    &&& prefixes.len() == gt.len()
    &&& forall|q: int|
        0 <= q < gt.len() ==> query_prefixes(gt[q]@, ks, (#[trigger] prefixes[q])@)
}

/// One sorted prefix per depth.
pub open spec fn query_prefixes(hits: Seq<Hit>, ks: Seq<usize>, prefixes: Seq<Vec<u32>>) -> bool {
    &&& prefixes.len() == ks.len()
    &&& forall|i: int|
        0 <= i < ks.len() ==> sorted_prefix(hits, ks[i] as nat, (#[trigger] prefixes[i])@)
}

/// Per query and depth the sorted ids of the ground truth's first hits
/// (`min(k, |truth|)` of them).
pub fn gt_prefixes(gt: &[Vec<Hit>], ks: &[usize]) -> (r: Vec<Vec<Vec<u32>>>)
    ensures
        prefixes_of(gt@, ks@, r@),
{
    let mut out: Vec<Vec<Vec<u32>>> = Vec::new();
    let mut q: usize = 0;
    while q < gt.len()
        invariant
            q <= gt@.len(),
            out@.len() == q,
            forall|i: int| 0 <= i < q ==> query_prefixes(gt@[i]@, ks@, (#[trigger] out@[i])@),
        decreases gt@.len() - q,
    {
        let hits: &[Hit] = gt[q].as_slice();
        let mut row: Vec<Vec<u32>> = Vec::new();
        let mut i: usize = 0;
        while i < ks.len()
            invariant
                i <= ks@.len(),
                row@.len() == i,
                forall|j: int|
                    0 <= j < i ==> sorted_prefix(hits@, ks@[j] as nat, (#[trigger] row@[j])@),
            decreases ks@.len() - i,
        {
            row.push(prefix_ids(hits, ks[i]));
            i += 1;
        }
        out.push(row);
        q += 1;
    }
    out
}

/// A recall lies in [0, 1] where the result holds no id twice.
pub proof fn law_recall_is_a_fraction(result: Seq<Hit>, k: nat, ids: Seq<u32>)
    requires
        ids_of(result).no_duplicates(),
        ids.len() <= usize::MAX,
    ensures
        recall(result, k, ids).wf(),
        recall(result, k, ids).numerator <= recall(result, k, ids).denominator,
{
    let n = least(k, result.len());
    lemma_matches_are_members(result, n, ids);
    let found = matched_ids(result, n, ids);
    assert(found.subset_of(ids.to_set()));
    vstd::seq_lib::seq_to_set_is_finite(ids);
    vstd::set_lib::lemma_len_subset(found, ids.to_set());
    ids.lemma_cardinality_of_set();
}

/// The ids that match among the first `n` hits.
pub open spec fn matched_ids(hits: Seq<Hit>, n: nat, ids: Seq<u32>) -> Set<u32>
    decreases n,
{
    if n == 0 {
        Set::empty()
    } else if ids.contains(hits[n - 1].id) {
        matched_ids(hits, (n - 1) as nat, ids).insert(hits[n - 1].id)
    } else {
        matched_ids(hits, (n - 1) as nat, ids)
    }
}

/// Matches are counted by their ids.
pub proof fn lemma_matches_are_members(hits: Seq<Hit>, n: nat, ids: Seq<u32>)
    requires
        n <= hits.len(),
        ids_of(hits).no_duplicates(),
    ensures
        matched_ids(hits, n, ids).finite(),
        matched_ids(hits, n, ids).len() == matches_among(hits, n, ids),
        forall|id: u32| #[trigger]
            matched_ids(hits, n, ids).contains(id) ==> ids.contains(id) && exists|i: int|
                0 <= i < n && (#[trigger] hits[i]).id == id,
    decreases n,
{
    if n > 0 {
        lemma_matches_are_members(hits, (n - 1) as nat, ids);
        let before = matched_ids(hits, (n - 1) as nat, ids);
        let id = hits[n - 1].id;
        if before.contains(id) {
            let i = choose|i: int| 0 <= i < n - 1 && (#[trigger] hits[i]).id == id;
            assert(ids_of(hits)[i] == ids_of(hits)[n - 1]);
        }
        assert forall|x: u32| #[trigger] matched_ids(hits, n, ids).contains(x) implies ids.contains(
            x,
        ) && exists|i: int| 0 <= i < n && (#[trigger] hits[i]).id == x by {
            if before.contains(x) {
                let i = choose|i: int| 0 <= i < n - 1 && (#[trigger] hits[i]).id == x;
                assert(hits[i].id == x);
            } else {
                assert(hits[n - 1].id == x);
            }
        }
    }
}

/// A result that is the ground truth itself has recall 1 at every depth.
pub proof fn law_truth_has_recall_one(hits: Seq<Hit>, k: nat, ids: Seq<u32>)
    requires
        sorted_prefix(hits, k, ids),
        hits.len() <= usize::MAX,
    ensures
        recall(hits, k, ids).numerator == recall(hits, k, ids).denominator,
{
    let n = least(k, hits.len());
    let prefix = hits.take(n as int);
    ids.to_multiset_ensures();
    ids_of(prefix).to_multiset_ensures();
    lemma_all_match(hits, n, n, ids);
}

/// Every one of the first `n` hits matches.
pub proof fn lemma_all_match(hits: Seq<Hit>, m: nat, n: nat, ids: Seq<u32>)
    requires
        m <= n <= hits.len(),
        ids.to_multiset() == ids_of(hits.take(n as int)).to_multiset(),
    ensures
        matches_among(hits, m, ids) == m,
    decreases m,
{
    if m > 0 {
        lemma_all_match(hits, (m - 1) as nat, n, ids);
        let prefix_ids = ids_of(hits.take(n as int));
        ids.to_multiset_ensures();
        prefix_ids.to_multiset_ensures();
        assert(prefix_ids[m - 1] == hits[m - 1].id);
        assert(prefix_ids.contains(hits[m - 1].id));
        assert(prefix_ids.to_multiset().count(hits[m - 1].id) > 0);
        assert(ids.contains(hits[m - 1].id));
    }
}

/// recall@k of a result against the ground truth.
pub open spec fn recall_against(result: Seq<Hit>, k: nat, truth: Seq<Hit>) -> Ratio {
    recall(result, k, ids_of(truth.take(least(k, truth.len()) as int)))
}

/// The order of the truth's ids does not matter.
pub proof fn lemma_recall_against(result: Seq<Hit>, k: nat, truth: Seq<Hit>, ids: Seq<u32>)
    requires
        sorted_prefix(truth, k, ids),
    ensures
        recall(result, k, ids) == recall_against(result, k, truth),
{
    let plain = ids_of(truth.take(least(k, truth.len()) as int));
    ids.to_multiset_ensures();
    plain.to_multiset_ensures();
    lemma_same_matches(result, least(k, result.len()), ids, plain);
}

/// Reordered ids match the same hits.
proof fn lemma_same_matches(hits: Seq<Hit>, n: nat, a: Seq<u32>, b: Seq<u32>)
    requires
        a.to_multiset() == b.to_multiset(),
    ensures
        matches_among(hits, n, a) == matches_among(hits, n, b),
    decreases n,
{
    if n > 0 {
        lemma_same_matches(hits, (n - 1) as nat, a, b);
        a.to_multiset_ensures();
        b.to_multiset_ensures();
        let id = hits[n - 1].id;
        assert(a.contains(id) <==> a.to_multiset().count(id) > 0);
        assert(b.contains(id) <==> b.to_multiset().count(id) > 0);
    }
}

/// A hit with a wanted id is matched.
pub proof fn lemma_match_is_member(hits: Seq<Hit>, n: nat, ids: Seq<u32>, i: int)
    requires
        0 <= i < n,
        ids.contains(hits[i].id),
    ensures
        matched_ids(hits, n, ids).contains(hits[i].id),
    decreases n,
{
    if i < n - 1 {
        lemma_match_is_member(hits, (n - 1) as nat, ids, i);
    }
}

/// There are no more matches than hits.
pub proof fn lemma_matches_bounded(hits: Seq<Hit>, n: nat, ids: Seq<u32>)
    ensures
        matches_among(hits, n, ids) <= n,
    decreases n,
{
    if n > 0 {
        lemma_matches_bounded(hits, (n - 1) as nat, ids);
    }
}

} // verus!
