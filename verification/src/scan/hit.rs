//! Scored hits and the order that every result is sorted by.
//!
//! A [`Hit`] is *greater* (better) than another if its score is higher in the
//! IEEE total order, or the scores are the same and its id is lower. Every
//! result is sorted best-first. With binary codes score ties are massive, so
//! the tie rule is what makes results reproducible.

use vstd::prelude::*;
use vstd::relations::*;
use vstd::seq_lib::*;
use std::cmp::Ordering;
use crate::ieee;

verus! {

/// A scored hit; `score` is a single-precision bit pattern.
#[derive(Clone, Copy, Debug)]
pub struct Hit {
    pub id: u32,
    pub score: u32,
}

/// `a` is strictly better than `b`.
pub open spec fn beats(a: Hit, b: Hit) -> bool {
    ||| ieee::total_rank(a.score) > ieee::total_rank(b.score)
    ||| ieee::total_rank(a.score) == ieee::total_rank(b.score) && a.id < b.id
}

/// `a` is `b` or better.
pub open spec fn at_least(a: Hit, b: Hit) -> bool {
    beats(a, b) || a == b
}

/// The relation "`a` is `b` or better", as a value.
pub open spec fn best_first() -> spec_fn(Hit, Hit) -> bool {
    |a: Hit, b: Hit| at_least(a, b)
}

/// All hits, best first.
pub open spec fn ranking(hits: Seq<Hit>) -> Seq<Hit> {
    hits.sort_by(best_first())
}

/// The `k` best hits, best first (all of them where there are fewer).
pub open spec fn top(hits: Seq<Hit>, k: nat) -> Seq<Hit> {
    if k < hits.len() {
        ranking(hits).take(k as int)
    } else {
        ranking(hits)
    }
}

/// The order of hits is total.
pub proof fn lemma_order_is_total()
    ensures
        total_ordering(best_first()),
{
    assert forall|a: Hit, b: Hit| #[trigger] best_first()(a, b) && #[trigger] best_first()(b, a)
        implies a == b by {
        assert(ieee::total_rank(a.score) == ieee::total_rank(b.score));
    }
    assert forall|a: Hit, b: Hit| #[trigger] best_first()(a, b) || #[trigger] best_first()(b, a) by {
        if ieee::total_rank(a.score) == ieee::total_rank(b.score) && a.id == b.id {
            assert(a == b);
        }
    }
}

/// Ranking keeps exactly the hits it was given and puts none before a better one.
pub proof fn lemma_ranking(hits: Seq<Hit>)
    ensures
        ranking(hits).to_multiset() == hits.to_multiset(),
        ranking(hits).len() == hits.len(),
        forall|i: int, j: int|
            #![trigger ranking(hits)[i], ranking(hits)[j]]
            0 <= i < j < hits.len() ==> at_least(ranking(hits)[i], ranking(hits)[j]),
{
    lemma_order_is_total();
    hits.lemma_sort_by_ensures(best_first());
    hits.to_multiset_ensures();
    ranking(hits).to_multiset_ensures();
    assert forall|i: int, j: int| 0 <= i < j < hits.len() implies at_least(
        ranking(hits)[i],
        ranking(hits)[j],
    ) by {
        assert(best_first()(ranking(hits)[i], ranking(hits)[j]));
    }
}

/// A selection of fewer hits is a prefix of a selection of more:
/// `top_k(k1) == top_k(k2)[..k1]` for `k1 <= k2`, where `k1` is clamped to
/// the number of hits.
pub proof fn law_prefix(hits: Seq<Hit>, k1: nat, k2: nat)
    requires
        k1 <= k2,
    ensures
        top(hits, k1).len() == if k1 < hits.len() {
            k1
        } else {
            hits.len()
        },
        top(hits, k1) == top(hits, k2).take(top(hits, k1).len() as int),
{
    lemma_ranking(hits);
    assert(top(hits, k1) =~= top(hits, k2).take(top(hits, k1).len() as int));
}

/// The selection depends on which hits there are, not on the order in which
/// they come.
pub proof fn law_order_independent(a: Seq<Hit>, b: Seq<Hit>, k: nat)
    requires
        a.to_multiset() == b.to_multiset(),
    ensures
        top(a, k) == top(b, k),
{
    lemma_order_is_total();
    lemma_ranking(a);
    lemma_ranking(b);
    a.lemma_sort_by_ensures(best_first());
    b.lemma_sort_by_ensures(best_first());
    a.to_multiset_ensures();
    b.to_multiset_ensures();
    lemma_sorted_unique(ranking(a), ranking(b), best_first());
}

/// A selection is sorted best-first, its hits are among those given, and none
/// that was left out is better than one that was kept.
pub proof fn law_selection(hits: Seq<Hit>, k: nat)
    ensures
        forall|i: int, j: int|
            #![trigger top(hits, k)[i], top(hits, k)[j]]
            0 <= i < j < top(hits, k).len() ==> at_least(top(hits, k)[i], top(hits, k)[j]),
        forall|h: Hit| #[trigger] top(hits, k).contains(h) ==> hits.contains(h),
        forall|h: Hit, i: int|
            #![trigger hits.contains(h), top(hits, k)[i]]
            hits.contains(h) && !top(hits, k).contains(h) && 0 <= i < top(hits, k).len()
                ==> beats(top(hits, k)[i], h),
{
    lemma_ranking(hits);
    let all = ranking(hits);
    let best = top(hits, k);
    hits.to_multiset_ensures();
    all.to_multiset_ensures();
    assert forall|h: Hit| #[trigger] best.contains(h) implies hits.contains(h) by {
        let i = choose|i: int| 0 <= i < best.len() && best[i] == h;
        assert(all[i] == h);
        assert(all.to_multiset().contains(h));
    }
    assert forall|h: Hit, i: int|
        #![trigger hits.contains(h), best[i]]
        hits.contains(h) && !best.contains(h) && 0 <= i < best.len() implies beats(best[i], h) by {
        assert(hits.to_multiset().contains(h));
        assert(all.contains(h));
        let j = choose|j: int| 0 <= j < all.len() && all[j] == h;
        if j < best.len() {
            assert(best[j] == h);
        }
        assert(at_least(all[i], all[j]));
        assert(best[i] == all[i]);
        assert(best.contains(best[i]));
    }
}

/// Where no hit occurs twice, none does in a selection.
pub proof fn lemma_top_no_duplicates(hits: Seq<Hit>, k: nat)
    requires
        hits.no_duplicates(),
    ensures
        top(hits, k).no_duplicates(),
{
    lemma_ranking(hits);
    hits.lemma_multiset_has_no_duplicates();
    ranking(hits).lemma_multiset_has_no_duplicates_conv();
}

/// A hit that is among the `k` best of all is among the `k` best of any part
/// it belongs to.
pub proof fn law_best_survive_in_parts(all: Seq<Hit>, part: Seq<Hit>, k: nat, h: Hit)
    requires
        forall|x: Hit| #[trigger] part.contains(x) ==> all.contains(x),
        part.no_duplicates(),
        part.contains(h),
        top(all, k).contains(h),
    ensures
        top(part, k).contains(h),
{
    let (best, kept) = (top(all, k), top(part, k));
    if !kept.contains(h) {
        law_prefix(all, k, k);
        law_prefix(part, k, k);
        law_selection(all, k);
        law_selection(part, k);
        lemma_ranking(part);
        if part.len() <= k {
            part.to_multiset_ensures();
            ranking(part).to_multiset_ensures();
            assert(part.to_multiset().count(h) > 0);
            assert(ranking(part).contains(h));
        }
        assert(kept.len() == k);
        lemma_top_no_duplicates(part, k);
        kept.unique_seq_to_set();
        best.lemma_cardinality_of_set();
        seq_to_set_is_finite(kept);
        seq_to_set_is_finite(best);
        let j = choose|j: int| 0 <= j < best.len() && best[j] == h;
        assert forall|x: Hit| kept.to_set().insert(h).contains(x) implies best.to_set().contains(
            x,
        ) by {
            if x != h {
                assert(kept.contains(x));
                let i = choose|i: int| 0 <= i < kept.len() && kept[i] == x;
                assert(part.contains(x));
                assert(all.contains(x));
                assert(part.contains(h));
                assert(beats(kept[i], h));
                if !best.contains(x) {
                    assert(beats(best[j], x));
                }
            }
        }
        vstd::set_lib::lemma_len_subset(kept.to_set().insert(h), best.to_set());
    }
}

impl Hit {
    /// Whether this hit is strictly better than `other`.
    pub fn is_better(&self, other: &Hit) -> (r: bool)
        ensures
            r == beats(*self, *other),
    {
        let a: u32 = ieee::total_key(self.score);
        let b: u32 = ieee::total_key(other.score);
        a > b || (a == b && self.id < other.id)
    }

    /// Compares two hits: `Greater` means better.
    pub fn cmp(&self, other: &Hit) -> (r: Ordering)
        ensures
            r == (if beats(*self, *other) {
                Ordering::Greater
            } else if *self == *other {
                Ordering::Equal
            } else {
                Ordering::Less
            }),
            r == Ordering::Less <==> beats(*other, *self),
    {
        if self.is_better(other) {
            Ordering::Greater
        } else if self.id == other.id && self.score == other.score {
            Ordering::Equal
        } else {
            Ordering::Less
        }
    }
}

impl PartialEq for Hit {
    fn eq(&self, other: &Hit) -> (r: bool) {
        self.id == other.id && self.score == other.score
    }
}

impl vstd::std_specs::cmp::PartialEqSpecImpl for Hit {
    open spec fn obeys_eq_spec() -> bool {
        true
    }

    open spec fn eq_spec(&self, other: &Hit) -> bool {
        *self == *other
    }
}

impl Eq for Hit {

}

impl PartialOrd for Hit {
    fn partial_cmp(&self, other: &Hit) -> (r: Option<Ordering>) {
        Some(self.cmp(other))
    }
}

impl vstd::std_specs::cmp::PartialOrdSpecImpl for Hit {
    open spec fn obeys_partial_cmp_spec() -> bool {
        true
    }

    open spec fn partial_cmp_spec(&self, other: &Hit) -> Option<Ordering> {
        if beats(*self, *other) {
            Some(Ordering::Greater)
        } else if *self == *other {
            Some(Ordering::Equal)
        } else {
            Some(Ordering::Less)
        }
    }
}

} // verus!
