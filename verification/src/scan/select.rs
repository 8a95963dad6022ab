//! Bounded selection: keeps the `k` greatest hits of a candidate stream.
//!
//! Because the order of hits is total, the outcome is a function of the
//! offered hits as a multiset, and a smaller `k` gives a prefix of what a
//! larger one gives.

use vstd::prelude::*;
use vstd::multiset::*;
use vstd::relations::*;
use vstd::seq_lib::*;
use crate::scan::heap;
use crate::scan::hit::{self, Hit};

verus! {

/// The `k` best of the hits offered so far. Its view is the sequence of all
/// hits offered, in the order of their coming.
pub struct Selection {
    k: usize,
    kept: Vec<Hit>,
    dropped: Ghost<Seq<Hit>>,
    offered: Ghost<Seq<Hit>>,
}

impl View for Selection {
    type V = Seq<Hit>;

    closed spec fn view(&self) -> Seq<Hit> {
        self.offered@
    }
}

/// `kept` holds the best of what `kept` and `dropped` hold together.
spec fn dominates(kept: Seq<Hit>, dropped: Seq<Hit>) -> bool {
    forall|x: Hit, y: Hit|
        kept.to_multiset().contains(x) && dropped.to_multiset().contains(y) ==> #[trigger] hit::at_least(
            x,
            y,
        )
}

/// The hits that dominate the others, sorted, are the top of all.
proof fn lemma_dominating_is_top(kept: Seq<Hit>, dropped: Seq<Hit>, all: Seq<Hit>, k: nat)
    requires
        dominates(kept, dropped),
        heap::sorted_best_first(kept),
        kept.to_multiset().add(dropped.to_multiset()) == all.to_multiset(),
        kept.len() == if k < all.len() {
            k
        } else {
            all.len()
        },
    ensures
        kept == hit::top(all, k),
{
    hit::lemma_order_is_total();
    hit::lemma_ranking(all);
    hit::lemma_ranking(dropped);
    let leq = hit::best_first();
    let rest = hit::ranking(dropped);
    let whole = kept + rest;
    kept.to_multiset_ensures();
    rest.to_multiset_ensures();
    lemma_multiset_commutative(kept, rest);
    assert forall|i: int, j: int| 0 <= i < j < whole.len() implies #[trigger] leq(
        whole[i],
        whole[j],
    ) by {
        if j < kept.len() {
            assert(hit::at_least(kept[i], kept[j]));
        } else if i >= kept.len() {
            assert(hit::at_least(rest[i - kept.len()], rest[j - kept.len()]));
        } else {
            assert(kept.to_multiset().contains(kept[i]));
            assert(rest.to_multiset().contains(rest[j - kept.len()]));
            assert(hit::at_least(kept[i], rest[j - kept.len()]));
        }
    }
    all.lemma_sort_by_ensures(leq);
    lemma_sorted_unique(whole, hit::ranking(all), leq);
    assert(kept =~= hit::ranking(all).take(kept.len() as int));
    assert(hit::ranking(all).take(all.len() as int) =~= hit::ranking(all));
}

impl Selection {
    /// How many hits the selection keeps at most.
    pub closed spec fn limit(&self) -> nat {
        self.k as nat
    }

    #[verifier::type_invariant]
    closed spec fn wf(&self) -> bool {
        &&& heap::is_heap(self.kept@, self.kept@.len() as int)
        &&& dominates(self.kept@, self.dropped@)
        &&& self.kept@.to_multiset().add(self.dropped@.to_multiset())
            == self.offered@.to_multiset()
        &&& self.kept@.len() == if self.k < self.offered@.len() {
            self.k as nat
        } else {
            self.offered@.len()
        }
    }

    /// An empty selection that keeps at most `k` hits.
    pub fn new(k: usize) -> (r: Self)
        ensures
            r@ == Seq::<Hit>::empty(),
            r.limit() == k,
    {
        let kept: Vec<Hit> = Vec::new();
        proof {
            broadcast use group_multiset_axioms;

            Seq::<Hit>::empty().to_multiset_ensures();
            assert(Seq::<Hit>::empty().to_multiset() =~= Multiset::<Hit>::empty());
            assert(Multiset::<Hit>::empty().add(Multiset::<Hit>::empty()) =~= Multiset::<
                Hit,
            >::empty());
        }
        Selection { k, kept, dropped: Ghost(Seq::empty()), offered: Ghost(Seq::empty()) }
    }

    /// Offers a hit: it is kept if fewer than `k` are, or if it is strictly
    /// better than the worst of them, whose place it then takes.
    pub fn offer(self, hit: Hit) -> (r: Self)
        ensures
            r@ == self@.push(hit),
            r.limit() == self.limit(),
    {
        proof {
            use_type_invariant(&self);
        }
        let ghost all = self.offered@;
        let ghost old_kept = self.kept@;
        let ghost old_dropped = self.dropped@;
        let Selection { k, kept: mut kept, dropped: Ghost(mut dropped), offered: _ } = self;
        proof {
            to_multiset_build(all, hit);
            old_kept.to_multiset_ensures();
            old_dropped.to_multiset_ensures();
            to_multiset_len(old_kept);
            to_multiset_len(old_dropped);
            to_multiset_len(all);
        }
        if kept.len() < k {
            heap::push(&mut kept, hit);
            proof {
                broadcast use group_multiset_axioms;

                assert(old_dropped.len() == 0);
                assert(kept@.to_multiset().add(dropped.to_multiset())
                    =~= all.push(hit).to_multiset());
                assert(dominates(kept@, dropped));
            }
        } else if k > 0 && hit.is_better(&kept[0]) {
            let ghost root = kept@[0];
            heap::replace_worst(&mut kept, hit);
            proof {
                broadcast use group_multiset_axioms;

                assert(old_kept.to_multiset().contains(root));
                dropped = old_dropped.push(root);
                to_multiset_build(old_dropped, root);
                assert(kept@.to_multiset().add(dropped.to_multiset())
                    =~= all.push(hit).to_multiset());
                assert forall|x: Hit, y: Hit|
                    kept@.to_multiset().contains(x) && dropped.to_multiset().contains(
                        y,
                    ) implies #[trigger] hit::at_least(x, y) by {
                    if x != hit {
                        assert(old_kept.to_multiset().contains(x));
                        let i = choose|i: int| 0 <= i < old_kept.len() && old_kept[i] == x;
                        heap::lemma_root_is_worst(old_kept, old_kept.len() as int, i);
                    }
                    assert(hit::at_least(x, root));
                    if y != root {
                        assert(old_dropped.to_multiset().contains(y));
                        assert(hit::at_least(root, y));
                    }
                }
            }
        } else {
            proof {
                broadcast use group_multiset_axioms;

                dropped = old_dropped.push(hit);
                to_multiset_build(old_dropped, hit);
                assert(kept@.to_multiset().add(dropped.to_multiset())
                    =~= all.push(hit).to_multiset());
                assert forall|x: Hit, y: Hit|
                    kept@.to_multiset().contains(x) && dropped.to_multiset().contains(
                        y,
                    ) implies #[trigger] hit::at_least(x, y) by {
                    if y == hit {
                        let i = choose|i: int| 0 <= i < old_kept.len() && old_kept[i] == x;
                        heap::lemma_root_is_worst(old_kept, old_kept.len() as int, i);
                        hit::lemma_order_is_total();
                        let leq = hit::best_first();
                        assert(leq(old_kept[0], hit) || leq(hit, old_kept[0]));
                        assert(hit::at_least(old_kept[0], hit));
                    } else {
                        assert(old_dropped.to_multiset().contains(y));
                    }
                }
            }
        }
        Selection { k, kept, dropped: Ghost(dropped), offered: Ghost(all.push(hit)) }
    }

    /// The kept hits, best first.
    pub fn into_sorted(self) -> (r: Vec<Hit>)
        ensures
            r@ == hit::top(self@, self.limit()),
    {
        proof {
            use_type_invariant(&self);
        }
        let ghost dropped = self.dropped@;
        let ghost all = self.offered@;
        let ghost limit = self.k as nat;
        let ghost before = self.kept@;
        let mut kept: Vec<Hit> = self.kept;
        heap::sort(&mut kept);
        proof {
            to_multiset_len(before);
            to_multiset_len(kept@);
            lemma_dominating_is_top(kept@, dropped, all, limit);
        }
        kept
    }
}

/// `hits` are the candidates in their order, each with a score that the
/// scoring function gives for its id.
pub open spec fn scored_by<F: Fn(u32) -> u32>(ids: Seq<u32>, score: F, hits: Seq<Hit>) -> bool {
    &&& hits.len() == ids.len()
    &&& forall|i: int|
        0 <= i < ids.len() ==> {
            &&& (#[trigger] hits[i]).id == ids[i]
            &&& call_ensures(score, (ids[i],), hits[i].score)
        }
}

/// Scores every candidate id and keeps the `k` greatest hits, best first. No
/// candidate is scored where `k` is 0.
pub fn select_top_k<F: Fn(u32) -> u32>(candidates: &[u32], score: F, k: usize) -> (r: Vec<Hit>)
    requires
        k > 0 ==> forall|i: int|
            0 <= i < candidates@.len() ==> call_requires(score, (#[trigger] candidates@[i],)),
    ensures
        k == 0 ==> r@ == Seq::<Hit>::empty(),
        k > 0 ==> exists|hits: Seq<Hit>| #[trigger]
            scored_by(candidates@, score, hits) && r@ == hit::top(hits, k as nat),
{
    if k == 0 {
        return Vec::new();
    }
    let mut selection: Selection = Selection::new(k);
    let mut i: usize = 0;
    while i < candidates.len()
        invariant
            i <= candidates@.len(),
            forall|i: int|
                0 <= i < candidates@.len() ==> call_requires(score, (#[trigger] candidates@[i],)),
            selection.limit() == k,
            scored_by(candidates@.take(i as int), score, selection@),
        decreases candidates@.len() - i,
    {
        let id: u32 = candidates[i];
        let s: u32 = score(id);
        let ghost before = selection@;
        selection = selection.offer(Hit { id, score: s });
        i += 1;
        assert forall|j: int| 0 <= j < i implies {
            &&& (#[trigger] selection@[j]).id == candidates@.take(i as int)[j]
            &&& call_ensures(score, (candidates@.take(i as int)[j],), selection@[j].score)
        } by {
            if j < i - 1 {
                assert(selection@[j] == before[j]);
                assert(candidates@.take(i - 1)[j] == candidates@.take(i as int)[j]);
            }
        }
    }
    assert(candidates@.take(candidates@.len() as int) =~= candidates@);
    selection.into_sorted()
}

} // verus!
