//! A binary heap of hits kept in a `Vec`, the worst hit at the root. It holds
//! the best hits seen so far; a better candidate takes the root's place.

use vstd::prelude::*;
use vstd::multiset::*;
use vstd::seq_lib::*;
use crate::scan::hit::{self, Hit};

verus! {

/// Index of the parent of node `i`, for `i > 0`.
pub open spec fn parent(i: int) -> int {
    (i - 1) / 2
}

/// Every node of the first `end` is as good as its parent or better.
pub open spec fn is_heap(v: Seq<Hit>, end: int) -> bool {
    forall|i: int| 0 < i < end ==> hit::at_least(#[trigger] v[i], v[parent(i)])
}

/// A heap but for node `hole`, which may be worse than its parent.
spec fn heap_but_up(v: Seq<Hit>, hole: int) -> bool {
    &&& forall|i: int| 0 < i < v.len() && i != hole ==> hit::at_least(#[trigger] v[i], v[parent(i)])
    &&& forall|i: int|
        0 < i < v.len() && parent(i) == hole && 0 < hole ==> hit::at_least(
            #[trigger] v[i],
            v[parent(hole)],
        )
}

/// A heap of `end` nodes but for node `hole`, which may be better than its children.
spec fn heap_but_down(v: Seq<Hit>, hole: int, end: int) -> bool {
    &&& forall|i: int|
        0 < i < end && parent(i) != hole ==> hit::at_least(#[trigger] v[i], v[parent(i)])
    &&& forall|i: int|
        0 < i < end && parent(i) == hole && 0 < hole ==> hit::at_least(
            #[trigger] v[i],
            v[parent(hole)],
        )
}

/// The root is the worst node.
pub proof fn lemma_root_is_worst(v: Seq<Hit>, end: int, i: int)
    requires
        is_heap(v, end),
        0 <= i < end <= v.len(),
    ensures
        hit::at_least(v[i], v[0]),
    decreases i,
{
    if i > 0 {
        lemma_root_is_worst(v, end, parent(i));
        assert(hit::at_least(v[i], v[parent(i)]));
    }
}

/// Exchanging two entries keeps what a sequence holds.
proof fn lemma_swap_keeps_contents(v: Seq<Hit>, i: int, j: int)
    requires
        0 <= i < v.len(),
        0 <= j < v.len(),
    ensures
        v.update(i, v[j]).update(j, v[i]).to_multiset() == v.to_multiset(),
{
    broadcast use group_multiset_axioms;
    broadcast use group_multiset_properties;

    let w = v.update(i, v[j]);
    to_multiset_update(v, i, v[j]);
    to_multiset_update(w, j, v[i]);
    v.to_multiset_ensures();
    w.to_multiset_ensures();
    assert(v.to_multiset().contains(v[i]));
    assert(v.to_multiset().contains(v[j]));
    assert(w[j] == v[j]);
    assert(w.update(j, v[i]).to_multiset() =~= v.to_multiset());
}

fn swap(v: &mut Vec<Hit>, i: usize, j: usize)
    requires
        i < old(v)@.len(),
        j < old(v)@.len(),
    ensures
        final(v)@ == old(v)@.update(i as int, old(v)@[j as int]).update(j as int, old(v)@[i as int]),
        final(v)@.to_multiset() == old(v)@.to_multiset(),
{
    proof {
        lemma_swap_keeps_contents(v@, i as int, j as int);
    }
    let a: Hit = v[i];
    let b: Hit = v[j];
    v[i] = b;
    v[j] = a;
}

/// Moves the last node up until its parent is no better than it.
fn sift_up(v: &mut Vec<Hit>, start: usize)
    requires
        start < old(v)@.len(),
        heap_but_up(old(v)@, start as int),
    ensures
        final(v)@.len() == old(v)@.len(),
        is_heap(final(v)@, final(v)@.len() as int),
        final(v)@.to_multiset() == old(v)@.to_multiset(),
{
    let mut hole: usize = start;
    while hole > 0
        invariant
            hole < v@.len(),
            v@.len() == old(v)@.len(),
            heap_but_up(v@, hole as int),
            v@.to_multiset() == old(v)@.to_multiset(),
        ensures
            v@.len() == old(v)@.len(),
            is_heap(v@, v@.len() as int),
            v@.to_multiset() == old(v)@.to_multiset(),
        decreases hole,
    {
        let up: usize = (hole - 1) / 2;
        if !v[up].is_better(&v[hole]) {
            proof {
                hit::lemma_order_is_total();
                assert(hit::best_first()(v@[hole as int], v@[up as int]) || hit::best_first()(
                    v@[up as int],
                    v@[hole as int],
                ));
            }
            break;
        }
        let ghost before = v@;
        swap(v, up, hole);
        proof {
            assert forall|i: int| 0 < i < v@.len() && i != up implies hit::at_least(
                #[trigger] v@[i],
                v@[parent(i)],
            ) by {
                assert(hit::at_least(before[i], before[parent(i)]) || i == hole);
                if parent(i) == hole {
                    assert(hit::at_least(before[i], before[up as int]));
                } else if parent(i) == up && i != hole {
                    assert(hit::at_least(before[i], before[up as int]));
                }
            }
            assert forall|i: int| 0 < i < v@.len() && parent(i) == up && 0 < up implies hit::at_least(
                #[trigger] v@[i],
                v@[parent(up as int)],
            ) by {
                assert(hit::at_least(before[up as int], before[parent(up as int)]));
                assert(hit::at_least(before[i], before[parent(i)]) || i == hole);
            }
        }
        hole = up;
    }
}

/// The child that the other child does not lose to is the worst child, and it
/// compares with its parent one way or the other.
proof fn lemma_worst_child(v: Seq<Hit>, hole: int, worst: int, end: int)
    requires
        0 <= hole,
        2 * hole + 1 < end <= v.len(),
        worst == (if 2 * hole + 2 < end && hit::beats(v[2 * hole + 1], v[2 * hole + 2]) {
            2 * hole + 2
        } else {
            2 * hole + 1
        }),
    ensures
        parent(worst) == hole,
        forall|i: int|
            0 < i < end && parent(i) == hole ==> hit::at_least(#[trigger] v[i], v[worst]),
        !hit::beats(v[hole], v[worst]) ==> hit::at_least(v[worst], v[hole]),
{
    hit::lemma_order_is_total();
    let leq = hit::best_first();
    assert forall|i: int| 0 < i < end && parent(i) == hole implies hit::at_least(
        #[trigger] v[i],
        v[worst],
    ) by {
        assert(i == 2 * hole + 1 || i == 2 * hole + 2);
        assert(leq(v[i], v[worst]) || leq(v[worst], v[i]));
    }
    assert(leq(v[hole], v[worst]) || leq(v[worst], v[hole]));
}

/// Exchanging two of the first `end` entries keeps what those hold.
proof fn lemma_swap_within(v: Seq<Hit>, i: int, j: int, end: int)
    requires
        0 <= i < end,
        0 <= j < end,
        end <= v.len(),
    ensures
        v.update(i, v[j]).update(j, v[i]).take(end).to_multiset() == v.take(end).to_multiset(),
{
    lemma_swap_keeps_contents(v.take(end), i, j);
    assert(v.update(i, v[j]).update(j, v[i]).take(end) =~= v.take(end).update(i, v[j]).update(
        j,
        v[i],
    ));
}

/// Exchanging a node with its worst child, which is worse than it, moves the
/// hole down to that child.
proof fn lemma_sink_step(before: Seq<Hit>, after: Seq<Hit>, hole: int, worst: int, end: int)
    requires
        0 <= hole < worst < end <= before.len(),
        parent(worst) == hole,
        heap_but_down(before, hole, end),
        hit::beats(before[hole], before[worst]),
        forall|i: int|
            0 < i < end && parent(i) == hole ==> hit::at_least(#[trigger] before[i], before[worst]),
        after == before.update(hole, before[worst]).update(worst, before[hole]),
    ensures
        heap_but_down(after, worst, end),
{
    assert forall|i: int| 0 < i < end && parent(i) != worst implies hit::at_least(
        #[trigger] after[i],
        after[parent(i)],
    ) by {
        if parent(i) == hole {
            assert(hit::at_least(before[i], before[worst]));
        } else if i == hole {
            assert(hit::at_least(before[worst], before[parent(hole)]));
        } else {
            assert(hit::at_least(before[i], before[parent(i)]));
        }
    }
    assert forall|i: int| 0 < i < end && parent(i) == worst && 0 < worst implies hit::at_least(
        #[trigger] after[i],
        after[parent(worst)],
    ) by {
        assert(hit::at_least(before[i], before[parent(i)]));
    }
}

/// Where the worst child of a node is no worse than it, the hole is closed.
proof fn lemma_sink_done(v: Seq<Hit>, hole: int, worst: int, end: int)
    requires
        heap_but_down(v, hole, end),
        hit::at_least(v[worst], v[hole]),
        forall|i: int|
            0 < i < end && parent(i) == hole ==> hit::at_least(#[trigger] v[i], v[worst]),
    ensures
        is_heap(v, end),
{
    assert forall|i: int| 0 < i < end implies hit::at_least(#[trigger] v[i], v[parent(i)]) by {
        if parent(i) == hole {
            assert(hit::at_least(v[i], v[worst]));
        }
    }
}

/// Moves node 0 down until no child of it is worse than it, among the first
/// `end` nodes; the rest stays.
fn sift_down(v: &mut Vec<Hit>, end: usize)
    requires
        0 < end <= old(v)@.len(),
        heap_but_down(old(v)@, 0, end as int),
    ensures
        final(v)@.len() == old(v)@.len(),
        is_heap(final(v)@, end as int),
        final(v)@.to_multiset() == old(v)@.to_multiset(),
        final(v)@.take(end as int).to_multiset() == old(v)@.take(end as int).to_multiset(),
        forall|i: int| end <= i < old(v)@.len() ==> #[trigger] final(v)@[i] == old(v)@[i],
{
    let mut hole: usize = 0;
    loop
        invariant
            hole < end <= v@.len(),
            v@.len() == old(v)@.len(),
            heap_but_down(v@, hole as int, end as int),
            v@.to_multiset() == old(v)@.to_multiset(),
            v@.take(end as int).to_multiset() == old(v)@.take(end as int).to_multiset(),
            forall|i: int| end <= i < v@.len() ==> #[trigger] v@[i] == old(v)@[i],
        ensures
            is_heap(v@, end as int),
        decreases end - hole,
    {
        if hole >= end - 1 - hole {
            proof {
                assert forall|i: int| 0 < i < end implies hit::at_least(
                    #[trigger] v@[i],
                    v@[parent(i)],
                ) by {
                    assert(parent(i) != hole);
                }
            }
            break;
        }
        let left: usize = 2 * hole + 1;
        let mut worst: usize = left;
        if left + 1 < end && v[left].is_better(&v[left + 1]) {
            worst = left + 1;
        }
        proof {
            lemma_worst_child(v@, hole as int, worst as int, end as int);
        }
        if !v[hole].is_better(&v[worst]) {
            proof {
                lemma_sink_done(v@, hole as int, worst as int, end as int);
            }
            break;
        }
        let ghost before = v@;
        swap(v, hole, worst);
        proof {
            lemma_swap_within(before, hole as int, worst as int, end as int);
            lemma_sink_step(before, v@, hole as int, worst as int, end as int);
        }
        hole = worst;
    }
}

/// Adds a hit to the heap.
pub fn push(v: &mut Vec<Hit>, hit: Hit)
    requires
        is_heap(old(v)@, old(v)@.len() as int),
    ensures
        is_heap(final(v)@, final(v)@.len() as int),
        final(v)@.len() == old(v)@.len() + 1,
        final(v)@.to_multiset() == old(v)@.to_multiset().insert(hit),
{
    let ghost before = v@;
    v.push(hit);
    proof {
        to_multiset_build(before, hit);
        let hole = before.len() as int;
        assert forall|i: int| 0 < i < v@.len() && i != hole implies hit::at_least(
            #[trigger] v@[i],
            v@[parent(i)],
        ) by {
            assert(hit::at_least(before[i], before[parent(i)]));
        }
    }
    let last: usize = v.len() - 1;
    sift_up(v, last);
}

/// Puts a hit in the place of the worst one.
pub fn replace_worst(v: &mut Vec<Hit>, hit: Hit)
    requires
        0 < old(v)@.len(),
        is_heap(old(v)@, old(v)@.len() as int),
    ensures
        is_heap(final(v)@, final(v)@.len() as int),
        final(v)@.len() == old(v)@.len(),
        final(v)@.to_multiset() == old(v)@.to_multiset().insert(hit).remove(old(v)@[0]),
{
    let ghost before = v@;
    v[0] = hit;
    proof {
        to_multiset_update(before, 0, hit);
        assert forall|i: int| 0 < i < v@.len() && parent(i) != 0 implies hit::at_least(
            #[trigger] v@[i],
            v@[parent(i)],
        ) by {
            assert(hit::at_least(before[i], before[parent(i)]));
        }
    }
    let end: usize = v.len();
    sift_down(v, end);
}

/// Sorts the heap best-first.
pub fn sort(v: &mut Vec<Hit>)
    requires
        is_heap(old(v)@, old(v)@.len() as int),
    ensures
        final(v)@.to_multiset() == old(v)@.to_multiset(),
        sorted_best_first(final(v)@),
{
    let n: usize = v.len();
    if n == 0 {
        return;
    }
    let mut end: usize = n;
    while end > 1
        invariant
            1 <= end <= n,
            n == v@.len(),
            v@.to_multiset() == old(v)@.to_multiset(),
            is_heap(v@, end as int),
            forall|i: int, j: int|
                #![trigger v@[i], v@[j]]
                0 <= i < j < n && end <= j ==> hit::at_least(v@[i], v@[j]),
        decreases end,
    {
        let last: usize = end - 1;
        let ghost before = v@;
        swap(v, 0, last);
        let ghost mid = v@;
        proof {
            assert forall|i: int| 0 <= i < n implies hit::at_least(
                #[trigger] before[i],
                before[0],
            ) || end <= i by {
                if i < end {
                    lemma_root_is_worst(before, end as int, i);
                }
            }
            assert forall|i: int, j: int|
                #![trigger mid[i], mid[j]]
                0 <= i < j < n && last <= j implies hit::at_least(mid[i], mid[j]) by {
                if j == last {
                    if i == 0 {
                        lemma_root_is_worst(before, end as int, last as int);
                    } else {
                        lemma_root_is_worst(before, end as int, i);
                    }
                } else {
                    let src = if i == 0 {
                        last as int
                    } else if i == last {
                        0int
                    } else {
                        i
                    };
                    assert(hit::at_least(before[src], before[j]));
                }
            }
            assert forall|i: int| 0 < i < last && parent(i) != 0 implies hit::at_least(
                #[trigger] mid[i],
                mid[parent(i)],
            ) by {
                assert(hit::at_least(before[i], before[parent(i)]));
            }
        }
        sift_down(v, last);
        proof {
            mid.take(last as int).to_multiset_ensures();
            v@.take(last as int).to_multiset_ensures();
            assert forall|i: int, j: int|
                #![trigger v@[i], v@[j]]
                0 <= i < j < n && last <= j implies hit::at_least(v@[i], v@[j]) by {
                assert(v@[j] == mid[j]);
                if i < last {
                    assert(v@.take(last as int)[i] == v@[i]);
                    assert(v@.take(last as int).to_multiset().contains(v@[i]));
                    assert(mid.take(last as int).contains(v@[i]));
                    let m = choose|m: int| 0 <= m < last && mid.take(last as int)[m] == v@[i];
                    assert(hit::at_least(mid[m], mid[j]));
                } else {
                    assert(v@[i] == mid[i]);
                }
            }
        }
        end = last;
    }
}

/// No hit stands before a better one.
pub open spec fn sorted_best_first(v: Seq<Hit>) -> bool {
    forall|i: int, j: int|
        #![trigger v[i], v[j]]
        0 <= i < j < v.len() ==> hit::at_least(v[i], v[j])
}

} // verus!
