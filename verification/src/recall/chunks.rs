//! Contiguous shares of work for worker threads.

use vstd::prelude::*;

verus! {

/// Size of a share: the work divided by the workers, rounded up, and 1 at
/// least.
pub open spec fn share(total: nat, threads: nat) -> nat {
    let workers = if threads == 0 {
        1
    } else {
        threads
    };
    let size = (total + workers - 1) as nat / workers;
    if size == 0 {
        1
    } else {
        size
    }
}

/// The shares are the consecutive ranges of the given size, the last one cut
/// at the total.
pub open spec fn shares(ranges: Seq<(usize, usize)>, total: nat, size: nat) -> bool {
    &&& forall|i: int|
        0 <= i < ranges.len() ==> (#[trigger] ranges[i]).0 == i * size && ranges[i].0 < ranges[i].1
            && ranges[i].1 == (if (i + 1) * size < total {
            (i + 1) * size
        } else {
            total as int
        })
    &&& total <= ranges.len() * size
}

/// Size of a share.
pub fn share_size(total: usize, threads: usize) -> (r: usize)
    ensures
        r == share(total as nat, threads as nat),
        r > 0,
{
    let workers: usize = if threads == 0 {
        1
    } else {
        threads
    };
    let (q, rem): (usize, usize) = (total / workers, total % workers);
    proof {
        let (t, w) = (total as int, workers as int);
        vstd::arithmetic::div_mod::lemma_fundamental_div_mod(t, w);
        assert(w * (t / w) == (t / w) * w && (t / w + 1) * w == (t / w) * w + w)
            by (nonlinear_arith);
        if rem == 0 {
            vstd::arithmetic::div_mod::lemma_fundamental_div_mod_converse(
                t + w - 1,
                w,
                t / w,
                w - 1,
            );
        } else {
            let quotient = t / w;
            assert(quotient < t) by (nonlinear_arith)
                requires
                    quotient * w < t,
                    0 <= quotient,
                    w >= 1,
            ;
            vstd::arithmetic::div_mod::lemma_fundamental_div_mod_converse(
                t + w - 1,
                w,
                t / w + 1,
                t % w - 1,
            );
        }
    }
    let size: usize = if rem == 0 {
        q
    } else {
        q + 1
    };
    if size == 0 {
        1
    } else {
        size
    }
}

/// The shares of the work, one per thread that gets any: half-open ranges that
/// cover `0..total` without gap or overlap.
pub fn chunk_ranges(total: usize, threads: usize) -> (r: Vec<(usize, usize)>)
    ensures
        shares(r@, total as nat, share(total as nat, threads as nat)),
{
    let size: usize = share_size(total, threads);
    let mut out: Vec<(usize, usize)> = Vec::new();
    let mut start: usize = 0;
    assert(0 * size == 0) by (nonlinear_arith);
    while start < total
        invariant
            size > 0,
            start == (if out@.len() * size < total {
                out@.len() * size
            } else {
                total as int
            }),
            forall|i: int|
                0 <= i < out@.len() ==> (#[trigger] out@[i]).0 == i * size && out@[i].0 < out@[i].1
                    && out@[i].1 == (if (i + 1) * size < total {
                    (i + 1) * size
                } else {
                    total as int
                }),
        decreases total - start,
    {
        let end: usize = if total - start > size {
            start + size
        } else {
            total
        };
        proof {
            let n = out@.len() as int;
            let s = size as int;
            assert((n + 1) * s == n * s + s) by (nonlinear_arith);
        }
        out.push((start, end));
        start = end;
    }
    out
}

/// Every item of the work lies in one share, and in no other.
pub proof fn law_shares_partition(ranges: Seq<(usize, usize)>, total: nat, size: nat, item: int)
    requires
        size > 0,
        shares(ranges, total, size),
        0 <= item < total,
    ensures
        0 <= item / (size as int) < ranges.len(),
        ranges[item / (size as int)].0 <= item < ranges[item / (size as int)].1,
        forall|i: int|
            0 <= i < ranges.len() && (#[trigger] ranges[i]).0 <= item < ranges[i].1 ==> i == item / (
            size as int),
{
    let s = size as int;
    let q = item / s;
    vstd::arithmetic::div_mod::lemma_fundamental_div_mod(item, s);
    assert(s * q == q * s && (q + 1) * s == q * s + s) by (nonlinear_arith);
    assert(0 <= q) by (nonlinear_arith)
        requires
            0 <= item,
            s > 0,
            q == item / s,
    ;
    let n = ranges.len() as int;
    assert(q < n) by (nonlinear_arith)
        requires
            q * s <= item,
            item < n * s,
            s > 0,
    ;
    assert(ranges[q].0 == q * s);
    assert forall|i: int|
        0 <= i < ranges.len() && (#[trigger] ranges[i]).0 <= item < ranges[i].1 implies i == q by {
        assert(i * s <= item < (i + 1) * s);
        assert(i == q) by (nonlinear_arith)
            requires
                i * s <= item < (i + 1) * s,
                q * s <= item < (q + 1) * s,
                s > 0,
        ;
    }
}

} // verus!
