//! A seed stands for one corpus: given arithmetic with one result for its
//! operands, the rows of a stream are the same whenever and in whatever pieces
//! they are drawn.

use vstd::prelude::*;
use crate::ieee;
use crate::recall::cli::Dist;
use crate::recall::synth::{self, Cluster, Shaping, Source};
use crate::rng;

verus! {

/// The shaping functions give one result for their operands (rows count by
/// their elements) and normalizing keeps the length.
pub open spec fn settled<G, N, L, S, X>(ops: Shaping<G, N, L, S, X>) -> bool where
    G: Fn(u64, u64) -> (u64, u64),
    N: Fn(u64) -> u32,
    L: Fn(Vec<u32>) -> Vec<u32>,
    S: Fn(u32, usize) -> u32,
    X: Fn(u32, u32, u32) -> u32,
 {
    &&& forall|a: u64, b: u64, x: (u64, u64), y: (u64, u64)| #[trigger]
        call_ensures(ops.box_muller, (a, b), x) && #[trigger] call_ensures(
            ops.box_muller,
            (a, b),
            y,
        ) ==> x == y
    &&& forall|a: u64, x: u32, y: u32| #[trigger]
        call_ensures(ops.narrow, (a,), x) && #[trigger] call_ensures(ops.narrow, (a,), y) ==> x == y
    &&& forall|v: Vec<u32>, w: Vec<u32>, x: Vec<u32>, y: Vec<u32>|
        v@ == w@ && #[trigger] call_ensures(ops.normalize, (v,), x) && #[trigger] call_ensures(
            ops.normalize,
            (w,),
            y,
        ) ==> x@ == y@
    &&& forall|v: Vec<u32>, x: Vec<u32>| #[trigger]
        call_ensures(ops.normalize, (v,), x) ==> x@.len() == v@.len()
    &&& forall|u: u32, dim: usize, x: u32, y: u32| #[trigger]
        call_ensures(ops.spread, (u, dim), x) && #[trigger] call_ensures(ops.spread, (u, dim), y)
            ==> x == y
    &&& forall|m: u32, d: u32, v: u32, x: u32, y: u32| #[trigger]
        call_ensures(ops.blend, (m, d, v), x) && #[trigger] call_ensures(ops.blend, (m, d, v), y)
            ==> x == y
}

/// Two components are the same.
pub open spec fn same_cluster(a: Cluster, b: Cluster) -> bool {
    a.mean@ == b.mean@ && a.sigma == b.sigma
}

/// Two mixtures have the same components.
pub open spec fn same_mixture(a: Seq<Cluster>, b: Seq<Cluster>) -> bool {
    &&& a.len() == b.len()
    &&& forall|c: int| 0 <= c < a.len() ==> same_cluster(#[trigger] a[c], b[c])
}

proof fn lemma_drew<G, N, L, S, X>(
    ops: Shaping<G, N, L, S, X>,
    before: Source,
    g: u64,
    after: Source,
    h: u64,
    later: Source,
) where
    G: Fn(u64, u64) -> (u64, u64),
    N: Fn(u64) -> u32,
    L: Fn(Vec<u32>) -> Vec<u32>,
    S: Fn(u32, usize) -> u32,
    X: Fn(u32, u32, u32) -> u32,

    requires
        settled(ops),
        synth::drew(ops.box_muller, before, g, after),
        synth::drew(ops.box_muller, before, h, later),
    ensures
        g == h,
        after == later,
{
    if before.1 is None {
        let state = before.0;
        let turned = (0x20_0000_0000_0000 - rng::high_bits(rng::drawn(state, 0))) as nat;
        let plain = rng::high_bits(rng::drawn(state, 1));
        let (a, b) = choose|a: u64, b: u64|
            {
                &&& ieee::is_53bit_fraction(a, turned)
                &&& ieee::is_53bit_fraction(b, plain)
                &&& #[trigger] call_ensures(ops.box_muller, (a, b), (g, after.1->0))
            };
        let (c, d) = choose|c: u64, d: u64|
            {
                &&& ieee::is_53bit_fraction(c, turned)
                &&& ieee::is_53bit_fraction(d, plain)
                &&& #[trigger] call_ensures(ops.box_muller, (c, d), (h, later.1->0))
            };
        ieee::lemma_fraction_unique(a, c, turned);
        ieee::lemma_fraction_unique(b, d, plain);
        let (x, y) = ((g, after.1->0), (h, later.1->0));
        assert(x == y);
    }
}

proof fn lemma_filled<G, N, L, S, X>(
    ops: Shaping<G, N, L, S, X>,
    before: Source,
    row: Seq<u32>,
    after: Source,
    other: Seq<u32>,
    later: Source,
) where
    G: Fn(u64, u64) -> (u64, u64),
    N: Fn(u64) -> u32,
    L: Fn(Vec<u32>) -> Vec<u32>,
    S: Fn(u32, usize) -> u32,
    X: Fn(u32, u32, u32) -> u32,

    requires
        settled(ops),
        row.len() == other.len(),
        synth::filled(ops.box_muller, ops.narrow, before, row, after),
        synth::filled(ops.box_muller, ops.narrow, before, other, later),
    ensures
        row == other,
        after == later,
    decreases row.len(),
{
    if row.len() > 0 {
        let (m, g) = choose|m: Source, g: u64|
            {
                &&& synth::filled(ops.box_muller, ops.narrow, before, row.drop_last(), m)
                &&& #[trigger] synth::drew(ops.box_muller, m, g, after)
                &&& call_ensures(ops.narrow, (g,), row.last())
            };
        let (n, h) = choose|n: Source, h: u64|
            {
                &&& synth::filled(ops.box_muller, ops.narrow, before, other.drop_last(), n)
                &&& #[trigger] synth::drew(ops.box_muller, n, h, later)
                &&& call_ensures(ops.narrow, (h,), other.last())
            };
        lemma_filled(ops, before, row.drop_last(), m, other.drop_last(), n);
        lemma_drew(ops, m, g, after, h, later);
        assert(row.last() == other.last());
        assert(row =~= row.drop_last().push(row.last()));
        assert(other =~= other.drop_last().push(other.last()));
    } else {
        assert(row =~= other);
    }
}

/// A component of a mixture is determined by the seed and its number.
pub proof fn law_cluster_is_determined<G, N, L, S, X>(
    ops: Shaping<G, N, L, S, X>,
    seed: u64,
    c: int,
    dim: usize,
    a: Cluster,
    b: Cluster,
) where
    G: Fn(u64, u64) -> (u64, u64),
    N: Fn(u64) -> u32,
    L: Fn(Vec<u32>) -> Vec<u32>,
    S: Fn(u32, usize) -> u32,
    X: Fn(u32, u32, u32) -> u32,

    requires
        settled(ops),
        synth::is_cluster(ops, seed, c, dim, a),
        synth::is_cluster(ops, seed, c, dim, b),
    ensures
        same_cluster(a, b),
{
    let source = synth::stream_source(seed, (synth::CLUSTER_STREAM + c) as u64);
    let (v, s, t) = choose|raw: Vec<u32>, after: Source, u: u32|
        {
            &&& raw@.len() == dim
            &&& #[trigger] synth::filled(ops.box_muller, ops.narrow, source, raw@, after)
            &&& call_ensures(ops.normalize, (raw,), a.mean)
            &&& rng::uniform_32(rng::high_bits(rng::scrambled(rng::next_state(after.0))), u)
            &&& #[trigger] call_ensures(ops.spread, (u, dim), a.sigma)
        };
    let (w, p, q) = choose|raw: Vec<u32>, after: Source, u: u32|
        {
            &&& raw@.len() == dim
            &&& #[trigger] synth::filled(ops.box_muller, ops.narrow, source, raw@, after)
            &&& call_ensures(ops.normalize, (raw,), b.mean)
            &&& rng::uniform_32(rng::high_bits(rng::scrambled(rng::next_state(after.0))), u)
            &&& #[trigger] call_ensures(ops.spread, (u, dim), b.sigma)
        };
    lemma_filled(ops, source, v@, s, w@, p);
    rng::law_uniform_32_is_determined(
        rng::high_bits(rng::scrambled(rng::next_state(s.0))),
        t,
        q,
    );
}

proof fn lemma_row<G, N, L, S, X>(
    ops: Shaping<G, N, L, S, X>,
    dist: Dist,
    mixture: Seq<Cluster>,
    again: Seq<Cluster>,
    seed: u64,
    stream: u64,
    i: int,
    row: Seq<u32>,
    other: Seq<u32>,
) where
    G: Fn(u64, u64) -> (u64, u64),
    N: Fn(u64) -> u32,
    L: Fn(Vec<u32>) -> Vec<u32>,
    S: Fn(u32, usize) -> u32,
    X: Fn(u32, u32, u32) -> u32,

    requires
        settled(ops),
        same_mixture(mixture, again),
        dist == Dist::Gmm ==> mixture.len() > 0,
        row.len() == other.len(),
        synth::is_row(ops, dist, mixture, seed, stream, i, row),
        synth::is_row(ops, dist, again, seed, stream, i, other),
    ensures
        row == other,
{
    let source = synth::stream_source(seed, (stream + i) as u64);
    match dist {
        Dist::Uniform => {
            let (v, s, x) = choose|raw: Vec<u32>, after: Source, out: Vec<u32>|
                {
                    &&& #[trigger] synth::filled(ops.box_muller, ops.narrow, source, raw@, after)
                    &&& #[trigger] call_ensures(ops.normalize, (raw,), out)
                    &&& out@ == row
                };
            let (w, t, y) = choose|raw: Vec<u32>, after: Source, out: Vec<u32>|
                {
                    &&& #[trigger] synth::filled(ops.box_muller, ops.narrow, source, raw@, after)
                    &&& #[trigger] call_ensures(ops.normalize, (raw,), out)
                    &&& out@ == other
                };
            lemma_filled(ops, source, v@, s, w@, t);
        },
        Dist::Gmm => {
            let first = rng::next_state(source.0);
            let start: Source = (first, None::<u64>);
            let number = rng::scrambled(first);
            let count = mixture.len();
            let pick = (number * count) / 0x1_0000_0000_0000_0000;
            assert(0 <= pick < count) by (nonlinear_arith)
                requires
                    pick == (number * count) / 0x1_0000_0000_0000_0000,
                    0 <= number < 0x1_0000_0000_0000_0000,
                    count > 0,
            ;
            let (v, s, m, x) = choose|raw: Seq<u32>, after: Source, mixed: Vec<u32>, out: Vec<u32>|
                {
                    &&& #[trigger] synth::filled(ops.box_muller, ops.narrow, start, raw, after)
                    &&& synth::blended(ops.blend, mixture[pick], raw, mixed@)
                    &&& #[trigger] call_ensures(ops.normalize, (mixed,), out)
                    &&& out@ == row
                };
            let (w, t, n, y) = choose|raw: Seq<u32>, after: Source, mixed: Vec<u32>, out: Vec<u32>|
                {
                    &&& #[trigger] synth::filled(ops.box_muller, ops.narrow, start, raw, after)
                    &&& synth::blended(ops.blend, again[pick], raw, mixed@)
                    &&& #[trigger] call_ensures(ops.normalize, (mixed,), out)
                    &&& out@ == other
                };
            lemma_filled(ops, start, v, s, w, t);
            assert(same_cluster(mixture[pick], again[pick]));
            assert forall|j: int| 0 <= j < m@.len() implies m@[j] == n@[j] by {
                assert(call_ensures(
                    ops.blend,
                    (mixture[pick].mean@[j], mixture[pick].sigma, v[j]),
                    m@[j],
                ));
                assert(call_ensures(
                    ops.blend,
                    (again[pick].mean@[j], again[pick].sigma, w[j]),
                    n@[j],
                ));
            }
            assert(m@ =~= n@);
        },
    }
}

/// The rows of a stream are determined by the seed and the settings.
pub proof fn law_rows_are_determined<G, N, L, S, X>(
    ops: Shaping<G, N, L, S, X>,
    dist: Dist,
    mixture: Seq<Cluster>,
    again: Seq<Cluster>,
    dim: nat,
    seed: u64,
    stream: u64,
    lo: int,
    hi: int,
    flat: Seq<u32>,
    other: Seq<u32>,
) where
    G: Fn(u64, u64) -> (u64, u64),
    N: Fn(u64) -> u32,
    L: Fn(Vec<u32>) -> Vec<u32>,
    S: Fn(u32, usize) -> u32,
    X: Fn(u32, u32, u32) -> u32,

    requires
        settled(ops),
        same_mixture(mixture, again),
        dist == Dist::Gmm ==> mixture.len() > 0,
        lo <= hi,
        synth::rows_between(ops, dist, mixture, dim, seed, stream, lo, hi, flat),
        synth::rows_between(ops, dist, again, dim, seed, stream, lo, hi, other),
    ensures
        flat == other,
{
    let d = dim as int;
    assert forall|p: int| 0 <= p < flat.len() implies flat[p] == other[p] by {
        let (i, j) = (p / d, p % d);
        assert(d > 0) by (nonlinear_arith)
            requires
                0 <= p < (hi - lo) * d,
                lo <= hi,
                d >= 0,
        ;
        assert(p == i * d + j && 0 <= j < d && 0 <= i < hi - lo && (i + 1) * d == i * d + d && 0
            <= i * d && (i + 1) * d <= (hi - lo) * d) by (nonlinear_arith)
            requires
                0 <= p < (hi - lo) * d,
                d > 0,
                i == p / d,
                j == p % d,
        ;
        let row = flat.subrange(i * dim, (i + 1) * dim);
        let twin = other.subrange(i * dim, (i + 1) * dim);
        lemma_row(ops, dist, mixture, again, seed, stream, lo + i, row, twin);
        assert(row[j] == twin[j]);
    }
    assert(flat =~= other);
}

} // verus!
