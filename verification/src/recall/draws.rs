//! Which numbers a synthetic row is made of, element by element.

use vstd::prelude::*;
use crate::ieee;
use crate::recall::cli::Dist;
use crate::recall::synth::{self, Cluster, Shaping, Source};
use crate::rng::{self, SplitMix64};

verus! {

/// What the shaping functions compute, as functions.
pub struct Means {
    pub pair: spec_fn(u64, u64) -> (u64, u64),
    pub narrow: spec_fn(u64) -> u32,
    pub normalize: spec_fn(Seq<u32>) -> Seq<u32>,
    pub spread: spec_fn(u32, usize) -> u32,
    pub blend: spec_fn(u32, u32, u32) -> u32,
    /// The pattern of `n / 2^53`.
    pub fraction: spec_fn(nat) -> u64,
    /// The same in single precision, below one.
    pub uniform: spec_fn(nat) -> u32,
}

/// The shaping computes those functions.
pub open spec fn computes<G, N, L, S, X>(ops: Shaping<G, N, L, S, X>, means: Means) -> bool where
    G: Fn(u64, u64) -> (u64, u64),
    N: Fn(u64) -> u32,
    L: Fn(Vec<u32>) -> Vec<u32>,
    S: Fn(u32, usize) -> u32,
    X: Fn(u32, u32, u32) -> u32,
 {
    &&& forall|a: u64, b: u64, r: (u64, u64)| #[trigger]
        call_ensures(ops.box_muller, (a, b), r) ==> r == (means.pair)(a, b)
    &&& forall|a: u64, r: u32| #[trigger]
        call_ensures(ops.narrow, (a,), r) ==> r == (means.narrow)(a)
    &&& forall|v: Vec<u32>, r: Vec<u32>| #[trigger]
        call_ensures(ops.normalize, (v,), r) ==> r@ == (means.normalize)(v@)
    &&& forall|u: u32, d: usize, r: u32| #[trigger]
        call_ensures(ops.spread, (u, d), r) ==> r == (means.spread)(u, d)
    &&& forall|m: u32, d: u32, x: u32, r: u32| #[trigger]
        call_ensures(ops.blend, (m, d, x), r) ==> r == (means.blend)(m, d, x)
    &&& forall|n: nat|
        n <= 0x20_0000_0000_0000 ==> ieee::is_53bit_fraction(#[trigger] (means.fraction)(n), n)
    &&& forall|n: nat|
        n < 0x20_0000_0000_0000 ==> rng::uniform_32(n, #[trigger] (means.uniform)(n))
}

/// Gaussian `j` of a stream: two of them are made of every two numbers, the
/// first number turned round to lie in (0, 1].
pub open spec fn gaussian(means: Means, state: u64, j: int) -> u64 {
    let m = 2 * (j / 2);
    let two = (means.pair)(
        (means.fraction)((0x20_0000_0000_0000 - rng::drawn(state, m as nat) / 2048) as nat),
        (means.fraction)((rng::drawn(state, (m + 1) as nat) / 2048) as nat),
    );
    if j % 2 == 0 {
        two.0
    } else {
        two.1
    }
}

/// The first gaussians of a stream, in single precision.
pub open spec fn gaussians(means: Means, state: u64, dim: usize) -> Seq<u32> {
    Seq::new(dim as nat, |j: int| (means.narrow)(gaussian(means, state, j)))
}

proof fn lemma_state_adds(state: u64, a: nat, b: nat)
    ensures
        rng::state_after(rng::state_after(state, a), b) == rng::state_after(state, a + b),
    decreases b,
{
    if b > 0 {
        lemma_state_adds(state, a, (b - 1) as nat);
    }
}

proof fn lemma_drawn_adds(state: u64, a: nat, n: nat)
    ensures
        rng::drawn(rng::state_after(state, a), n) == rng::drawn(state, a + n),
{
    lemma_state_adds(state, a, n + 1);
}

/// Where a stream stands after some gaussians.
spec fn stand(means: Means, state: u64, n: nat) -> Source {
    if n % 2 == 0 {
        (rng::state_after(state, n), None)
    } else {
        (rng::state_after(state, n + 1), Some(gaussian(means, state, n as int)))
    }
}

proof fn lemma_filled<G, N, L, S, X>(
    ops: Shaping<G, N, L, S, X>,
    means: Means,
    state: u64,
    row: Seq<u32>,
    after: Source,
) where
    G: Fn(u64, u64) -> (u64, u64),
    N: Fn(u64) -> u32,
    L: Fn(Vec<u32>) -> Vec<u32>,
    S: Fn(u32, usize) -> u32,
    X: Fn(u32, u32, u32) -> u32,

    requires
        computes(ops, means),
        synth::filled(ops.box_muller, ops.narrow, (state, None::<u64>), row, after),
    ensures
        after == stand(means, state, row.len()),
        forall|j: int|
            0 <= j < row.len() ==> #[trigger] row[j] == (means.narrow)(gaussian(means, state, j)),
    decreases row.len(),
{
    if row.len() > 0 {
        let n = (row.len() - 1) as nat;
        let (mid, g) = choose|mid: Source, g: u64|
            {
                &&& synth::filled(
                    ops.box_muller,
                    ops.narrow,
                    (state, None::<u64>),
                    row.drop_last(),
                    mid,
                )
                &&& #[trigger] synth::drew(ops.box_muller, mid, g, after)
                &&& call_ensures(ops.narrow, (g,), row.last())
            };
        lemma_filled(ops, means, state, row.drop_last(), mid);
        assert(mid == stand(means, state, n));
        if n % 2 == 0 {
            let here = rng::state_after(state, n);
            lemma_state_adds(state, n, 2);
            lemma_drawn_adds(state, n, 0);
            lemma_drawn_adds(state, n, 1);
            let (u1, u2) = choose|u1: u64, u2: u64|
                {
                    &&& ieee::is_53bit_fraction(
                        u1,
                        (0x20_0000_0000_0000 - rng::high_bits(rng::drawn(here, 0))) as nat,
                    )
                    &&& ieee::is_53bit_fraction(u2, rng::high_bits(rng::drawn(here, 1)))
                    &&& #[trigger] call_ensures(ops.box_muller, (u1, u2), (g, after.1->0))
                };
            let (a, b) = (
                (0x20_0000_0000_0000 - rng::drawn(state, n) / 2048) as nat,
                (rng::drawn(state, n + 1) / 2048) as nat,
            );
            ieee::lemma_fraction_unique(u1, (means.fraction)(a), a);
            ieee::lemma_fraction_unique(u2, (means.fraction)(b), b);
            assert(2 * (n as int / 2) == n);
            assert(2 * ((n + 1) as int / 2) == n);
            assert(g == gaussian(means, state, n as int));
            assert(after.1->0 == gaussian(means, state, n as int + 1));
        } else {
            assert(g == gaussian(means, state, n as int));
        }
        assert forall|j: int| 0 <= j < row.len() implies #[trigger] row[j] == (means.narrow)(
            gaussian(means, state, j),
        ) by {
            if j < n {
                assert(row.drop_last()[j] == row[j]);
            }
        }
    }
}

/// Row `i` of flat rows.
pub open spec fn row(flat: Seq<u32>, dim: usize, i: int) -> Seq<u32> {
    flat.subrange(i * dim, (i + 1) * dim)
}

/// The mean of a cluster: the first gaussians of its stream, normalized.
pub open spec fn mean(means: Means, state: u64, dim: usize) -> Seq<u32> {
    (means.normalize)(gaussians(means, state, dim))
}

/// The deviation of a cluster: of the number that follows those of its mean,
/// which come in pairs.
pub open spec fn deviation(means: Means, state: u64, dim: usize) -> u32 {
    let used = 2 * ((dim + 1) / 2);
    (means.spread)((means.uniform)((rng::drawn(state, used as nat) / 2048) as nat), dim)
}

/// A cluster is drawn from the stream of its own index.
pub proof fn law_cluster_is_drawn_from_its_stream<G, N, L, S, X>(
    seed: u64,
    count: usize,
    dim: usize,
    ops: &Shaping<G, N, L, S, X>,
    means: Means,
    c: usize,
    stream: SplitMix64,
    r: Vec<Cluster>,
) where
    G: Fn(u64, u64) -> (u64, u64),
    N: Fn(u64) -> u32,
    L: Fn(Vec<u32>) -> Vec<u32>,
    S: Fn(u32, usize) -> u32,
    X: Fn(u32, u32, u32) -> u32,

    requires
        computes(*ops, means),
        synth::CLUSTER_STREAM + count <= u64::MAX,
        call_ensures(synth::clusters::<G, N, L, S, X>, (seed, count, dim, ops), r),
        c < count,
        call_ensures(SplitMix64::substream, (seed, (0x200_0000_0000 + c) as u64), stream),
    ensures
        r@.len() == count,
        r@[c as int].mean@ == mean(means, stream.state(), dim),
        r@[c as int].sigma == deviation(means, stream.state(), dim),
{
    assert(synth::is_cluster(*ops, seed, c as int, dim, r@[c as int]));
    lemma_cluster(*ops, means, seed, c as int, dim, stream.state(), r@[c as int]);
}

proof fn lemma_cluster<G, N, L, S, X>(
    ops: Shaping<G, N, L, S, X>,
    means: Means,
    seed: u64,
    c: int,
    dim: usize,
    state: u64,
    cluster: Cluster,
) where
    G: Fn(u64, u64) -> (u64, u64),
    N: Fn(u64) -> u32,
    L: Fn(Vec<u32>) -> Vec<u32>,
    S: Fn(u32, usize) -> u32,
    X: Fn(u32, u32, u32) -> u32,

    requires
        computes(ops, means),
        state == rng::derived_seed(seed, (synth::CLUSTER_STREAM + c) as u64),
        synth::is_cluster(ops, seed, c, dim, cluster),
    ensures
        cluster.mean@ == mean(means, state, dim),
        cluster.sigma == deviation(means, state, dim),
{
    let source = synth::stream_source(seed, (synth::CLUSTER_STREAM + c) as u64);
    let (raw, after, u) = choose|raw: Vec<u32>, after: Source, u: u32|
        {
            &&& raw@.len() == dim
            &&& #[trigger] synth::filled(ops.box_muller, ops.narrow, source, raw@, after)
            &&& call_ensures(ops.normalize, (raw,), cluster.mean)
            &&& rng::uniform_32(rng::high_bits(rng::scrambled(rng::next_state(after.0))), u)
            &&& #[trigger] call_ensures(ops.spread, (u, dim), cluster.sigma)
        };
    lemma_filled(ops, means, state, raw@, after);
    assert(raw@ =~= gaussians(means, state, dim));
    let used = (2 * ((dim + 1) / 2)) as nat;
    assert(after.0 == rng::state_after(state, used));
    let n = rng::high_bits(rng::drawn(state, used));
    rng::law_uniform_32_is_determined(n, u, (means.uniform)(n));
}

/// Row `i` is drawn from the stream of its own index. Without clusters it is
/// the first gaussians, normalized. With clusters the first number picks one,
/// each with the same share of the numbers; the gaussians that follow deviate
/// from that cluster's mean, element by element, and the whole is normalized.
pub proof fn law_row_is_drawn_from_its_stream<G, N, L, S, X>(
    dist: Dist,
    n: usize,
    dim: usize,
    gmm_clusters: usize,
    seed: u64,
    first: u64,
    ops: &Shaping<G, N, L, S, X>,
    means: Means,
    i: usize,
    stream: SplitMix64,
    c: usize,
    picked: SplitMix64,
    r: Vec<u32>,
) where
    G: Fn(u64, u64) -> (u64, u64),
    N: Fn(u64) -> u32,
    L: Fn(Vec<u32>) -> Vec<u32>,
    S: Fn(u32, usize) -> u32,
    X: Fn(u32, u32, u32) -> u32,

    requires
        synth::usable(*ops),
        computes(*ops, means),
        dim > 0,
        first + n <= u64::MAX,
        synth::CLUSTER_STREAM + gmm_clusters <= u64::MAX,
        dist is Gmm ==> gmm_clusters > 0,
        call_ensures(
            synth::generate::<G, N, L, S, X>,
            (dist, n, dim, gmm_clusters, seed, first, ops),
            r,
        ),
        i < n,
        call_ensures(SplitMix64::substream, (seed, (first + i) as u64), stream),
        dist is Gmm ==> c < gmm_clusters && c * 0x1_0000_0000_0000_0000 <= rng::drawn(
            stream.state(),
            0,
        ) * gmm_clusters < (c + 1) * 0x1_0000_0000_0000_0000,
        call_ensures(SplitMix64::substream, (seed, (0x200_0000_0000 + c) as u64), picked),
    ensures
        r@.len() == n * dim,
        dist is Uniform ==> row(r@, dim, i as int) == (means.normalize)(
            gaussians(means, stream.state(), dim),
        ),
        dist is Gmm ==> {
            let noise = gaussians(means, rng::state_after(stream.state(), 1), dim);
            let centre = mean(means, picked.state(), dim);
            let sigma = deviation(means, picked.state(), dim);
            row(r@, dim, i as int) == (means.normalize)(
                Seq::new(dim as nat, |j: int| (means.blend)(centre[j], sigma, noise[j])),
            )
        },
{
    let mixture = choose|mixture: Seq<Cluster>|
        {
            &&& mixture.len() == (if dist == Dist::Gmm {
                gmm_clusters as nat
            } else {
                0
            })
            &&& forall|c: int|
                0 <= c < mixture.len() ==> synth::is_cluster(
                    *ops,
                    seed,
                    c,
                    dim,
                    #[trigger] mixture[c],
                )
            &&& #[trigger] synth::rows_between(
                *ops,
                dist,
                mixture,
                dim as nat,
                seed,
                first,
                0,
                n as int,
                r@,
            )
        };
    let here = row(r@, dim, i as int);
    assert(0 + i as int == i as int);
    assert(synth::is_row(
        *ops,
        dist,
        mixture,
        seed,
        first,
        0 + i as int,
        r@.subrange(i as int * dim as nat, (i as int + 1) * dim as nat),
    ));
    assert(synth::is_row(*ops, dist, mixture, seed, first, i as int, here));
    assert(here.len() == dim) by {
        assert(0 <= i * dim && (i + 1) * dim == i * dim + dim && (i + 1) * dim <= n * dim)
            by (nonlinear_arith)
            requires
                0 <= i < n,
                dim > 0,
        ;
    }
    if dist is Gmm {
        lemma_mixed(
            *ops,
            means,
            mixture,
            dim,
            seed,
            (first + i) as u64,
            stream.state(),
            c,
            picked.state(),
            here,
        );
    } else {
        lemma_plain(*ops, means, mixture, dim, seed, first, i as int, stream.state(), here);
    }
}

proof fn lemma_plain<G, N, L, S, X>(
    ops: Shaping<G, N, L, S, X>,
    means: Means,
    mixture: Seq<Cluster>,
    dim: usize,
    seed: u64,
    first: u64,
    i: int,
    state: u64,
    here: Seq<u32>,
) where
    G: Fn(u64, u64) -> (u64, u64),
    N: Fn(u64) -> u32,
    L: Fn(Vec<u32>) -> Vec<u32>,
    S: Fn(u32, usize) -> u32,
    X: Fn(u32, u32, u32) -> u32,

    requires
        synth::usable(ops),
        computes(ops, means),
        state == rng::derived_seed(seed, (first + i) as u64),
        synth::is_row(ops, Dist::Uniform, mixture, seed, first, i, here),
        here.len() == dim,
    ensures
        here == (means.normalize)(gaussians(means, state, dim)),
{
    let source = synth::stream_source(seed, (first + i) as u64);
    let (raw, after, out) = choose|raw: Vec<u32>, after: Source, out: Vec<u32>|
        {
            &&& #[trigger] synth::filled(ops.box_muller, ops.narrow, source, raw@, after)
            &&& #[trigger] call_ensures(ops.normalize, (raw,), out)
            &&& out@ == here
        };
    lemma_filled(ops, means, state, raw@, after);
    assert(raw@.len() == dim);
    assert(raw@ =~= gaussians(means, state, dim));
}

proof fn lemma_mixed<G, N, L, S, X>(
    ops: Shaping<G, N, L, S, X>,
    means: Means,
    mixture: Seq<Cluster>,
    dim: usize,
    seed: u64,
    index: u64,
    state: u64,
    c: usize,
    picked: u64,
    here: Seq<u32>,
) where
    G: Fn(u64, u64) -> (u64, u64),
    N: Fn(u64) -> u32,
    L: Fn(Vec<u32>) -> Vec<u32>,
    S: Fn(u32, usize) -> u32,
    X: Fn(u32, u32, u32) -> u32,

    requires
        synth::usable(ops),
        computes(ops, means),
        state == rng::derived_seed(seed, index),
        picked == rng::derived_seed(seed, (synth::CLUSTER_STREAM + c) as u64),
        c < mixture.len(),
        c * 0x1_0000_0000_0000_0000 <= rng::drawn(state, 0) * mixture.len() < (c + 1)
            * 0x1_0000_0000_0000_0000,
        synth::is_cluster(ops, seed, c as int, dim, mixture[c as int]),
        synth::is_row(ops, Dist::Gmm, mixture, seed, index, 0, here),
        here.len() == dim,
    ensures
        ({
            let noise = gaussians(means, rng::state_after(state, 1), dim);
            let centre = mean(means, picked, dim);
            let sigma = deviation(means, picked, dim);
            here == (means.normalize)(
                Seq::new(dim as nat, |j: int| (means.blend)(centre[j], sigma, noise[j])),
            )
        }),
{
    reveal_with_fuel(rng::state_after, 2);
    let source = synth::stream_source(seed, (index + 0) as u64);
    let next = rng::next_state(source.0);
    assert(next == rng::state_after(state, 1));
    let pick = (rng::scrambled(next) * mixture.len()) / 0x1_0000_0000_0000_0000;
    assert(pick == c);
    let (raw, after, mixed, out) = choose|
        raw: Seq<u32>,
        after: Source,
        mixed: Vec<u32>,
        out: Vec<u32>,
    |
        {
            &&& #[trigger] synth::filled(ops.box_muller, ops.narrow, (next, None::<u64>), raw, after)
            &&& synth::blended(ops.blend, mixture[pick], raw, mixed@)
            &&& #[trigger] call_ensures(ops.normalize, (mixed,), out)
            &&& out@ == here
        };
    lemma_filled(ops, means, next, raw, after);
    lemma_cluster(ops, means, seed, c as int, dim, picked, mixture[c as int]);
    let noise = gaussians(means, next, dim);
    let centre = mean(means, picked, dim);
    let sigma = deviation(means, picked, dim);
    let want = Seq::new(dim as nat, |j: int| (means.blend)(centre[j], sigma, noise[j]));
    assert(mixed@.len() == dim);
    assert forall|j: int| 0 <= j < dim implies mixed@[j] == #[trigger] want[j] by {
        assert(raw[j] == noise[j]);
        assert(call_ensures(
            ops.blend,
            (mixture[pick].mean@[j], mixture[pick].sigma, raw[j]),
            mixed@[j],
        ));
    }
    assert(mixed@ =~= want);
}

} // verus!
