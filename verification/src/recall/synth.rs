//! Synthetic corpora: uniform on the sphere, and clustered Gaussian mixtures.
//!
//! Every row is drawn from a stream of its own, so the output does not depend
//! on the number of threads or the order of generation. Which numbers are
//! drawn, and what they are used for, is decided here; the arithmetic on them
//! comes from the caller ([`Shaping`]).

use vstd::prelude::*;
use crate::recall::cli::Dist;
use crate::rng::{self, SplitMix64};

verus! {

/// Stream offset of corpus rows. Offsets keep corpus rows, query rows and
/// clusters apart for fewer than `2^40` rows.
pub const CORPUS_STREAM: u64 = 0;

/// Stream offset of query rows.
pub const QUERY_STREAM: u64 = 0x100_0000_0000;

/// Stream offset of clusters.
pub const CLUSTER_STREAM: u64 = 0x200_0000_0000;

/// The arithmetic that shapes drawn numbers into rows.
pub struct Shaping<G, N, L, S, X> {
    /// Two gaussians from two uniform numbers.
    pub box_muller: G,
    /// A double-precision number in single precision.
    pub narrow: N,
    /// A row scaled to unit length.
    pub normalize: L,
    /// Per-coordinate deviation of a cluster, from a uniform number and the
    /// dimension.
    pub spread: S,
    /// `mean + deviation * x`.
    pub blend: X,
}

/// The functions accept every input, and normalizing keeps the length.
pub open spec fn usable<G, N, L, S, X>(ops: Shaping<G, N, L, S, X>) -> bool where
    G: Fn(u64, u64) -> (u64, u64),
    N: Fn(u64) -> u32,
    L: Fn(Vec<u32>) -> Vec<u32>,
    S: Fn(u32, usize) -> u32,
    X: Fn(u32, u32, u32) -> u32,
 {
    &&& forall|a: u64, b: u64| call_requires(ops.box_muller, (a, b))
    &&& forall|a: u64| call_requires(ops.narrow, (a,))
    &&& forall|v: Vec<u32>| call_requires(ops.normalize, (v,))
    &&& forall|v: Vec<u32>, w: Vec<u32>| #[trigger]
        call_ensures(ops.normalize, (v,), w) ==> w@.len() == v@.len()
    &&& forall|u: u32, dim: usize| call_requires(ops.spread, (u, dim))
    &&& forall|m: u32, d: u32, x: u32| call_requires(ops.blend, (m, d, x))
}

/// A generator's state: where its numbers come from, and the gaussian it keeps.
pub type Source = (u64, Option<u64>);

/// The source of the stream with the given index.
pub open spec fn stream_source(seed: u64, index: u64) -> Source {
    (rng::derived_seed(seed, index), None)
}

/// Drawing a gaussian gives `g` and moves the source.
pub open spec fn drew<G: Fn(u64, u64) -> (u64, u64)>(
    box_muller: G,
    before: Source,
    g: u64,
    after: Source,
) -> bool {
    match before.1 {
        Some(kept) => g == kept && after == (before.0, None::<u64>),
        None => {
            &&& after.0 == rng::state_after(before.0, 2)
            &&& after.1 is Some
            &&& rng::gaussian_pair(box_muller, before.0, g, after.1->0)
        },
    }
}

/// `row` is made of gaussians drawn one after another.
pub open spec fn filled<G: Fn(u64, u64) -> (u64, u64), N: Fn(u64) -> u32>(
    box_muller: G,
    narrow: N,
    before: Source,
    row: Seq<u32>,
    after: Source,
) -> bool
    decreases row.len(),
{
    if row.len() == 0 {
        before == after
    } else {
        exists|mid: Source, g: u64|
            {
                &&& filled(box_muller, narrow, before, row.drop_last(), mid)
                &&& #[trigger] drew(box_muller, mid, g, after)
                &&& call_ensures(narrow, (g,), row.last())
            }
    }
}

/// Draws a row of gaussians.
fn fill_gaussian<G: Fn(u64, u64) -> (u64, u64), N: Fn(u64) -> u32>(
    rng: &mut SplitMix64,
    n: usize,
    box_muller: &G,
    narrow: &N,
) -> (r: Vec<u32>)
    requires
        forall|a: u64, b: u64| call_requires(*box_muller, (a, b)),
        forall|a: u64| call_requires(*narrow, (a,)),
    ensures
        r@.len() == n,
        filled(
            *box_muller,
            *narrow,
            (old(rng).state(), old(rng).cached()),
            r@,
            (final(rng).state(), final(rng).cached()),
        ),
{
    let ghost start = (rng.state(), rng.cached());
    let mut out: Vec<u32> = Vec::new();
    let mut i: usize = 0;
    while i < n
        invariant
            i <= n,
            out@.len() == i,
            forall|a: u64, b: u64| call_requires(*box_muller, (a, b)),
            forall|a: u64| call_requires(*narrow, (a,)),
            filled(*box_muller, *narrow, start, out@, (rng.state(), rng.cached())),
        decreases n - i,
    {
        let ghost mid = (rng.state(), rng.cached());
        let ghost before = out@;
        let g: u64 = rng.next_gaussian(box_muller);
        let x: u32 = narrow(g);
        out.push(x);
        i += 1;
        proof {
            assert(out@.drop_last() =~= before);
            assert(drew(*box_muller, mid, g, (rng.state(), rng.cached())));
        }
    }
    out
}

/// One component of a mixture: a unit vector and the deviation around it.
pub struct Cluster {
    pub mean: Vec<u32>,
    pub sigma: u32,
}

/// Component `c` of a mixture: the normalized mean is drawn first, then the
/// uniform number that the deviation comes from.
pub open spec fn is_cluster<G, N, L, S, X>(
    ops: Shaping<G, N, L, S, X>,
    seed: u64,
    c: int,
    dim: usize,
    cluster: Cluster,
) -> bool where
    G: Fn(u64, u64) -> (u64, u64),
    N: Fn(u64) -> u32,
    L: Fn(Vec<u32>) -> Vec<u32>,
    S: Fn(u32, usize) -> u32,
    X: Fn(u32, u32, u32) -> u32,
 {
    exists|raw: Vec<u32>, after: Source, u: u32|
        {
            &&& raw@.len() == dim
            &&& #[trigger] filled(
                ops.box_muller,
                ops.narrow,
                stream_source(seed, (CLUSTER_STREAM + c) as u64),
                raw@,
                after,
            )
            &&& call_ensures(ops.normalize, (raw,), cluster.mean)
            &&& rng::uniform_32(rng::high_bits(rng::scrambled(rng::next_state(after.0))), u)
            &&& #[trigger] call_ensures(ops.spread, (u, dim), cluster.sigma)
        }
}

/// Draws the components of a mixture.
pub fn clusters<G, N, L, S, X>(
    seed: u64,
    count: usize,
    dim: usize,
    ops: &Shaping<G, N, L, S, X>,
) -> (r: Vec<Cluster>) where
    G: Fn(u64, u64) -> (u64, u64),
    N: Fn(u64) -> u32,
    L: Fn(Vec<u32>) -> Vec<u32>,
    S: Fn(u32, usize) -> u32,
    X: Fn(u32, u32, u32) -> u32,

    requires
        usable(*ops),
        CLUSTER_STREAM + count <= u64::MAX,
    ensures
        r@.len() == count,
        forall|c: int|
            0 <= c < count ==> is_cluster(*ops, seed, c, dim, #[trigger] r@[c])
                && r@[c].mean@.len() == dim,
{
    let mut out: Vec<Cluster> = Vec::new();
    let mut c: usize = 0;
    while c < count
        invariant
            c <= count,
            usable(*ops),
            CLUSTER_STREAM + count <= u64::MAX,
            out@.len() == c,
            forall|i: int|
                0 <= i < c ==> is_cluster(*ops, seed, i, dim, #[trigger] out@[i])
                    && out@[i].mean@.len() == dim,
        decreases count - c,
    {
        let mut rng: SplitMix64 = SplitMix64::substream(seed, CLUSTER_STREAM + c as u64);
        let raw: Vec<u32> = fill_gaussian(&mut rng, dim, &ops.box_muller, &ops.narrow);
        let ghost drawn = raw;
        let ghost after = (rng.state(), rng.cached());
        let mean: Vec<u32> = (ops.normalize)(raw);
        let u: u32 = rng.next_f32();
        let sigma: u32 = (ops.spread)(u, dim);
        let cluster: Cluster = Cluster { mean, sigma };
        proof {
            assert(filled(
                ops.box_muller,
                ops.narrow,
                stream_source(seed, (CLUSTER_STREAM + c) as u64),
                drawn@,
                after,
            ));
            assert(drawn@.len() == dim);
            assert(call_ensures(ops.normalize, (drawn,), cluster.mean));
            assert(rng::uniform_32(rng::high_bits(rng::scrambled(rng::next_state(after.0))), u));
            assert(call_ensures(ops.spread, (u, dim), cluster.sigma));
            assert(is_cluster(*ops, seed, c as int, dim, cluster));
        }
        out.push(cluster);
        c += 1;
    }
    out
}

/// Every element is blended with the mean's.
pub open spec fn blended<X: Fn(u32, u32, u32) -> u32>(
    blend: X,
    cluster: Cluster,
    raw: Seq<u32>,
    mixed: Seq<u32>,
) -> bool {
    &&& mixed.len() == raw.len()
    &&& forall|j: int|
        0 <= j < raw.len() ==> call_ensures(
            blend,
            (cluster.mean@[j], cluster.sigma, raw[j]),
            #[trigger] mixed[j],
        )
}

/// Row `i` of a stream: gaussians, normalized; in a mixture a component is
/// picked first and the gaussians deviate from its mean.
pub open spec fn is_row<G, N, L, S, X>(
    ops: Shaping<G, N, L, S, X>,
    dist: Dist,
    mixture: Seq<Cluster>,
    seed: u64,
    stream: u64,
    i: int,
    row: Seq<u32>,
) -> bool where
    G: Fn(u64, u64) -> (u64, u64),
    N: Fn(u64) -> u32,
    L: Fn(Vec<u32>) -> Vec<u32>,
    S: Fn(u32, usize) -> u32,
    X: Fn(u32, u32, u32) -> u32,
 {
    let source = stream_source(seed, (stream + i) as u64);
    match dist {
        Dist::Uniform => exists|raw: Vec<u32>, after: Source, out: Vec<u32>|
            {
                &&& #[trigger] filled(ops.box_muller, ops.narrow, source, raw@, after)
                &&& #[trigger] call_ensures(ops.normalize, (raw,), out)
                &&& out@ == row
            },
        Dist::Gmm => {
            let first = rng::next_state(source.0);
            let pick = (rng::scrambled(first) * mixture.len()) / 0x1_0000_0000_0000_0000;
            exists|raw: Seq<u32>, after: Source, mixed: Vec<u32>, out: Vec<u32>|
                {
                    &&& #[trigger] filled(
                        ops.box_muller,
                        ops.narrow,
                        (first, None::<u64>),
                        raw,
                        after,
                    )
                    &&& blended(ops.blend, mixture[pick], raw, mixed@)
                    &&& #[trigger] call_ensures(ops.normalize, (mixed,), out)
                    &&& out@ == row
                }
        },
    }
}

/// Draws one row.
fn generate_row<G, N, L, S, X>(
    dist: Dist,
    mixture: &Vec<Cluster>,
    dim: usize,
    seed: u64,
    index: u64,
    ops: &Shaping<G, N, L, S, X>,
) -> (r: Vec<u32>) where
    G: Fn(u64, u64) -> (u64, u64),
    N: Fn(u64) -> u32,
    L: Fn(Vec<u32>) -> Vec<u32>,
    S: Fn(u32, usize) -> u32,
    X: Fn(u32, u32, u32) -> u32,

    requires
        usable(*ops),
        dist == Dist::Gmm ==> mixture@.len() > 0,
        forall|c: int| 0 <= c < mixture@.len() ==> (#[trigger] mixture@[c]).mean@.len() == dim,
    ensures
        r@.len() == dim,
        is_row(*ops, dist, mixture@, seed, index, 0, r@),
{
    let mut rng: SplitMix64 = SplitMix64::substream(seed, index);
    match dist {
        Dist::Uniform => {
            let raw: Vec<u32> = fill_gaussian(&mut rng, dim, &ops.box_muller, &ops.narrow);
            let ghost drawn = raw;
            let ghost after = (rng.state(), rng.cached());
            assert(filled(
                ops.box_muller,
                ops.narrow,
                stream_source(seed, (index + 0) as u64),
                drawn@,
                after,
            ));
            (ops.normalize)(raw)
        },
        Dist::Gmm => {
            let pick: usize = rng.next_range(mixture.len() as u64) as usize;
            let ghost first = rng.state();
            let raw: Vec<u32> = fill_gaussian(&mut rng, dim, &ops.box_muller, &ops.narrow);
            let ghost after = (rng.state(), rng.cached());
            let cluster: &Cluster = &mixture[pick];
            let mut mixed: Vec<u32> = Vec::new();
            let mut j: usize = 0;
            while j < dim
                invariant
                    j <= dim == raw@.len(),
                    cluster.mean@.len() == dim,
                    usable(*ops),
                    mixed@.len() == j,
                    forall|k: int|
                        0 <= k < j ==> call_ensures(
                            ops.blend,
                            (cluster.mean@[k], cluster.sigma, raw@[k]),
                            #[trigger] mixed@[k],
                        ),
                decreases dim - j,
            {
                let x: u32 = (ops.blend)(cluster.mean[j], cluster.sigma, raw[j]);
                mixed.push(x);
                j += 1;
            }
            proof {
                assert(blended(ops.blend, *cluster, raw@, mixed@));
                assert(filled(ops.box_muller, ops.narrow, (first, None::<u64>), raw@, after));
            }
            (ops.normalize)(mixed)
        },
    }
}

/// `flat` holds the rows `lo..hi` of a stream.
pub open spec fn rows_between<G, N, L, S, X>(
    ops: Shaping<G, N, L, S, X>,
    dist: Dist,
    mixture: Seq<Cluster>,
    dim: nat,
    seed: u64,
    stream: u64,
    lo: int,
    hi: int,
    flat: Seq<u32>,
) -> bool where
    G: Fn(u64, u64) -> (u64, u64),
    N: Fn(u64) -> u32,
    L: Fn(Vec<u32>) -> Vec<u32>,
    S: Fn(u32, usize) -> u32,
    X: Fn(u32, u32, u32) -> u32,
 {
    &&& flat.len() == (hi - lo) * dim
    &&& forall|i: int|
        0 <= i < hi - lo ==> is_row(
            ops,
            dist,
            mixture,
            seed,
            stream,
            lo + i,
            #[trigger] flat.subrange(i * dim, (i + 1) * dim),
        )
}

/// Draws the rows `lo..hi` of a stream, flat.
pub fn generate_rows<G, N, L, S, X>(
    dist: Dist,
    mixture: &Vec<Cluster>,
    dim: usize,
    seed: u64,
    stream: u64,
    lo: usize,
    hi: usize,
    ops: &Shaping<G, N, L, S, X>,
) -> (r: Vec<u32>) where
    G: Fn(u64, u64) -> (u64, u64),
    N: Fn(u64) -> u32,
    L: Fn(Vec<u32>) -> Vec<u32>,
    S: Fn(u32, usize) -> u32,
    X: Fn(u32, u32, u32) -> u32,

    requires
        usable(*ops),
        lo <= hi,
        stream + hi <= u64::MAX,
        dist == Dist::Gmm ==> mixture@.len() > 0,
        forall|c: int| 0 <= c < mixture@.len() ==> (#[trigger] mixture@[c]).mean@.len() == dim,
    ensures
        rows_between(
            *ops,
            dist,
            mixture@,
            dim as nat,
            seed,
            stream,
            lo as int,
            hi as int,
            r@,
        ),
{
    let mut flat: Vec<u32> = Vec::new();
    let mut i: usize = lo;
    assert((lo - lo) * dim == 0) by (nonlinear_arith);
    while i < hi
        invariant
            usable(*ops),
            lo <= i <= hi,
            stream + hi <= u64::MAX,
            dist == Dist::Gmm ==> mixture@.len() > 0,
            forall|c: int|
                0 <= c < mixture@.len() ==> (#[trigger] mixture@[c]).mean@.len() == dim,
            rows_between(
                *ops,
                dist,
                mixture@,
                dim as nat,
                seed,
                stream,
                lo as int,
                i as int,
                flat@,
            ),
        decreases hi - i,
    {
        let row: Vec<u32> = generate_row(dist, mixture, dim, seed, stream + i as u64, ops);
        let ghost before = flat@;
        let mut j: usize = 0;
        assert(flat@ =~= before + row@.take(0));
        while j < row.len()
            invariant
                j <= row@.len(),
                flat@ == before + row@.take(j as int),
            decreases row@.len() - j,
        {
            flat.push(row[j]);
            j += 1;
            assert(flat@ =~= before + row@.take(j as int));
        }
        proof {
            assert(row@.take(j as int) =~= row@);
            assert(flat@ == before + row@);
            assert(is_row(*ops, dist, mixture@, seed, stream, i as int, row@));
            lemma_rows_push(
                *ops,
                dist,
                mixture@,
                dim as nat,
                seed,
                stream,
                lo as int,
                i as int,
                before,
                row@,
            );
        }
        i += 1;
    }
    flat
}

/// A further row goes behind the others.
proof fn lemma_rows_push<G, N, L, S, X>(
    ops: Shaping<G, N, L, S, X>,
    dist: Dist,
    mixture: Seq<Cluster>,
    dim: nat,
    seed: u64,
    stream: u64,
    lo: int,
    hi: int,
    flat: Seq<u32>,
    row: Seq<u32>,
) where
    G: Fn(u64, u64) -> (u64, u64),
    N: Fn(u64) -> u32,
    L: Fn(Vec<u32>) -> Vec<u32>,
    S: Fn(u32, usize) -> u32,
    X: Fn(u32, u32, u32) -> u32,

    requires
        lo <= hi,
        row.len() == dim,
        rows_between(ops, dist, mixture, dim, seed, stream, lo, hi, flat),
        is_row(ops, dist, mixture, seed, stream, hi, row),
    ensures
        rows_between(ops, dist, mixture, dim, seed, stream, lo, hi + 1, flat + row),
{
    let n = hi - lo;
    let d = dim as int;
    let all = flat + row;
    assert((n + 1) * d == n * d + d) by (nonlinear_arith);
    assert forall|i: int| 0 <= i < n + 1 implies is_row(
        ops,
        dist,
        mixture,
        seed,
        stream,
        lo + i,
        #[trigger] all.subrange(i * dim, (i + 1) * dim),
    ) by {
        if i < n {
            assert(0 <= i * d && i * d + d == (i + 1) * d && (i + 1) * d <= n * d)
                by (nonlinear_arith)
                requires
                    0 <= i < n,
                    d >= 0,
            ;
            assert(all.subrange(i * dim, (i + 1) * dim) =~= flat.subrange(i * dim, (i + 1) * dim));
        } else {
            assert(all.subrange(i * dim, (i + 1) * dim) =~= row);
        }
    }
}

/// Rows drawn in two pieces are the rows drawn in one: how the work is shared
/// out does not matter.
pub proof fn law_pieces_concatenate<G, N, L, S, X>(
    ops: Shaping<G, N, L, S, X>,
    dist: Dist,
    mixture: Seq<Cluster>,
    dim: nat,
    seed: u64,
    stream: u64,
    lo: int,
    mid: int,
    hi: int,
    first: Seq<u32>,
    second: Seq<u32>,
) where
    G: Fn(u64, u64) -> (u64, u64),
    N: Fn(u64) -> u32,
    L: Fn(Vec<u32>) -> Vec<u32>,
    S: Fn(u32, usize) -> u32,
    X: Fn(u32, u32, u32) -> u32,

    requires
        lo <= mid <= hi,
        rows_between(ops, dist, mixture, dim, seed, stream, lo, mid, first),
        rows_between(ops, dist, mixture, dim, seed, stream, mid, hi, second),
    ensures
        rows_between(ops, dist, mixture, dim, seed, stream, lo, hi, first + second),
{
    let (n, m) = (mid - lo, hi - mid);
    let d = dim as int;
    let all = first + second;
    assert((n + m) * d == n * d + m * d) by (nonlinear_arith);
    assert forall|i: int| 0 <= i < hi - lo implies is_row(
        ops,
        dist,
        mixture,
        seed,
        stream,
        lo + i,
        #[trigger] all.subrange(i * dim, (i + 1) * dim),
    ) by {
        if i < n {
            assert(0 <= i * d && i * d <= (i + 1) * d && (i + 1) * d <= n * d) by (nonlinear_arith)
                requires
                    0 <= i < n,
                    d >= 0,
            ;
            assert(all.subrange(i * dim, (i + 1) * dim) =~= first.subrange(
                i * dim,
                (i + 1) * dim,
            ));
        } else {
            let j = i - n;
            assert(0 <= j * d && j * d <= (j + 1) * d && (j + 1) * d <= m * d && i * d == n * d + j
                * d && (i + 1) * d == n * d + (j + 1) * d) by (nonlinear_arith)
                requires
                    0 <= j < m,
                    d >= 0,
                    i == n + j,
            ;
            assert(all.subrange(i * dim, (i + 1) * dim) =~= second.subrange(
                j * dim,
                (j + 1) * dim,
            ));
            assert(lo + i == mid + j);
        }
    }
}

/// Generates `n` normalized rows, flat (`stream` picks the corpus or the
/// queries).
pub fn generate<G, N, L, S, X>(
    dist: Dist,
    n: usize,
    dim: usize,
    gmm_clusters: usize,
    seed: u64,
    stream: u64,
    ops: &Shaping<G, N, L, S, X>,
) -> (r: Vec<u32>) where
    G: Fn(u64, u64) -> (u64, u64),
    N: Fn(u64) -> u32,
    L: Fn(Vec<u32>) -> Vec<u32>,
    S: Fn(u32, usize) -> u32,
    X: Fn(u32, u32, u32) -> u32,

    requires
        usable(*ops),
        n > 0,
        dim > 0,
        n * dim <= usize::MAX,
        stream + n <= u64::MAX,
        CLUSTER_STREAM + gmm_clusters <= u64::MAX,
        dist == Dist::Gmm ==> gmm_clusters > 0,
    ensures
        exists|mixture: Seq<Cluster>|
            {
                &&& mixture.len() == (if dist == Dist::Gmm {
                    gmm_clusters as nat
                } else {
                    0
                })
                &&& forall|c: int|
                    0 <= c < mixture.len() ==> is_cluster(*ops, seed, c, dim, #[trigger] mixture[c])
                &&& #[trigger] rows_between(
                    *ops,
                    dist,
                    mixture,
                    dim as nat,
                    seed,
                    stream,
                    0,
                    n as int,
                    r@,
                )
            },
{
    let count: usize = match dist {
        Dist::Gmm => gmm_clusters,
        Dist::Uniform => 0,
    };
    let mixture: Vec<Cluster> = clusters(seed, count, dim, ops);
    generate_rows(dist, &mixture, dim, seed, stream, 0, n, ops)
}

/// Corpus rows, query rows and clusters are drawn from different streams, for
/// fewer than `2^40` rows each.
pub proof fn law_streams_are_disjoint(corpus_row: u64, query_row: u64, cluster: u64)
    requires
        corpus_row < 0x100_0000_0000,
        query_row < 0x100_0000_0000,
        cluster < 0x100_0000_0000,
    ensures
        CORPUS_STREAM + corpus_row != QUERY_STREAM + query_row,
        CORPUS_STREAM + corpus_row != CLUSTER_STREAM + cluster,
        QUERY_STREAM + query_row != CLUSTER_STREAM + cluster,
{
}

} // verus!
