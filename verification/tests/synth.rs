use guksu::recall::chunks::chunk_ranges;
use guksu::recall::cli::Dist;
use guksu::recall::synth::{
    clusters, generate, generate_rows, Shaping, CLUSTER_STREAM, CORPUS_STREAM, QUERY_STREAM,
};
use guksu::rng::SplitMix64;

fn box_muller(u1: u64, u2: u64) -> (u64, u64) {
    let r = (-2.0 * f64::from_bits(u1).ln()).sqrt();
    let theta = std::f64::consts::TAU * f64::from_bits(u2);
    ((r * theta.cos()).to_bits(), (r * theta.sin()).to_bits())
}

fn narrow(x: u64) -> u32 {
    (f64::from_bits(x) as f32).to_bits()
}

fn normalize(row: Vec<u32>) -> Vec<u32> {
    let mut row: Vec<f32> = row.into_iter().map(f32::from_bits).collect();
    let norm = row.iter().map(|&x| (x as f64) * (x as f64)).sum::<f64>().sqrt() as f32;
    if norm > 0.0 {
        for x in &mut row {
            *x /= norm;
        }
    }
    row.into_iter().map(f32::to_bits).collect()
}

fn spread(u: u32, dim: usize) -> u32 {
    ((0.15 + 0.65 * f32::from_bits(u)) / (dim as f32).sqrt()).to_bits()
}

fn blend(mean: u32, sigma: u32, x: u32) -> u32 {
    (f32::from_bits(mean) + f32::from_bits(sigma) * f32::from_bits(x)).to_bits()
}

fn rows(dist: Dist, n: usize, dim: usize, components: usize, seed: u64, stream: u64) -> Vec<f32> {
    let ops = Shaping { box_muller, narrow, normalize, spread, blend };
    generate(dist, n, dim, components, seed, stream, &ops).into_iter().map(f32::from_bits).collect()
}

/// The same rows, made in pieces as several workers would.
fn rows_in_pieces(
    dist: Dist,
    n: usize,
    dim: usize,
    components: usize,
    seed: u64,
    stream: u64,
    threads: usize,
) -> Vec<f32> {
    let ops = Shaping { box_muller, narrow, normalize, spread, blend };
    let count = if dist == Dist::Gmm { components } else { 0 };
    let mixture = clusters(seed, count, dim, &ops);
    let mut flat = Vec::new();
    for (lo, hi) in chunk_ranges(n, threads) {
        flat.extend(generate_rows(dist, &mixture, dim, seed, stream, lo, hi, &ops));
    }
    flat.into_iter().map(f32::from_bits).collect()
}

#[test]
fn rows_are_normalized_and_deterministic() {
    for dist in [Dist::Uniform, Dist::Gmm] {
        let a = rows_in_pieces(dist, 50, 128, 8, 7, CORPUS_STREAM, 4);
        let b = rows_in_pieces(dist, 50, 128, 8, 7, CORPUS_STREAM, 1);
        assert_eq!(a, b, "{dist:?} not thread-order independent");
        assert_eq!(a, rows(dist, 50, 128, 8, 7, CORPUS_STREAM));
        for row in a.chunks_exact(128) {
            let norm: f64 = row.iter().map(|&x| (x as f64) * (x as f64)).sum();
            assert!((norm.sqrt() - 1.0).abs() < 1e-3, "{dist:?} row norm {}", norm.sqrt());
        }
    }
}

#[test]
fn corpus_and_queries_differ_but_share_clusters() {
    let corpus = rows(Dist::Gmm, 20, 64, 4, 9, CORPUS_STREAM);
    let queries = rows(Dist::Gmm, 20, 64, 4, 9, QUERY_STREAM);
    assert_ne!(corpus, queries);
    // Same seed, different number of components: different corpus.
    let other = rows(Dist::Gmm, 20, 64, 8, 9, CORPUS_STREAM);
    assert_ne!(corpus, other);
}

#[test]
fn gmm_is_clustered_uniform_is_not() {
    // Mean |dot| between random pairs: near 0 for uniform, clearly
    // positive for a tight mixture.
    let dim = 256;
    let mean_abs_dot = |flat: &[f32]| {
        let rows: Vec<&[f32]> = flat.chunks_exact(dim).collect();
        let mut s = 0.0f64;
        let mut count = 0;
        for i in 0..rows.len() {
            for j in (i + 1)..rows.len() {
                let d: f32 = rows[i].iter().zip(rows[j]).map(|(&x, &y)| x * y).sum();
                s += (d as f64).abs();
                count += 1;
            }
        }
        s / count as f64
    };
    let uni = rows(Dist::Uniform, 60, dim, 1, 3, CORPUS_STREAM);
    let gmm = rows(Dist::Gmm, 60, dim, 4, 3, CORPUS_STREAM);
    let (u, g) = (mean_abs_dot(&uni), mean_abs_dot(&gmm));
    assert!(g > 4.0 * u, "gmm {g} not clustered vs uniform {u}");
}

#[test]
fn rows_follow_their_own_streams() {
    let (dim, seed) = (6, 21);
    let ops = Shaping { box_muller, narrow, normalize, spread, blend };
    // A uniform row is the normalized gaussians of its stream.
    let flat = generate(Dist::Uniform, 3, dim, 1, seed, QUERY_STREAM, &ops);
    for i in 0..3u64 {
        let mut rng = SplitMix64::substream(seed, QUERY_STREAM + i);
        let drawn: Vec<u32> = (0..dim).map(|_| narrow(rng.next_gaussian(&box_muller))).collect();
        assert_eq!(&flat[i as usize * dim..(i as usize + 1) * dim], normalize(drawn).as_slice());
    }
    // A cluster draws its mean, then its deviation.
    let mixture = clusters(seed, 2, dim, &ops);
    for (c, cluster) in mixture.iter().enumerate() {
        let mut rng = SplitMix64::substream(seed, CLUSTER_STREAM + c as u64);
        let drawn: Vec<u32> = (0..dim).map(|_| narrow(rng.next_gaussian(&box_muller))).collect();
        assert_eq!(cluster.mean, normalize(drawn));
        assert_eq!(cluster.sigma, spread(rng.next_f32(), dim));
    }
    // A mixture row picks its component first.
    let flat = generate(Dist::Gmm, 2, dim, 2, seed, CORPUS_STREAM, &ops);
    for i in 0..2u64 {
        let mut rng = SplitMix64::substream(seed, i);
        let c = &mixture[rng.next_range(2) as usize];
        let drawn: Vec<u32> = (0..dim)
            .map(|j| blend(c.mean[j], c.sigma, narrow(rng.next_gaussian(&box_muller))))
            .collect();
        assert_eq!(&flat[i as usize * dim..(i as usize + 1) * dim], normalize(drawn).as_slice());
    }
}

#[test]
fn shares_cover_everything_once() {
    assert_eq!(chunk_ranges(10, 3), vec![(0, 4), (4, 8), (8, 10)]);
    assert_eq!(chunk_ranges(10, 0), vec![(0, 10)]);
    assert_eq!(chunk_ranges(3, 8), vec![(0, 1), (1, 2), (2, 3)]);
    assert!(chunk_ranges(0, 4).is_empty());
}
