use guksu::kernels::backend::{Backend, Kernels};
use guksu::kernels::{dot_f32, dot_i8, dot_i8_bin, hamming};
use guksu::quant::{max_abs_scale, pack_sign_bits_vec, quantize_i8_vec};
use guksu::rng::SplitMix64;
use guksu::{
    select_top_k, BinaryBlock, Bitset, Block, F32Block, Hit, I8Block, I8Query, ScanError, Scorer, ViewQuery,
};

fn times(x: u32, y: u32) -> u32 {
    (f32::from_bits(x) * f32::from_bits(y)).to_bits()
}

fn plus(x: u32, y: u32) -> u32 {
    (f32::from_bits(x) + f32::from_bits(y)).to_bits()
}

fn over(x: u32, y: u32) -> u32 {
    (f32::from_bits(x) / f32::from_bits(y)).to_bits()
}

fn fma(x: u32, y: u32, z: u32) -> u32 {
    f32::from_bits(x).mul_add(f32::from_bits(y), f32::from_bits(z)).to_bits()
}

fn bits(v: &[f32]) -> Vec<u32> {
    v.iter().map(|x| x.to_bits()).collect()
}

fn scalar(
) -> Kernels<impl Fn(&[u32], &[u32]) -> u32, impl Fn(&[u32], &[u8]) -> u32, impl Fn(u32, u32) -> u32> {
    Backend::scalar().kernels(&fma, &times, &plus)
}

fn wide(
) -> Kernels<impl Fn(&[u32], &[u32]) -> u32, impl Fn(&[u32], &[u8]) -> u32, impl Fn(u32, u32) -> u32> {
    Backend::Avx2.kernels(&fma, &times, &plus)
}

fn hit(id: u32, score: f32) -> Hit {
    Hit { id, score: score.to_bits() }
}

fn naive_top_k(hits: impl IntoIterator<Item = Hit>, k: usize) -> Vec<Hit> {
    let mut all: Vec<Hit> = hits.into_iter().collect();
    all.sort_unstable_by(|a, b| {
        f32::from_bits(b.score).total_cmp(&f32::from_bits(a.score)).then(a.id.cmp(&b.id))
    });
    all.truncate(k);
    all
}

fn random_vec(rng: &mut SplitMix64, n: usize) -> Vec<u32> {
    (0..n).map(|_| (f32::from_bits(rng.next_f32()) * 2.0 - 1.0).to_bits()).collect()
}

fn random_block(rng: &mut SplitMix64, n: usize, dim: usize) -> F32Block {
    F32Block::from_flat(&random_vec(rng, n * dim), dim).ok().unwrap()
}

#[test]
fn hit_ordering_contract() {
    let better = hit(3, 2.0);
    let worse = hit(1, 1.0);
    assert!(better > worse);
    // Equal scores: lower id is greater (better).
    assert!(hit(1, 1.0) > hit(2, 1.0));
    // Total order: +0.0 beats -0.0; equality follows it, not the numbers.
    assert!(hit(0, 0.0) > hit(0, -0.0));
    assert_ne!(hit(0, 0.0), hit(0, -0.0));
    assert_eq!(hit(7, 0.5), hit(7, 0.5));
}

#[test]
fn select_matches_naive_sort() {
    let mut rng = SplitMix64::new(51);
    for n in [0usize, 1, 5, 100, 1000] {
        let scores: Vec<u32> = (0..n).map(|_| rng.next_f32()).collect();
        let ids: Vec<u32> = (0..n as u32).collect();
        for k in [0usize, 1, 7, n / 2, n, n + 10] {
            let got = select_top_k(&ids, |id| scores[id as usize], k);
            let want =
                naive_top_k(scores.iter().enumerate().map(|(i, &s)| Hit { id: i as u32, score: s }), k);
            assert_eq!(got, want, "n={n} k={k}");
        }
    }
}

#[test]
fn all_ties_take_lowest_ids() {
    let all: Vec<u32> = (0..100).collect();
    let got = select_top_k(&all, |_| 1.0f32.to_bits(), 5);
    let ids: Vec<u32> = got.iter().map(|h| h.id).collect();
    assert_eq!(ids, vec![0, 1, 2, 3, 4]);
}

#[test]
fn prefix_property_holds_under_heavy_ties() {
    let mut rng = SplitMix64::new(52);
    // Scores quantized to 4 levels: massive ties, like Hamming plateaus.
    let scores: Vec<u32> = (0..500).map(|_| (rng.next_range(4) as f32).to_bits()).collect();
    let all: Vec<u32> = (0..500).collect();
    let big = select_top_k(&all, |id| scores[id as usize], 400);
    for k in [1usize, 10, 48, 100, 399] {
        let small = select_top_k(&all, |id| scores[id as usize], k);
        assert_eq!(small.as_slice(), &big[..k], "k={k}");
    }
}

#[test]
fn f32_top_k_matches_naive() {
    let mut rng = SplitMix64::new(53);
    let block = random_block(&mut rng, 300, 17);
    let query = random_vec(&mut rng, 17);
    let v = block.view();
    let got = Scorer::F32 { query: ViewQuery { view: v, query: &query } }
        .top_k(&scalar(), 10, None)
        .unwrap();
    let want = naive_top_k(
        (0..300u32).map(|id| Hit { id, score: dot_f32(&query, v.row(id), Backend::Scalar, &fma, &times, &plus) }),
        10,
    );
    assert_eq!(got, want);
}

#[test]
fn every_scan_variant_matches_its_kernel() {
    let mut rng = SplitMix64::new(54);
    let (n, dim, k) = (200usize, 64usize, 12usize);
    let block = random_block(&mut rng, n, dim);
    let i8s = I8Block::from_f32_per_vector(&block, &over);
    let bins = BinaryBlock::from_f32(&block);
    let query = random_vec(&mut rng, dim);
    let q_scale = max_abs_scale(&query, &over);
    let q_i8 = quantize_i8_vec(&query, q_scale, &over);
    let q_bits = pack_sign_bits_vec(&query);
    let kern = wide();

    let cases: Vec<(Vec<Hit>, Vec<Hit>)> = vec![
        (
            Scorer::I8 {
                query: ViewQuery { view: i8s.view(), query: I8Query { codes: &q_i8, scale: q_scale } },
            }
            .top_k(&kern, k, None)
            .unwrap(),
            naive_top_k(
                (0..n as u32).map(|id| {
                    hit(
                        id,
                        dot_i8(&q_i8, i8s.view().row(id)) as f32
                            * (f32::from_bits(q_scale) * f32::from_bits(i8s.view().scale(id))),
                    )
                }),
                k,
            ),
        ),
        (
            Scorer::Bin { query: ViewQuery { view: bins.view(), query: &q_bits } }
                .top_k(&kern, k, None)
                .unwrap(),
            naive_top_k(
                (0..n as u32).map(|id| hit(id, -(hamming(&q_bits, bins.view().row(id)) as f32))),
                k,
            ),
        ),
        (
            Scorer::F32Bin { query: ViewQuery { view: bins.view(), query: &query } }
                .top_k(&kern, k, None)
                .unwrap(),
            naive_top_k(
                (0..n as u32).map(|id| Hit { id, score: (kern.dot_f32_bin)(&query, bins.view().row(id)) }),
                k,
            ),
        ),
        (
            Scorer::I8Bin {
                query: ViewQuery { view: bins.view(), query: I8Query { codes: &q_i8, scale: q_scale } },
            }
            .top_k(&kern, k, None)
            .unwrap(),
            naive_top_k(
                (0..n as u32).map(|id| {
                    hit(id, dot_i8_bin(&q_i8, bins.view().row(id)) as f32 * f32::from_bits(q_scale))
                }),
                k,
            ),
        ),
    ];
    for (i, (got, want)) in cases.iter().enumerate() {
        assert_eq!(got, want, "variant {i}");
    }
}

#[test]
fn filtered_scan_matches_naive_over_subset() {
    let mut rng = SplitMix64::new(55);
    let block = random_block(&mut rng, 400, 9);
    let query = random_vec(&mut rng, 9);
    let filter = Bitset::random(400, 0.25f64.to_bits(), 99);
    let v = block.view();
    let got = Scorer::F32 { query: ViewQuery { view: v, query: &query } }
        .top_k(&scalar(), 20, Some(&filter))
        .unwrap();
    assert!(got.iter().all(|h| filter.contains(h.id)), "hit outside filter");
    let want = naive_top_k(
        filter
            .iter_ones()
            .into_iter()
            .map(|id| Hit { id, score: dot_f32(&query, v.row(id), Backend::Scalar, &fma, &times, &plus) }),
        20,
    );
    assert_eq!(got, want);
}

#[test]
fn empty_filter_and_k_clamps() {
    let mut rng = SplitMix64::new(56);
    let block = random_block(&mut rng, 50, 8);
    let query = bits(&[1.0f32; 8]);
    let v = block.view();
    let scorer = Scorer::F32 { query: ViewQuery { view: v, query: &query } };
    assert!(scorer.top_k(&scalar(), 10, Some(&Bitset::new(50))).unwrap().is_empty());
    assert!(scorer.top_k(&scalar(), 0, None).unwrap().is_empty());
    let all = scorer.top_k(&scalar(), 500, None).unwrap();
    assert_eq!(all.len(), 50); // k > n clamps to n
    assert!(all.windows(2).all(|w| w[0] > w[1]), "not sorted best-first");
}

#[test]
fn rerank_stays_within_pool_and_reorders() {
    let mut rng = SplitMix64::new(57);
    let (n, dim) = (500usize, 32usize);
    let block = random_block(&mut rng, n, dim);
    let bins = BinaryBlock::from_f32(&block);
    let query = random_vec(&mut rng, dim);
    let q_bits = pack_sign_bits_vec(&query);
    let filter = Bitset::random(n, 0.3f64.to_bits(), 7);

    let pool = Scorer::Bin { query: ViewQuery { view: bins.view(), query: &q_bits } }
        .top_k(&scalar(), 40, Some(&filter))
        .unwrap();
    let ids: Vec<u32> = pool.iter().map(|h| h.id).collect();
    let hits = Scorer::F32 { query: ViewQuery { view: block.view(), query: &query } }
        .rerank(&scalar(), &ids, 10)
        .unwrap();

    assert_eq!(hits.len(), 10);
    assert!(hits.iter().all(|h| ids.contains(&h.id)), "rerank escaped the pool");
    assert!(hits.iter().all(|h| filter.contains(h.id)), "rerank escaped the filter");
    // Rerank == exact top-k restricted to the pool.
    let v = block.view();
    let want = naive_top_k(
        ids.iter().map(|&id| Hit { id, score: dot_f32(&query, v.row(id), Backend::Scalar, &fma, &times, &plus) }),
        10,
    );
    assert_eq!(hits, want);
}

#[test]
fn i8_rerank_matches_naive() {
    let mut rng = SplitMix64::new(58);
    let (n, dim) = (100usize, 16usize);
    let block = random_block(&mut rng, n, dim);
    let i8s = I8Block::from_f32_per_vector(&block, &over);
    let query = random_vec(&mut rng, dim);
    let q_scale = max_abs_scale(&query, &over);
    let q_i8 = quantize_i8_vec(&query, q_scale, &over);
    let ids: Vec<u32> = vec![3, 9, 17, 42, 77];
    let got = Scorer::I8 {
        query: ViewQuery { view: i8s.view(), query: I8Query { codes: &q_i8, scale: q_scale } },
    }
    .rerank(&scalar(), &ids, 3)
    .unwrap();
    let v = i8s.view();
    let want = naive_top_k(
        ids.iter().map(|&id| {
            hit(
                id,
                dot_i8(&q_i8, v.row(id)) as f32 * (f32::from_bits(q_scale) * f32::from_bits(v.scale(id))),
            )
        }),
        3,
    );
    assert_eq!(got, want);
}

#[test]
fn filter_length_mismatch_errors() {
    let block = F32Block::from_flat(&bits(&[1.0, 2.0]), 2).ok().unwrap();
    let query = bits(&[1.0, 0.0]);
    let err = Scorer::F32 { query: ViewQuery { view: block.view(), query: &query } }
        .top_k(&scalar(), 1, Some(&Bitset::new(3)))
        .unwrap_err();
    assert_eq!(err, ScanError::FilterLen { filter_len: 3, rows: 1 });
    assert_eq!(err.to_string(), "filter covers 3 ids but the view has 1 rows");
}

#[test]
fn query_dim_mismatch_errors() {
    let block = F32Block::from_flat(&bits(&[1.0, 2.0]), 2).ok().unwrap();
    let query = bits(&[1.0]);
    let scorer = Scorer::F32 { query: ViewQuery { view: block.view(), query: &query } };
    let want = ScanError::QueryDim { query_dim: 1, view_dim: 2 };
    assert_eq!(scorer.top_k(&scalar(), 1, None).unwrap_err(), want);
    assert_eq!(scorer.rerank(&scalar(), &[0], 1).unwrap_err(), want);
    assert_eq!(want.to_string(), "query dim 1 vs view dim 2");
}

#[test]
fn f32bin_query_dim_mismatch_errors() {
    // The dimension of binary codes is in bits, so an asymmetric query must
    // match the unpacked dimension, not the byte length.
    let block = F32Block::from_flat(&bits(&[1.0, 2.0]), 2).ok().unwrap();
    let bins = BinaryBlock::from_f32(&block);
    let query = bits(&[1.0]);
    let err = Scorer::F32Bin { query: ViewQuery { view: bins.view(), query: &query } }
        .top_k(&scalar(), 1, None)
        .unwrap_err();
    assert_eq!(err, ScanError::QueryDim { query_dim: 1, view_dim: 2 });
}

#[test]
fn candidate_order_does_not_matter() {
    let scores: Vec<u32> = (0..60).map(|i| ((i % 7) as f32).to_bits()).collect();
    let up: Vec<u32> = (0..60).collect();
    let down: Vec<u32> = (0..60).rev().collect();
    for k in [1usize, 5, 30, 60] {
        let a = select_top_k(&up, |id| scores[id as usize], k);
        let b = select_top_k(&down, |id| scores[id as usize], k);
        assert_eq!(a, b);
    }
}

#[test]
fn the_best_survive_in_parts() {
    let scores: Vec<u32> = (0..90).map(|i| ((i * 37 % 11) as f32).to_bits()).collect();
    let all: Vec<u32> = (0..90).collect();
    let k = 8;
    let whole = select_top_k(&all, |id| scores[id as usize], k);
    let mut merged: Vec<u32> = Vec::new();
    for part in all.chunks(25) {
        merged.extend(select_top_k(part, |id| scores[id as usize], k).iter().map(|h| h.id));
    }
    assert_eq!(select_top_k(&merged, |id| scores[id as usize], k), whole);
}

#[test]
fn nan_scores_rank_above_infinity() {
    let scores = bits(&[1.0, f32::NAN, f32::INFINITY, f32::NEG_INFINITY]);
    let got = select_top_k(&[0, 1, 2, 3], |id| scores[id as usize], 4);
    let ids: Vec<u32> = got.iter().map(|h| h.id).collect();
    assert_eq!(ids, vec![1, 2, 0, 3]);
}

#[test]
fn asymmetric_and_symmetric_queries_of_codes() {
    let block = F32Block::from_flat(&bits(&[1.0, -1.0, 1.0, -1.0, -1.0, -1.0]), 3).ok().unwrap();
    let bins = BinaryBlock::from_f32(&block);
    let q = bits(&[2.0, 3.0, 4.0]);
    let got = Scorer::F32Bin { query: ViewQuery { view: bins.view(), query: &q } }
        .top_k(&scalar(), 2, None)
        .unwrap();
    assert_eq!(got, vec![hit(0, 3.0), hit(1, -9.0)]);
    let code = pack_sign_bits_vec(&q);
    let got = Scorer::Bin { query: ViewQuery { view: bins.view(), query: &code } }
        .top_k(&scalar(), 2, None)
        .unwrap();
    assert_eq!(got, vec![hit(0, -1.0), hit(1, -3.0)]);
}

#[test]
fn two_stage_quickstart() {
    // Four 4-dim vectors, row-major.
    let flat = bits(&[
        1.0, 0.0, 0.0, 0.0, //
        0.0, 1.0, 0.0, 0.0, //
        0.707, 0.707, 0.0, 0.0, //
        0.0, 0.0, 0.707, 0.707,
    ]);
    let corpus = F32Block::from_flat(&flat, 4).ok().unwrap();
    let bins = BinaryBlock::from_f32(&corpus);
    let query = bits(&[0.9, 0.1, -0.1, -0.1]);
    // Asymmetric binary coarse scan, then exact rerank.
    let coarse = Scorer::F32Bin { query: ViewQuery { view: bins.view(), query: &query } };
    let pool = coarse.top_k(&wide(), 3, None).unwrap();
    let ids: Vec<u32> = pool.iter().map(|h| h.id).collect();
    let precise = Scorer::F32 { query: ViewQuery { view: corpus.view(), query: &query } };
    let top = precise.rerank(&wide(), &ids, 1).unwrap();
    assert_eq!(top[0].id, 0);
}

#[test]
fn tables_carry_their_backend() {
    assert_eq!(scalar().backend, "scalar");
    let kern = wide();
    assert_eq!(kern.backend, "avx2");
    let (a, b) = (bits(&[1.5; 40]), bits(&[0.1; 40]));
    assert_eq!((kern.dot_f32)(&a, &b), Backend::Avx2.dot_f32(&a, &b, &fma, &times, &plus));
    assert_eq!((kern.times)(a[0], b[0]), times(a[0], b[0]));
}

#[test]
fn coarse_scan_then_rerank() {
    let corpus = F32Block::from_flat(&bits(&[1.0, 0.0, -0.6, 0.8, 0.6, 0.8]), 2).ok().unwrap();
    let bin = BinaryBlock::from_f32(&corpus);
    let query = bits(&[0.6, -0.8]);
    let q_bits = pack_sign_bits_vec(&query);
    let coarse = Scorer::Bin { query: ViewQuery { view: bin.view(), query: &q_bits } };
    let pool = coarse.top_k(&scalar(), 2, None).unwrap();
    let ids: Vec<u32> = pool.iter().map(|h| h.id).collect();
    let precise = Scorer::F32 { query: ViewQuery { view: corpus.view(), query: &query } };
    let hits = precise.rerank(&scalar(), &ids, 1).unwrap();
    assert_eq!(hits[0].id, 0);
}

#[test]
fn hoisted_table_scores() {
    for backend in [Backend::Scalar, Backend::Neon, Backend::NeonDotprod, Backend::Avx2] {
        let k = backend.kernels(&fma, &times, &plus);
        let score = (k.dot_f32)(&bits(&[1.0, 0.0]), &bits(&[0.5, 0.5]));
        assert_eq!(f32::from_bits(score), 0.5, "{}", k.backend);
    }
}
