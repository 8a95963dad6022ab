use guksu::kernels::backend::{Backend, Kernels};
use guksu::ratio::Ratio;
use guksu::recall::cache::{decode_gt, encode_gt, gt_cache_path, load_or_compute_gt};
use guksu::recall::cli::Dist;
use guksu::recall::data::Data;
use guksu::recall::eval::{matrix, rerank_query, scan_query, Cell, Coarse, Row, Store};
use guksu::recall::limits::scans_fit;
use guksu::recall::measure::{gt_prefixes, recall_at_k};
use guksu::recall::report::{
    candidate_count, corpus_filter, degenerate_warning, dims_error, file_source, filter_label,
    synthetic_source, vector_bytes, GtKey,
};
use guksu::recall::rows::{change_rows, first_rejected, norm_error};
use guksu::recall::run::{ground_truth, run_matrix, run_matrix_with};
use guksu::recall::synth::{generate, Shaping, CORPUS_STREAM, QUERY_STREAM};
use guksu::recall::table::{csv_text, table_text, CsvMeta, Measured, CSV_HEADER};
use guksu::{Block, Hit, StorageError};

fn times(x: u32, y: u32) -> u32 {
    (f32::from_bits(x) * f32::from_bits(y)).to_bits()
}

fn plus(x: u32, y: u32) -> u32 {
    (f32::from_bits(x) + f32::from_bits(y)).to_bits()
}

fn over(x: u32, y: u32) -> u32 {
    (f32::from_bits(x) / f32::from_bits(y)).to_bits()
}

fn fma(x: u32, y: u32, z: u32) -> u32 {
    f32::from_bits(x).mul_add(f32::from_bits(y), f32::from_bits(z)).to_bits()
}

fn scalar(
) -> Kernels<impl Fn(&[u32], &[u32]) -> u32, impl Fn(&[u32], &[u8]) -> u32, impl Fn(u32, u32) -> u32> {
    Backend::scalar().kernels(&fma, &times, &plus)
}

fn box_muller(u1: u64, u2: u64) -> (u64, u64) {
    let r = (-2.0 * f64::from_bits(u1).ln()).sqrt();
    let theta = std::f64::consts::TAU * f64::from_bits(u2);
    ((r * theta.cos()).to_bits(), (r * theta.sin()).to_bits())
}

fn narrow(x: u64) -> u32 {
    (f64::from_bits(x) as f32).to_bits()
}

fn normalize(row: Vec<u32>) -> Vec<u32> {
    let mut row: Vec<f32> = row.into_iter().map(f32::from_bits).collect();
    let norm = row.iter().map(|&x| (x as f64) * (x as f64)).sum::<f64>().sqrt() as f32;
    if norm > 0.0 {
        for x in &mut row {
            *x /= norm;
        }
    }
    row.into_iter().map(f32::to_bits).collect()
}

fn spread(u: u32, dim: usize) -> u32 {
    ((0.15 + 0.65 * f32::from_bits(u)) / (dim as f32).sqrt()).to_bits()
}

fn blend(mean: u32, sigma: u32, x: u32) -> u32 {
    (f32::from_bits(mean) + f32::from_bits(sigma) * f32::from_bits(x)).to_bits()
}

fn hit(id: u32, score: f32) -> Hit {
    Hit { id, score: score.to_bits() }
}

fn value(r: Ratio) -> f64 {
    r.numerator as f64 / r.denominator as f64
}

fn mean(recalls: &[Ratio]) -> f64 {
    recalls.iter().map(|&r| value(r)).sum::<f64>() / recalls.len() as f64
}

fn small_data(n: usize, queries: usize, dim: usize) -> Data {
    let ops = Shaping { box_muller, narrow, normalize, spread, blend };
    let corpus = generate(Dist::Gmm, n, dim, 8, 5, CORPUS_STREAM, &ops);
    let q = generate(Dist::Gmm, queries, dim, 8, 5, QUERY_STREAM, &ops);
    Data::prepare(&corpus, &q, dim, &over).ok().unwrap()
}

#[test]
fn matrix_row_counts() {
    assert_eq!(matrix(&[2, 4, 8], false).len(), 23);
    assert_eq!(matrix(&[2, 4, 8], true).len(), 26);
    assert_eq!(matrix(&[4], false).len(), 5 + 6);
}

#[test]
fn recall_math_with_ties_and_denominator() {
    let gt = vec![vec![hit(1, 3.0), hit(2, 2.0), hit(3, 1.0)]];
    let pre = gt_prefixes(&gt, &[2, 10]);
    // Exact @2.
    assert_eq!(value(recall_at_k(&[hit(2, 9.0), hit(1, 8.0)], 2, &pre[0][0])), 1.0);
    // One of two @2.
    assert_eq!(value(recall_at_k(&[hit(2, 9.0), hit(9, 8.0)], 2, &pre[0][0])), 0.5);
    // Result truncates at k: the match at position 3 must not count @2.
    assert_eq!(
        value(recall_at_k(&[hit(9, 9.0), hit(8, 8.0), hit(1, 7.0)], 2, &pre[0][0])),
        0.0
    );
    // k=10 > |GT|=3: denominator clamps to 3.
    assert_eq!(
        value(recall_at_k(&[hit(3, 1.0), hit(1, 1.0), hit(7, 1.0)], 10, &pre[0][1])),
        2.0 / 3.0
    );
    // Empty GT is vacuously perfect.
    assert_eq!(value(recall_at_k(&[hit(1, 0.0)], 5, &[])), 1.0);
}

#[test]
fn control_row_is_exact_and_rerank_is_monotone() {
    let data = small_data(400, 30, 64);
    let ks = [10usize];
    let gt = ground_truth(&data, &scalar(), 10, None);
    let rows = run_matrix(&data, &scalar(), &matrix(&[2, 8], false), &ks, &gt, None);
    let control = &rows[0];
    assert_eq!(control.coarse, "f32 (control)");
    assert_eq!(mean(&control.recalls[0]), 1.0, "control must be exact");
    // Rerank recall must not decrease with factor for the same config.
    for coarse in ["bin sym", "bin asym f32q", "bin asym i8q"] {
        for store in ["i8", "f32"] {
            let r: Vec<f64> = rows
                .iter()
                .filter(|r| r.coarse == coarse && r.store == Some(store))
                .map(|r| mean(&r.recalls[0]))
                .collect();
            assert_eq!(r.len(), 2);
            assert!(r[1] >= r[0] - 1e-9, "{coarse}->{store}: {r:?} not monotone");
        }
    }
}

#[test]
fn gt_cache_round_trip_and_staleness() {
    let gt = vec![vec![hit(3, 0.5)], vec![]];
    let mut stored = encode_gt("params v1", &gt);
    let loaded = decode_gt(&stored, "params v1").unwrap();
    assert_eq!(loaded.len(), 2);
    assert_eq!(loaded[0], gt[0]);
    assert!(loaded[1].is_empty());
    assert!(decode_gt(&stored, "params v2").is_none(), "stale params must miss");
    let (recomputed, from_cache) = load_or_compute_gt(Some(&stored), "params v2", || gt.clone());
    assert!(!from_cache);
    assert_eq!(recomputed[0], gt[0]);
    stored = encode_gt("params v2", &recomputed);
    assert!(decode_gt(&stored, "params v2").is_some(), "cache must be overwritten");
}

#[test]
fn cache_bytes_are_laid_out_little_endian() {
    let gt = vec![vec![hit(0x0102_0304, 1.0)], vec![]];
    let bytes = encode_gt("pq", &gt);
    let mut want = b"GKGT1\n".to_vec();
    want.extend([2, 0, 0, 0]);
    want.extend(b"pq");
    want.extend([2, 0, 0, 0]);
    want.extend([1, 0, 0, 0]);
    want.extend([4, 3, 2, 1]);
    want.extend(1.0f32.to_le_bytes());
    want.extend([0, 0, 0, 0]);
    assert_eq!(bytes, want);
    // Anything cut off, added or altered misses.
    for cut in 0..bytes.len() {
        assert!(decode_gt(&bytes[..cut], "pq").is_none());
    }
    let mut longer = bytes.clone();
    longer.push(0);
    assert!(decode_gt(&longer, "pq").is_none());
    let mut other = bytes.clone();
    other[0] = b'X';
    assert!(decode_gt(&other, "pq").is_none());
    // A hit of the cache is not computed again.
    let (got, from_cache) = load_or_compute_gt(Some(&bytes), "pq", Vec::new);
    assert!(from_cache);
    assert_eq!(got, gt);
    let (got, from_cache) = load_or_compute_gt(None, "pq", || gt.clone());
    assert!(!from_cache);
    assert_eq!(got, gt);
}

#[test]
fn cache_path_names_the_selectivity() {
    let path = |s: f64| gt_cache_path("/tmp/gt", &format!("{s:.4}"), s.to_bits());
    assert_eq!(path(0.25), "/tmp/gt.s0.2500-3fd0000000000000");
    assert_ne!(path(0.25), path(0.3));
    // Selectivities that are close have files and keys of their own.
    assert_ne!(path(0.00001), path(0.00002));
    let key = |s: f64| {
        let shown = format!("{s:.6}");
        let selectivity = s.to_bits();
        GtKey { source: "s", n: 1, dim: 1, queries: 1, kmax: 1, seed: 1, shown: &shown, selectivity }
            .text()
    };
    let (c, d) = (0.1234561f64, 0.1234562f64);
    assert_ne!(key(c), key(d));
    assert!(decode_gt(&encode_gt(&key(c), &[]), &key(d)).is_none());
}

#[test]
fn full_filter_is_no_filter() {
    let data = small_data(90, 3, 16);
    let ids: Vec<u32> = (0..90).collect();
    let full = guksu::Bitset::from_ids(90, &ids);
    for coarse in [
        Coarse::F32Control,
        Coarse::I8Sym,
        Coarse::BinSym,
        Coarse::BinAsymF32q,
        Coarse::BinAsymI8q,
    ] {
        for k in [0, 1, 7, 90, 200] {
            for q in 0..3 {
                assert_eq!(
                    scan_query(&data, &scalar(), coarse, q, k, Some(&full)),
                    scan_query(&data, &scalar(), coarse, q, k, None)
                );
            }
        }
    }
}

#[test]
fn exact_rerank_recalls_what_the_pool_holds() {
    let data = small_data(150, 8, 32);
    let kern = scalar();
    let ks = [4usize, 10];
    let gt = ground_truth(&data, &kern, 10, None);
    let rows = run_matrix(&data, &kern, &matrix(&[2, 4, 8], false), &ks, &gt, None);
    let exact: Vec<&Row> =
        rows.iter().filter(|r| r.coarse == "bin sym" && r.store == Some("f32")).collect();
    assert_eq!(exact.len(), 3);
    for row in &exact {
        let factor = row.factor.unwrap();
        for (ki, &k) in ks.iter().enumerate() {
            for q in 0..8 {
                let pool = scan_query(&data, &kern, Coarse::BinSym, q, factor * k, None);
                let held = gt[q][..k].iter().filter(|t| pool.iter().any(|p| p.id == t.id)).count();
                let want = Ratio { numerator: held as u128, denominator: k as u128 };
                assert_eq!(row.recalls[ki][q], want);
            }
        }
    }
    for pair in exact.windows(2) {
        for ki in 0..2 {
            for q in 0..8 {
                assert!(pair[0].recalls[ki][q].numerator <= pair[1].recalls[ki][q].numerator);
            }
            assert!(mean(&pair[0].recalls[ki]) <= mean(&pair[1].recalls[ki]));
        }
    }
}

#[test]
fn wide_rows_are_judged_by_their_codes() {
    // 133144 products of 127 * 127 still fit 31 bits, 133145 do not.
    for (dim, fits) in [(131_072usize, true), (133_144, true), (133_145, false)] {
        let ones = vec![1.0f32.to_bits(); dim];
        let data = Data::prepare(&ones, &ones, dim, &over).ok().unwrap();
        assert_eq!(scans_fit(&data), fits, "dim {dim}");
    }
    // The same length fits where the signs alternate.
    let dim = 133_145;
    let mixed: Vec<u32> =
        (0..dim).map(|i| if i % 2 == 0 { 1.0f32 } else { -1.0 }.to_bits()).collect();
    let ones = vec![1.0f32.to_bits(); dim];
    let data = Data::prepare(&mixed, &ones, dim, &over).ok().unwrap();
    assert!(scans_fit(&data));
    assert_eq!(scan_query(&data, &scalar(), Coarse::I8Sym, 0, 1, None).len(), 1);
    assert!(scans_fit(&small_data(5, 2, 8)));
}

#[test]
fn grid_lists_single_stages_first() {
    let cells = matrix(&[4], true);
    let singles: Vec<Coarse> =
        cells.iter().filter(|c| c.two_stage.is_none()).map(|c| c.coarse).collect();
    assert_eq!(
        singles,
        [Coarse::F32Control, Coarse::I8Sym, Coarse::BinSym, Coarse::BinAsymF32q, Coarse::BinAsymI8q]
    );
    assert_eq!(cells[11].coarse, Coarse::I8Sym);
    assert_eq!(cells[11].two_stage, Some((Store::F32, 4)));
}

#[test]
fn pools_share_one_scan() {
    let data = small_data(120, 6, 32);
    let kern = scalar();
    let ks = [3usize, 7];
    let gt = ground_truth(&data, &kern, 7, None);
    let rows = run_matrix(&data, &kern, &matrix(&[2, 3], false), &ks, &gt, None);
    let prefixes = gt_prefixes(&gt, &ks);
    // Every two-stage row is as if its own pool had been scanned.
    for row in rows.iter().filter(|r| r.store.is_some()) {
        let coarse = match row.coarse {
            "bin sym" => Coarse::BinSym,
            "bin asym f32q" => Coarse::BinAsymF32q,
            _ => Coarse::BinAsymI8q,
        };
        let store = if row.store == Some("i8") { Store::I8 } else { Store::F32 };
        let factor = row.factor.unwrap();
        for (ki, &k) in ks.iter().enumerate() {
            assert_eq!(row.pool_at[ki], Some(factor * k));
            for q in 0..data.queries() {
                let pool: Vec<u32> = scan_query(&data, &kern, coarse, q, factor * k, None)
                    .iter()
                    .map(|h| h.id)
                    .collect();
                let result = rerank_query(&data, &kern, store, q, &pool, factor, &[k]);
                let want = recall_at_k(&result[0], k, &prefixes[q][ki]);
                assert_eq!(row.recalls[ki][q], want, "{} q={q} k={k}", row.label());
            }
        }
    }
}

#[test]
fn filtered_runs_stay_in_the_filter() {
    let data = small_data(100, 4, 16);
    let filter = corpus_filter(100, 0.5f64.to_bits(), 3).unwrap();
    let gt = ground_truth(&data, &scalar(), 5, Some(&filter));
    assert!(gt.iter().all(|hits| hits.len() == 5 && hits.iter().all(|h| filter.contains(h.id))));
    let rows = run_matrix(&data, &scalar(), &matrix(&[2], false), &[5], &gt, Some(&filter));
    assert_eq!(rows.len(), 11);
    assert_eq!(mean(&rows[0].recalls[0]), 1.0);
}

#[test]
fn scans_and_reranks_are_asked_for_once_each() {
    let cells = [
        Cell { coarse: Coarse::BinSym, two_stage: Some((Store::F32, 2)) },
        Cell { coarse: Coarse::F32Control, two_stage: None },
        Cell { coarse: Coarse::BinSym, two_stage: Some((Store::I8, 5)) },
    ];
    let gt = vec![vec![hit(1, 1.0), hit(2, 0.5)]];
    let scan = |coarse: Coarse, k: usize| {
        if coarse == Coarse::BinSym {
            // The deepest pool serves both cells: five times the depth.
            assert_eq!(k, 10);
        } else {
            assert_eq!(k, 2);
        }
        vec![vec![hit(1, 1.0), hit(9, 0.5)]]
    };
    let rerank = |_: Store, pools: &Vec<Vec<u32>>, _: usize| {
        assert_eq!(pools, &vec![vec![1u32, 9]]);
        vec![vec![vec![hit(2, 1.0), hit(1, 1.0)]]]
    };
    let rows = run_matrix_with(1, &cells, &[2], &gt, &scan, &rerank);
    let labels: Vec<String> = rows.iter().map(Row::label).collect();
    assert_eq!(labels, ["f32 (control)", "bin sym       -> f32 x2", "bin sym       -> i8  x5"]);
    assert_eq!(rows[0].recalls[0][0], Ratio { numerator: 1, denominator: 2 });
    assert_eq!(rows[1].recalls[0][0], Ratio { numerator: 2, denominator: 2 });
    assert_eq!(rows[1].pool_at, [Some(4)]);
    assert_eq!(rows[2].pool_at, [Some(10)]);
    assert_eq!(rows[0].pool_at, [None]);
}

#[test]
fn preparing_data() {
    let data = small_data(12, 3, 16);
    assert_eq!(data.queries(), 3);
    assert_eq!(data.f32s.len(), 12);
    assert_eq!(data.bins.dim(), 16);
    assert_eq!(
        Data::prepare(&[0; 5], &[0; 4], 2, &over).err(),
        Some(StorageError::Ragged { data_len: 5, row_len: 2 })
    );
    assert_eq!(Data::prepare(&[], &[], 0, &over).err(), Some(StorageError::ZeroDim));
}

#[test]
fn ground_truth_recalls_itself() {
    let gt = vec![vec![hit(4, 3.0), hit(2, 2.0), hit(9, 1.0)]];
    for k in 1..5 {
        let pre = gt_prefixes(&gt, &[k]);
        assert_eq!(value(recall_at_k(&gt[0], k, &pre[0][0])), 1.0);
    }
}

fn sample_rows() -> Vec<Row> {
    vec![
        Row {
            coarse: "int8 sym",
            store: None,
            factor: None,
            pool_at: vec![None],
            recalls: vec![vec![Ratio { numerator: 1, denominator: 2 }]],
        },
        Row {
            coarse: "bin sym",
            store: Some("i8"),
            factor: Some(4),
            pool_at: vec![Some(40)],
            recalls: vec![vec![Ratio { numerator: 1, denominator: 1 }]],
        },
    ]
}

fn measured(recalls: &[&str], us: &str) -> Measured {
    Measured {
        recalls: recalls.iter().map(|s| s.to_string()).collect(),
        us_per_query: us.to_string(),
    }
}

#[test]
fn table_is_aligned() {
    let m = [measured(&["0.5000"], "12"), measured(&["1.0000"], "3")];
    let got = table_text(&sample_rows(), &[10], &m);
    let label_w = sample_rows().iter().map(|r| r.label().len()).max().unwrap();
    let mut want = format!("{:<label_w$}  {:>6}  {:>11}  {:>8}\n", "config", "R@10", "recall@10", "us/q");
    want += &format!("{:<label_w$}  {:>6}  {:>11}  {:>8}\n", "int8 sym", "-", "0.5000", "12");
    want += &format!(
        "{:<label_w$}  {:>6}  {:>11}  {:>8}\n",
        "bin sym       -> i8  x4", "40", "1.0000", "3"
    );
    assert_eq!(got, want);
}

#[test]
fn csv_has_one_line_per_row_and_depth() {
    let m = [measured(&["0.500000"], "12.0"), measured(&["1.000000"], "3.0")];
    let meta = CsvMeta { n: 7, dim: 8, queries: 9, seed: 42, backend: "scalar" };
    let lines = "0.5,int8 sym,int8 sym,,,10,,0.500000,12.0,7,8,9,42,scalar\n\
                 0.5,bin sym       -> i8  x4,bin sym,i8,4,10,40,1.000000,3.0,7,8,9,42,scalar\n";
    assert_eq!(csv_text(false, "0.5", &sample_rows(), &[10], &m, &meta), lines);
    assert_eq!(
        csv_text(true, "0.5", &sample_rows(), &[10], &m, &meta),
        format!("{CSV_HEADER}{lines}")
    );
}

#[test]
fn report_texts() {
    assert_eq!(synthetic_source(Dist::Gmm, 1024, 42), "synthetic:gmm(1024):seed42");
    assert_eq!(synthetic_source(Dist::Uniform, 1024, 7), "synthetic:uniform:seed7");
    assert_eq!(file_source("a/b.npy", 4096), "file:a/b.npy(4096B)");
    assert_eq!(dims_error(3, 3), None);
    assert_eq!(dims_error(3, 4).unwrap(), "corpus dim 3 != query dim 4");
    assert_eq!(vector_bytes(1027), (4108, 1031, 129));
    assert_eq!(degenerate_warning(80, 10, "0.1"), None);
    assert_eq!(
        degenerate_warning(79, 10, "0.1").unwrap(),
        "warning: only 79 filter survivors at s=0.1 (< 8·kmax = 80) — cells are degenerate"
    );
    assert_eq!(filter_label(true, "0.10", 99), "s=0.10 (99 candidates)");
    assert_eq!(filter_label(false, "1.00", 1000), "none (s=1.00, 1000 candidates)");
    let key = GtKey {
        source: "synthetic:uniform:seed7",
        n: 10,
        dim: 4,
        queries: 2,
        kmax: 100,
        seed: 7,
        shown: "0.100000",
        selectivity: 0.1f64.to_bits(),
    };
    assert_eq!(
        key.text(),
        "guksu-gt v1 | source=synthetic:uniform:seed7 | n=10 dim=4 q=2 kmax=100 seed=7 s=0.100000-3fb999999999999a"
    );
}

#[test]
fn filters_of_a_selectivity() {
    assert!(corpus_filter(10, 1.0f64.to_bits(), 1).is_none());
    let s = 0.3f64;
    let f = corpus_filter(1000, s.to_bits(), 42).unwrap();
    let want = guksu::Bitset::random(1000, s.to_bits(), 42 ^ s.to_bits());
    assert_eq!(f.iter_ones(), want.iter_ones());
    assert_eq!(candidate_count(Some(&f), 1000), want.count_ones());
    assert_eq!(candidate_count(None, 1000), 1000);
}

#[test]
fn every_row_is_checked() {
    let even = |row: &[u32]| row[0] % 2 == 0;
    let flat: Vec<u32> = (0..400).flat_map(|i| [2 * i, 7]).collect();
    assert_eq!(first_rejected(&flat, 2, &even), None);
    let mut odd = flat.clone();
    odd[2 * 99] += 1;
    odd[2 * 100] += 1;
    assert_eq!(first_rejected(&odd, 2, &even), Some(99));
    odd[2 * 99] -= 1;
    assert_eq!(first_rejected(&odd, 2, &even), Some(100));
    odd[2 * 100] -= 1;
    odd[2 * 399] += 1;
    assert_eq!(first_rejected(&odd, 2, &even), Some(399));
    assert_eq!(first_rejected(&[1, 2], 2, &even), Some(0));
    assert_eq!(first_rejected(&[], 2, &even), None);
    assert_eq!(
        norm_error("corpus", 3, "1.2500"),
        "corpus row 3 has L2 norm 1.2500, expected 1.0 — pass --normalize to normalize file data"
    );
}

#[test]
fn rows_are_changed_one_by_one() {
    let flat = [1.0f32, 0.0, 3.0, 4.0].map(f32::to_bits);
    let unit: Vec<f32> = change_rows(&flat, 2, &normalize).into_iter().map(f32::from_bits).collect();
    assert_eq!(unit, [1.0, 0.0, 0.6, 0.8]);
}
