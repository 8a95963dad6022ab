use guksu::rng::SplitMix64;
use guksu::Bitset;

#[test]
fn set_contains_across_word_boundaries() {
    let mut bs = Bitset::new(130);
    for id in [0u32, 1, 63, 64, 65, 127, 128, 129] {
        assert!(!bs.contains(id));
        bs.set(id);
        assert!(bs.contains(id));
    }
    assert!(!bs.contains(2));
    assert!(!bs.contains(126));
}

#[test]
fn count_ones_with_partial_tail_word() {
    let mut bs = Bitset::new(70);
    for id in [0u32, 63, 64, 69] {
        bs.set(id);
    }
    assert_eq!(bs.count_ones(), 4);
    bs.set(69); // idempotent
    assert_eq!(bs.count_ones(), 4);
}

#[test]
fn iter_ones_matches_contains() {
    let ids = [0u32, 5, 63, 64, 100, 191, 192, 250];
    let bs = Bitset::from_ids(251, &ids);
    let via_iter: Vec<u32> = bs.iter_ones();
    let via_contains: Vec<u32> = (0..251).filter(|&i| bs.contains(i)).collect();
    assert_eq!(via_iter, ids);
    assert_eq!(via_iter, via_contains);
}

#[test]
fn iter_ones_empty_and_full() {
    assert_eq!(Bitset::new(100).iter_ones().len(), 0);
    assert_eq!(Bitset::new(0).iter_ones().len(), 0);
    let ids: Vec<u32> = (0..65).collect();
    let full = Bitset::from_ids(65, &ids);
    assert_eq!(full.iter_ones(), (0..65).collect::<Vec<_>>());
}

#[test]
fn random_is_deterministic_and_calibrated() {
    let a = Bitset::random(100_000, 0.1f64.to_bits(), 42);
    let b = Bitset::random(100_000, 0.1f64.to_bits(), 42);
    let a_ids: Vec<u32> = a.iter_ones();
    assert_eq!(a_ids, b.iter_ones());
    assert_ne!(a_ids, Bitset::random(100_000, 0.1f64.to_bits(), 43).iter_ones());
    let rate = a.count_ones() as f64 / 100_000.0;
    assert!((rate - 0.1).abs() < 0.01, "selectivity {rate}");
    assert_eq!(Bitset::random(1000, 0.0f64.to_bits(), 1).count_ones(), 0);
    assert_eq!(Bitset::random(1000, 1.0f64.to_bits(), 1).count_ones(), 1000);
}

#[test]
fn random_follows_the_uniform_stream() {
    let keep = 0.37f64;
    let bs = Bitset::random(500, keep.to_bits(), 9);
    let mut rng = SplitMix64::new(9);
    for id in 0..500u32 {
        let u = f64::from_bits(rng.next_f64());
        assert_eq!(bs.contains(id), u < keep, "id {id}");
    }
}

#[test]
fn random_with_nan_keeps_nothing() {
    assert_eq!(Bitset::random(64, f64::NAN.to_bits(), 3).count_ones(), 0);
}

#[test]
fn sizes_and_emptiness() {
    assert_eq!(Bitset::new(130).len(), 130);
    assert!(!Bitset::new(1).is_empty());
    assert!(Bitset::new(0).is_empty());
    assert_eq!(Bitset::new(0).count_ones(), 0);
}

#[test]
fn greater_fractions_keep_more() {
    let ids = |s: f64| Bitset::random(500, s.to_bits(), 17).iter_ones();
    assert!(ids(0.0).is_empty());
    assert!(ids(-0.0).is_empty());
    assert_eq!(ids(1.0), (0..500).collect::<Vec<u32>>());
    let mut smaller = ids(0.0);
    for s in [0.01, 0.2, 0.5, 0.9, 1.0] {
        let greater = ids(s);
        assert!(smaller.iter().all(|id| greater.contains(id)));
        assert!(smaller.len() < greater.len());
        smaller = greater;
    }
}
