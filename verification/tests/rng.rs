use guksu::rng::SplitMix64;

fn box_muller(u1: u64, u2: u64) -> (u64, u64) {
    let r = (-2.0 * f64::from_bits(u1).ln()).sqrt();
    let theta = std::f64::consts::TAU * f64::from_bits(u2);
    ((r * theta.cos()).to_bits(), (r * theta.sin()).to_bits())
}

#[test]
fn known_vectors_seed_zero() {
    let mut r = SplitMix64::new(0);
    assert_eq!(r.next_u64(), 0xE220A8397B1DCDAF);
    assert_eq!(r.next_u64(), 0x6E789E6AA1B965F4);
}

#[test]
fn deterministic_per_seed() {
    let a: Vec<u64> = {
        let mut r = SplitMix64::new(42);
        (0..64).map(|_| r.next_u64()).collect()
    };
    let b: Vec<u64> = {
        let mut r = SplitMix64::new(42);
        (0..64).map(|_| r.next_u64()).collect()
    };
    assert_eq!(a, b);
    let c = {
        let mut r = SplitMix64::new(43);
        r.next_u64()
    };
    assert_ne!(a[0], c);
}

#[test]
fn substreams_differ_and_are_deterministic() {
    let first = |i: u64| SplitMix64::substream(7, i).next_u64();
    assert_eq!(first(0), first(0));
    assert_ne!(first(0), first(1));
    assert_ne!(first(1), first(2));
}

#[test]
fn uniform_range_and_moments() {
    let mut r = SplitMix64::new(1);
    let n = 100_000;
    let mut sum = 0.0;
    for _ in 0..n {
        let x = f64::from_bits(r.next_f64());
        assert!((0.0..1.0).contains(&x));
        sum += x;
    }
    let mean = sum / n as f64;
    assert!((mean - 0.5).abs() < 0.01, "mean {mean}");
    for bound in [1u64, 2, 3, 1000] {
        for _ in 0..1000 {
            assert!(r.next_range(bound) < bound);
        }
    }
}

#[test]
fn gaussian_moments() {
    let mut r = SplitMix64::new(2);
    let n = 100_000;
    let (mut sum, mut sum_sq) = (0.0, 0.0);
    for _ in 0..n {
        let g = f64::from_bits(r.next_gaussian(&box_muller));
        assert!(g.is_finite());
        sum += g;
        sum_sq += g * g;
    }
    let mean = sum / n as f64;
    let var = sum_sq / n as f64 - mean * mean;
    assert!(mean.abs() < 0.02, "mean {mean}");
    assert!((var - 1.0).abs() < 0.03, "var {var}");
}

#[test]
fn uniform_patterns_are_the_exact_fractions() {
    let mut a = SplitMix64::new(77);
    let mut b = SplitMix64::new(77);
    for _ in 0..2000 {
        let exact = (a.next_u64() >> 11) as f64 * (1.0 / (1u64 << 53) as f64);
        assert_eq!(b.next_f64(), exact.to_bits());
    }
    let mut c = SplitMix64::new(78);
    let mut d = SplitMix64::new(78);
    for _ in 0..2000 {
        let exact = (c.next_u64() >> 11) as f64 * (1.0 / (1u64 << 53) as f64);
        assert_eq!(d.next_f32(), (exact as f32).to_bits());
    }
}

#[test]
fn single_precision_stays_below_one() {
    // The first number of this seed is u64::MAX: its fraction would round to 1.
    let seed = 0x3162_8AF6_7B21_31AB;
    assert_eq!(SplitMix64::new(seed).next_u64(), u64::MAX);
    assert_eq!(SplitMix64::new(seed).next_f32(), 0x3F7F_FFFF);
    let mut r = SplitMix64::new(9);
    for _ in 0..10_000 {
        assert!((0.0..1.0).contains(&f32::from_bits(r.next_f32())));
    }
}

#[test]
fn gaussians_come_in_pairs() {
    let mut a = SplitMix64::new(5);
    let mut b = SplitMix64::new(5);
    let u1 = 1.0 - f64::from_bits(a.next_f64());
    let u2 = f64::from_bits(a.next_f64());
    let (first, second) = box_muller(u1.to_bits(), u2.to_bits());
    assert_eq!(b.next_gaussian(&box_muller), first);
    assert_eq!(b.next_gaussian(&box_muller), second);
    // Both generators have consumed the same two numbers.
    assert_eq!(a.next_u64(), b.next_u64());
}

#[test]
fn range_is_a_multiply_and_shift() {
    let mut a = SplitMix64::new(6);
    let mut b = SplitMix64::new(6);
    for n in [0u64, 1, 10, u64::MAX] {
        let x = a.next_u64();
        assert_eq!(b.next_range(n), ((x as u128 * n as u128) >> 64) as u64);
    }
}
