use guksu::kernels::backend::{Arch, Backend, Features};
use guksu::kernels::{
    binary_code_len, dot_f32, dot_f32_bin, dot_i8, dot_i8_bin, dot_i8_scaled, hamming, hamming_score,
};
use guksu::quant::{max_abs_scale, pack_sign_bits_vec, quantize_i8_vec, unpack_sign_bits};
use guksu::rng::SplitMix64;

fn times(x: u32, y: u32) -> u32 {
    (f32::from_bits(x) * f32::from_bits(y)).to_bits()
}

fn plus(x: u32, y: u32) -> u32 {
    (f32::from_bits(x) + f32::from_bits(y)).to_bits()
}

fn over(x: u32, y: u32) -> u32 {
    (f32::from_bits(x) / f32::from_bits(y)).to_bits()
}

fn fma(x: u32, y: u32, z: u32) -> u32 {
    f32::from_bits(x).mul_add(f32::from_bits(y), f32::from_bits(z)).to_bits()
}

fn box_muller(u1: u64, u2: u64) -> (u64, u64) {
    let r = (-2.0 * f64::from_bits(u1).ln()).sqrt();
    let theta = std::f64::consts::TAU * f64::from_bits(u2);
    ((r * theta.cos()).to_bits(), (r * theta.sin()).to_bits())
}

fn bits(v: &[f32]) -> Vec<u32> {
    v.iter().map(|x| x.to_bits()).collect()
}

fn scalar_dot(a: &[f32], b: &[f32]) -> f32 {
    f32::from_bits(dot_f32(&bits(a), &bits(b), Backend::Scalar, &fma, &times, &plus))
}

fn scalar_dot_bin(q: &[f32], code: &[u8]) -> f32 {
    f32::from_bits(dot_f32_bin(&bits(q), code, Backend::Scalar, &plus))
}

fn bit(code: &[u8], i: usize) -> bool {
    (code[i / 8] >> (7 - (i % 8))) & 1 == 1
}

fn uniform(rng: &mut SplitMix64, d: usize) -> Vec<f32> {
    (0..d).map(|_| f32::from_bits(rng.next_f32()) * 2.0 - 1.0).collect()
}

fn normalized_gaussian(rng: &mut SplitMix64, d: usize) -> Vec<f32> {
    let mut v: Vec<f32> =
        (0..d).map(|_| f64::from_bits(rng.next_gaussian(&box_muller)) as f32).collect();
    let norm = v.iter().map(|&x| (x as f64) * (x as f64)).sum::<f64>().sqrt() as f32;
    if norm > 0.0 {
        for x in &mut v {
            *x /= norm;
        }
    }
    v
}

fn full_domain_i8(rng: &mut SplitMix64, d: usize) -> Vec<i8> {
    (0..d).map(|_| (rng.next_range(256) as i16 - 128) as i8).collect()
}

fn random_code(rng: &mut SplitMix64, d: usize) -> Vec<u8> {
    let n = binary_code_len(d);
    let mut c: Vec<u8> = (0..n).map(|_| rng.next_range(256) as u8).collect();
    let pad = n * 8 - d;
    if pad > 0 {
        c[n - 1] &= 0xFFu8 << pad;
    }
    c
}

#[test]
fn empty_inputs_are_zero() {
    assert_eq!(scalar_dot(&[], &[]), 0.0);
    assert_eq!(dot_i8(&[], &[]), 0);
    assert_eq!(hamming(&[], &[]), 0);
    assert_eq!(scalar_dot_bin(&[], &[]), 0.0);
    assert_eq!(dot_i8_bin(&[], &[]), 0);
}

#[test]
fn i8_extremes_exact() {
    // Alternating ±127 self-dot: every term is +16129.
    let alt: Vec<i8> = (0..1024).map(|i| if i % 2 == 0 { 127 } else { -127 }).collect();
    assert_eq!(dot_i8(&alt, &alt), 1024 * 16129);

    // Full-domain −128 must be exact.
    let neg = vec![-128i8; 1024];
    assert_eq!(dot_i8(&neg, &neg), 1024 * 16384);
    let pos = vec![127i8; 1024];
    assert_eq!(dot_i8(&neg, &pos), 1024 * -128 * 127);
}

#[test]
fn f32_specials_pass_through() {
    assert_eq!(scalar_dot(&[0.0, -0.0], &[1.0, 1.0]), 0.0);
    assert!(scalar_dot(&[1e30], &[1e30]).is_infinite());
    assert!(scalar_dot(&[f32::NAN], &[1.0]).is_nan());
    assert!(scalar_dot_bin(&[f32::NAN], &[0x80]).is_nan());
    // Denormal inputs stay finite, no panic.
    assert!(scalar_dot(&[1e-40], &[1e-40]).is_finite());
}

#[test]
fn hamming_matches_per_bit_naive() {
    let mut rng = SplitMix64::new(11);
    for d in [1usize, 2, 7, 8, 9, 15, 16, 17, 63, 64, 65, 127, 128, 1000, 1024, 1027] {
        for _ in 0..20 {
            let a = random_code(&mut rng, d);
            let b = random_code(&mut rng, d);
            let naive: u32 = (0..d).map(|i| (bit(&a, i) != bit(&b, i)) as u32).sum();
            assert_eq!(hamming(&a, &b), naive, "d={d}");
            assert_eq!(hamming(&a, &b), hamming(&b, &a), "d={d}");
            assert_eq!(hamming(&a, &a), 0, "d={d}");
        }
    }
}

#[test]
fn dirty_padding_corrupts_hamming() {
    // The zero-padding contract is load-bearing: equal codes with unequal
    // padding bits do NOT compare equal. d = 13: 2 bytes, 3 padding bits.
    let clean = pack_sign_bits_vec(&bits(&[1.0f32; 13]));
    let mut dirty = clean.clone();
    dirty[1] |= 0b0000_0101;
    assert_eq!(hamming(&clean, &clean), 0);
    assert_eq!(hamming(&clean, &dirty), 2);
}

#[test]
fn asym_f32_bin_equals_unpacked_dot_exactly_on_scalar() {
    let mut rng = SplitMix64::new(12);
    for d in [1usize, 7, 8, 64, 65, 1000, 1024, 1027] {
        let q = normalized_gaussian(&mut rng, d);
        let x = normalized_gaussian(&mut rng, d);
        let code = pack_sign_bits_vec(&bits(&x));
        let mut unpacked = vec![0u32; d];
        unpack_sign_bits(&code, &mut unpacked);
        assert_eq!(
            f32::from_bits(dot_f32_bin(&bits(&q), &code, Backend::Scalar, &plus)),
            f32::from_bits(dot_f32(&bits(&q), &unpacked, Backend::Scalar, &fma, &times, &plus)),
            "d={d}"
        );
    }
}

#[test]
fn asym_i8_bin_matches_naive() {
    let mut rng = SplitMix64::new(13);
    for d in [1usize, 7, 8, 64, 65, 1000, 1024, 1027] {
        let q: Vec<i8> = (0..d).map(|_| (rng.next_range(256) as i16 - 128) as i8).collect();
        let code = random_code(&mut rng, d);
        let naive: i32 =
            (0..d).map(|i| if bit(&code, i) { q[i] as i32 } else { -(q[i] as i32) }).sum();
        assert_eq!(dot_i8_bin(&q, &code), naive, "d={d}");
    }
}

#[test]
fn i8_scaled_tracks_f32_dot_statistically() {
    // Symmetric per-vector int8 on normalized 1024-dim vectors stays within
    // 0.02 of the single-precision dot.
    let mut rng = SplitMix64::new(14);
    let d = 1024;
    for _ in 0..1000 {
        let a = bits(&normalized_gaussian(&mut rng, d));
        let b = bits(&normalized_gaussian(&mut rng, d));
        let (sa, sb) = (max_abs_scale(&a, &over), max_abs_scale(&b, &over));
        let qa = quantize_i8_vec(&a, sa, &over);
        let qb = quantize_i8_vec(&b, sb, &over);
        let approx = f32::from_bits(dot_i8_scaled(&qa, sa, &qb, sb, &times));
        let exact = f32::from_bits(dot_f32(&a, &b, Backend::Scalar, &fma, &times, &plus));
        assert!((approx - exact).abs() < 0.02, "{approx} vs {exact}");
    }
}

/// The vector backends, whichever architecture they belong to.
fn vector_backends() -> Vec<Backend> {
    let mut all = Backend::all(Arch::Aarch64);
    all.extend(Backend::all(Arch::X86_64));
    all.into_iter().filter(|b| b.name() != "scalar").collect()
}

/// (double-precision dot, sum of |terms|): the reference and the scale of its
/// error bound.
fn dot_ref_f64(a: &[f32], b: &[f32]) -> (f64, f64) {
    let mut s = 0.0f64;
    let mut sum_abs = 0.0f64;
    for (&x, &y) in a.iter().zip(b) {
        let t = x as f64 * y as f64;
        s += t;
        sum_abs += t.abs();
    }
    (s, sum_abs)
}

fn f32_bin_ref_f64(q: &[f32], code: &[u8]) -> (f64, f64) {
    let mut s = 0.0f64;
    let mut sum_abs = 0.0f64;
    for (i, &qi) in q.iter().enumerate() {
        s += if bit(code, i) { qi as f64 } else { -(qi as f64) };
        sum_abs += (qi as f64).abs();
    }
    (s, sum_abs)
}

fn assert_close(x: f32, ref_f64: f64, sum_abs: f64, ctx: &str) {
    let tol = 32.0 * f32::EPSILON as f64 * sum_abs.max(f32::MIN_POSITIVE as f64);
    assert!(
        (x as f64 - ref_f64).abs() <= tol,
        "{ctx}: {x} vs f64 ref {ref_f64} (tol {tol:.3e})"
    );
}

#[test]
fn every_backend_agrees_with_scalar() {
    let dims = [
        1usize, 2, 3, 7, 8, 9, 15, 16, 17, 31, 32, 33, 63, 64, 65, 127, 128, 129, 255, 256, 1000, 1024,
        1027,
    ];
    let tabs = vector_backends();
    let mut rng = SplitMix64::new(0xC0FFEE);
    for &d in &dims {
        for pair in 0..100 {
            for (a, b, shape) in [
                (uniform(&mut rng, d), uniform(&mut rng, d), "uniform"),
                (normalized_gaussian(&mut rng, d), normalized_gaussian(&mut rng, d), "normalized"),
            ] {
                let (rf, sa) = dot_ref_f64(&a, &b);
                let (a, b) = (bits(&a), bits(&b));
                let ctx = format!("dot_f32[scalar] d={d} pair={pair} {shape}");
                let s = Backend::scalar().dot_f32(&a, &b, &fma, &times, &plus);
                assert_eq!(s, dot_f32(&a, &b, Backend::Scalar, &fma, &times, &plus));
                assert_close(f32::from_bits(s), rf, sa, &ctx);
                for t in &tabs {
                    let ctx = format!("dot_f32[{}] d={d} pair={pair} {shape}", t.name());
                    let x = t.dot_f32(&a, &b, &fma, &times, &plus);
                    assert_close(f32::from_bits(x), rf, sa, &ctx);
                }
            }
            // The integer kernels agree exactly.
            let ia = full_domain_i8(&mut rng, d);
            let ib = full_domain_i8(&mut rng, d);
            let naive: i32 = ia.iter().zip(&ib).map(|(&x, &y)| x as i32 * y as i32).sum();
            assert_eq!(dot_i8(&ia, &ib), naive, "dot_i8 d={d} pair={pair}");
            for t in &tabs {
                assert_eq!(t.dot_i8(&ia, &ib), naive, "dot_i8[{}] d={d} pair={pair}", t.name());
            }
            let ca = random_code(&mut rng, d);
            let cb = random_code(&mut rng, d);
            let differing: u32 = (0..d).map(|i| (bit(&ca, i) != bit(&cb, i)) as u32).sum();
            assert_eq!(hamming(&ca, &cb), differing, "hamming d={d} pair={pair}");
            for t in &tabs {
                assert_eq!(t.hamming(&ca, &cb), differing, "hamming[{}] d={d} pair={pair}", t.name());
            }

            let q = normalized_gaussian(&mut rng, d);
            let (rfb, sab) = f32_bin_ref_f64(&q, &ca);
            let q = bits(&q);
            let ctx = format!("dot_f32_bin[scalar] d={d} pair={pair}");
            let s = Backend::scalar().dot_f32_bin(&q, &ca, &plus);
            assert_eq!(s, dot_f32_bin(&q, &ca, Backend::Scalar, &plus));
            assert_close(f32::from_bits(s), rfb, sab, &ctx);
            for t in &tabs {
                let ctx = format!("dot_f32_bin[{}] d={d} pair={pair}", t.name());
                assert_close(f32::from_bits(t.dot_f32_bin(&q, &ca, &plus)), rfb, sab, &ctx);
            }

            let iq = full_domain_i8(&mut rng, d);
            let signed: i32 =
                (0..d).map(|i| if bit(&cb, i) { iq[i] as i32 } else { -(iq[i] as i32) }).sum();
            assert_eq!(dot_i8_bin(&iq, &cb), signed, "dot_i8_bin d={d} pair={pair}");
            for t in &tabs {
                assert_eq!(
                    t.dot_i8_bin(&iq, &cb),
                    signed,
                    "dot_i8_bin[{}] d={d} pair={pair}",
                    t.name()
                );
            }
        }
    }
}

#[test]
fn every_backend_agrees_on_extremes() {
    let alt: Vec<i8> = (0..1024).map(|i| if i % 2 == 0 { 127 } else { -127 }).collect();
    let neg = vec![-128i8; 1024];
    let pos = vec![127i8; 1024];
    let ones = vec![0xFFu8; 128];
    let zeros = vec![0u8; 128];
    let s = Backend::scalar();
    for t in vector_backends() {
        for (a, b) in [(&alt, &alt), (&neg, &neg), (&neg, &pos), (&alt, &neg)] {
            assert_eq!(s.dot_i8(a, b), t.dot_i8(a, b), "dot_i8[{}]", t.name());
        }
        assert_eq!(s.hamming(&ones, &zeros), t.hamming(&ones, &zeros));
        assert_eq!(s.hamming(&ones, &ones), t.hamming(&ones, &ones));
        for code in [&ones, &zeros] {
            assert_eq!(s.dot_i8_bin(&neg, code), t.dot_i8_bin(&neg, code), "dot_i8_bin[{}]", t.name());
            assert_eq!(s.dot_i8_bin(&pos, code), t.dot_i8_bin(&pos, code), "dot_i8_bin[{}]", t.name());
        }
    }
    assert_eq!(hamming(&ones, &zeros), 1024);
    assert_eq!(dot_i8_bin(&neg, &ones), -128 * 1024);
    assert_eq!(dot_i8_bin(&pos, &zeros), -127 * 1024);
}

#[test]
fn long_rows_count_exactly() {
    // More than 512 steps of 16 bytes, so that narrow lanes are emptied.
    let ones = vec![0xFFu8; 20_001];
    let zeros = vec![0u8; 20_001];
    for t in vector_backends() {
        assert_eq!(t.hamming(&ones, &zeros), 160_008, "{}", t.name());
        assert_eq!(t.hamming(&ones, &ones), 0, "{}", t.name());
    }
}

#[test]
fn apple_silicon_detects_neon_dotprod() {
    let features = Features { avx2: false, fma: false, popcnt: false, dotprod: true };
    assert_eq!(Backend::best(Arch::Aarch64, features).name(), "neon_dotprod");
}

#[test]
fn backend_choice() {
    let none = Features { avx2: false, fma: false, popcnt: false, dotprod: false };
    let all = Features { avx2: true, fma: true, popcnt: true, dotprod: true };
    let no_popcnt = Features { popcnt: false, ..all };
    assert_eq!(Backend::best(Arch::X86_64, all), Backend::Avx2);
    assert_eq!(Backend::best(Arch::X86_64, no_popcnt), Backend::Scalar);
    assert_eq!(Backend::best(Arch::X86_64, none), Backend::Scalar);
    assert_eq!(Backend::best(Arch::Aarch64, none), Backend::Neon);
    assert_eq!(Backend::best(Arch::Other, all), Backend::Scalar);
    assert_eq!(Backend::by_name("avx2", Arch::X86_64, all), Some(Backend::Avx2));
    assert_eq!(Backend::by_name("avx2", Arch::X86_64, no_popcnt), None);
    assert_eq!(Backend::by_name("avx2", Arch::Aarch64, all), None);
    assert_eq!(Backend::by_name("neon_dotprod", Arch::Aarch64, all), Some(Backend::NeonDotprod));
    assert_eq!(Backend::by_name("scalar", Arch::Other, none), Some(Backend::Scalar));
    assert_eq!(Backend::by_name("sse", Arch::X86_64, all), None);
    let names: Vec<&str> = Backend::all(Arch::Aarch64).iter().map(|b| b.name()).collect();
    assert_eq!(names, ["scalar", "neon", "neon_dotprod"]);
    let names: Vec<&str> = Backend::all(Arch::X86_64).iter().map(|b| b.name()).collect();
    assert_eq!(names, ["scalar", "avx2"]);
}

/// The AVX2 order, spelled out on plain numbers: four registers of eight lanes.
#[test]
fn avx2_order_is_reproduced_exactly() {
    let mut rng = SplitMix64::new(99);
    for n in [0usize, 5, 8, 31, 32, 40, 71, 129] {
        let a = uniform(&mut rng, n);
        let b = uniform(&mut rng, n);
        let mut acc = [[0.0f32; 8]; 4];
        let mut i = 0;
        while i + 32 <= n {
            for r in 0..4 {
                for l in 0..8 {
                    let k = i + 8 * r + l;
                    acc[r][l] = a[k].mul_add(b[k], acc[r][l]);
                }
            }
            i += 32;
        }
        while i + 8 <= n {
            for l in 0..8 {
                acc[0][l] = a[i + l].mul_add(b[i + l], acc[0][l]);
            }
            i += 8;
        }
        let s: Vec<f32> =
            (0..8).map(|l| (acc[0][l] + acc[1][l]) + (acc[2][l] + acc[3][l])).collect();
        let t: Vec<f32> = (0..4).map(|l| s[l] + s[l + 4]).collect();
        let mut sum = (t[0] + t[2]) + (t[1] + t[3]);
        while i < n {
            sum += a[i] * b[i];
            i += 1;
        }
        let got = Backend::Avx2.dot_f32(&bits(&a), &bits(&b), &fma, &times, &plus);
        assert_eq!(got, sum.to_bits(), "n={n}");
    }
}

/// The NEON order of the asymmetric kernel: two registers of four lanes.
#[test]
fn neon_asymmetric_order_is_reproduced_exactly() {
    let mut rng = SplitMix64::new(98);
    for n in [0usize, 3, 8, 9, 16, 43] {
        let q = uniform(&mut rng, n);
        let code = random_code(&mut rng, n);
        let signed = |i: usize| if bit(&code, i) { q[i] } else { -q[i] };
        let mut acc = [0.0f32; 8];
        for byte in 0..n / 8 {
            for l in 0..8 {
                acc[l] += signed(8 * byte + l);
            }
        }
        let s: Vec<f32> = (0..4).map(|l| acc[l] + acc[l + 4]).collect();
        let mut sum = (s[0] + s[1]) + (s[2] + s[3]);
        for t in n / 8 * 8..n {
            sum += signed(t);
        }
        assert_eq!(Backend::Neon.dot_f32_bin(&bits(&q), &code, &plus), sum.to_bits(), "n={n}");
    }
}

#[test]
fn nan_passes_through_every_backend() {
    let mut rng = SplitMix64::new(97);
    for b in vector_backends() {
        for n in [1usize, 8, 33, 70] {
            for i in 0..n {
                let mut a = uniform(&mut rng, n);
                let c = uniform(&mut rng, n);
                a[i] = f32::NAN;
                let r = b.dot_f32(&bits(&a), &bits(&c), &fma, &times, &plus);
                assert!(f32::from_bits(r).is_nan());
                let code = random_code(&mut rng, n);
                assert!(f32::from_bits(b.dot_f32_bin(&bits(&a), &code, &plus)).is_nan());
            }
        }
    }
}

#[test]
fn hamming_scores_are_negated_distances() {
    assert_eq!(f32::from_bits(hamming_score(&[0xFF, 0x0F], &[0x00, 0x00])), -12.0);
    assert_eq!(hamming_score(&[0x55], &[0x55]), (-0.0f32).to_bits());
}

#[test]
fn lower_distances_score_higher() {
    let zeros = vec![0u8; 16];
    let mut codes: Vec<Vec<u8>> = Vec::new();
    for d in 0..128usize {
        let mut code = vec![0u8; 16];
        for i in 0..d {
            code[i / 8] |= 0x80 >> (i % 8);
        }
        codes.push(code);
    }
    for pair in codes.windows(2) {
        let (near, far) = (hamming_score(&pair[0], &zeros), hamming_score(&pair[1], &zeros));
        assert!(f32::from_bits(near).total_cmp(&f32::from_bits(far)).is_gt());
    }
}

#[test]
fn asymmetric_kernels_never_read_padding() {
    let mut rng = SplitMix64::new(15);
    let q = bits(&uniform(&mut rng, 13));
    let iq = full_domain_i8(&mut rng, 13);
    let clean = random_code(&mut rng, 13);
    let mut dirty = clean.clone();
    dirty[1] |= 0b0000_0111;
    assert_eq!(dot_i8_bin(&iq, &clean), dot_i8_bin(&iq, &dirty));
    assert_eq!(dot_f32_bin(&q, &clean, Backend::Scalar, &plus), dot_f32_bin(&q, &dirty, Backend::Scalar, &plus));
    for t in vector_backends() {
        assert_eq!(t.dot_i8_bin(&iq, &clean), t.dot_i8_bin(&iq, &dirty), "{}", t.name());
        assert_eq!(t.dot_f32_bin(&q, &clean, &plus), t.dot_f32_bin(&q, &dirty, &plus), "{}", t.name());
    }
}

#[test]
fn free_functions_follow_the_detected_backend() {
    // In eight lanes the small terms are added to each other first; one after
    // another they vanish beside the great one.
    let great = 16_777_216.0f32;
    let a = bits(&[great, 1.0, 0.0, 0.0, 0.0, 1.0, 0.0, 0.0]);
    let ones = bits(&[1.0; 8]);
    let by = |b: Backend| f32::from_bits(dot_f32(&a, &ones, b, &fma, &times, &plus));
    assert_eq!(by(Backend::Scalar), great);
    assert_eq!(by(Backend::Avx2), great + 2.0);
    assert_eq!(guksu::kernels::scalar::dot_f32(&a, &ones, &times, &plus), great.to_bits());
    let mut rng = SplitMix64::new(12);
    for d in [1usize, 7, 8, 33, 100] {
        let a: Vec<u32> = (0..d).map(|_| rng.next_f32()).collect();
        let b: Vec<u32> = (0..d).map(|_| rng.next_f32()).collect();
        let code = pack_sign_bits_vec(&b);
        for backend in [Backend::Scalar, Backend::Neon, Backend::NeonDotprod, Backend::Avx2] {
            assert_eq!(
                dot_f32(&a, &b, backend, &fma, &times, &plus),
                backend.dot_f32(&a, &b, &fma, &times, &plus)
            );
            assert_eq!(
                dot_f32_bin(&a, &code, backend, &plus),
                backend.dot_f32_bin(&a, &code, &plus)
            );
        }
        assert_eq!(
            guksu::kernels::scalar::dot_f32_bin(&a, &code, &plus),
            dot_f32_bin(&a, &code, Backend::Scalar, &plus)
        );
    }
}

#[test]
fn hamming_is_a_metric() {
    let mut rng = SplitMix64::new(91);
    let mut code = || -> Vec<u8> { (0..9).map(|_| rng.next_u64() as u8).collect() };
    for _ in 0..200 {
        let (a, b, c) = (code(), code(), code());
        assert!(hamming(&a, &c) <= hamming(&a, &b) + hamming(&b, &c));
        assert_eq!(hamming(&a, &b) == 0, a == b);
        assert_eq!(hamming(&a, &a), 0);
    }
}

#[test]
fn sign_vectors_count_agreements() {
    let mut rng = SplitMix64::new(92);
    for dim in [1usize, 8, 13, 64, 131] {
        let v: Vec<u32> = (0..2 * dim).map(|_| (f32::from_bits(rng.next_f32()) - 0.5).to_bits()).collect();
        let (a, b) = (pack_sign_bits_vec(&v[..dim]), pack_sign_bits_vec(&v[dim..]));
        let q: Vec<i8> = (0..dim).map(|i| if bit(&a, i) { 1 } else { -1 }).collect();
        assert_eq!(dot_i8_bin(&q, &b), dim as i32 - 2 * hamming(&a, &b) as i32);
    }
}

#[test]
fn sums_stay_within_the_rounding_bound() {
    let mut rng = SplitMix64::new(93);
    for d in [1usize, 5, 32, 100, 1000] {
        let v: Vec<f32> = (0..2 * d).map(|_| f32::from_bits(rng.next_f32()) * 2.0 - 1.0).collect();
        let (a, b) = (&v[..d], &v[d..]);
        let code = pack_sign_bits_vec(&bits(b));
        let exact: f64 = a.iter().zip(b).map(|(&x, &y)| x as f64 * y as f64).sum();
        let size: f64 = a.iter().zip(b).map(|(&x, &y)| (x as f64 * y as f64).abs()).sum();
        let signed = |i: usize| if bit(&code, i) { a[i] as f64 } else { -a[i] as f64 };
        let exact_bin: f64 = (0..d).map(signed).sum();
        let size_bin: f64 = a.iter().map(|&x| x.abs() as f64).sum();
        let tolerance = d as f64 * f32::EPSILON as f64;
        for backend in [Backend::Scalar, Backend::Neon, Backend::NeonDotprod, Backend::Avx2] {
            let r = f32::from_bits(backend.dot_f32(&bits(a), &bits(b), &fma, &times, &plus));
            assert!((r as f64 - exact).abs() <= tolerance * size, "{} d={d}", backend.name());
            let r = f32::from_bits(backend.dot_f32_bin(&bits(a), &code, &plus));
            assert!((r as f64 - exact_bin).abs() <= tolerance * size_bin, "{} d={d}", backend.name());
        }
    }
}
