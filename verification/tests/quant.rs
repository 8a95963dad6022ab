use guksu::kernels::hamming;
use guksu::quant::parity::CosineParts;
use guksu::quant::{
    binary_parity, dequantize_i8, fixed_scale, int8_parity, max_abs_scale, pack_sign_bits_vec,
    quantize_i8_vec, unpack_sign_bits, voyage_offset_binary_to_codes,
};
use guksu::ratio::Ratio;
use guksu::rng::SplitMix64;

fn times(x: u32, y: u32) -> u32 {
    (f32::from_bits(x) * f32::from_bits(y)).to_bits()
}

fn over(x: u32, y: u32) -> u32 {
    (f32::from_bits(x) / f32::from_bits(y)).to_bits()
}

fn bits(v: &[f32]) -> Vec<u32> {
    v.iter().map(|x| x.to_bits()).collect()
}

fn scale_of(v: &[f32]) -> f32 {
    f32::from_bits(max_abs_scale(&bits(v), &over))
}

fn quantize(v: &[f32], scale: f32) -> Vec<i8> {
    quantize_i8_vec(&bits(v), scale.to_bits(), &over)
}

fn cosine(p: CosineParts) -> u64 {
    (p.dot as f64 / ((p.client_norm as f64).sqrt() * (p.voyage_norm as f64).sqrt())).to_bits()
}

fn plus_64(x: u64, y: u64) -> u64 {
    (f64::from_bits(x) + f64::from_bits(y)).to_bits()
}

fn mean_64(sum: u64, count: usize) -> u64 {
    (f64::from_bits(sum) / count as f64).to_bits()
}

fn value(r: Ratio) -> f64 {
    r.numerator as f64 / r.denominator as f64
}

#[test]
fn packs_msb_first() {
    // dims 0..8 land in byte 0, bit 7 down to bit 0.
    let src = [1.0f32, -1.0, 0.5, 2.0, -0.1, -3.0, -0.5, 1.0];
    assert_eq!(pack_sign_bits_vec(&bits(&src)), vec![0b1011_0001]);
}

#[test]
fn zero_and_nan_pack_as_clear() {
    assert_eq!(pack_sign_bits_vec(&bits(&[0.0, -0.0, f32::NAN, 1.0])), vec![0b0001_0000]);
}

#[test]
fn padding_bits_are_zero() {
    // d=13 → 2 bytes, low 3 bits of the last byte are padding.
    let code = pack_sign_bits_vec(&bits(&[1.0f32; 13]));
    assert_eq!(code, vec![0b1111_1111, 0b1111_1000]);
}

#[test]
fn unpack_recovers_signs() {
    let src = [0.3f32, -0.7, 0.0, 5.0, -0.0, -1e-30, 1e-30, 2.0, -2.0];
    let code = pack_sign_bits_vec(&bits(&src));
    let mut out = vec![0u32; src.len()];
    unpack_sign_bits(&code, &mut out);
    for (i, (&x, &u)) in src.iter().zip(&out).enumerate() {
        let expected = if x > 0.0 { 1.0 } else { -1.0 };
        assert_eq!(f32::from_bits(u), expected, "dim {i}");
    }
}

#[test]
fn max_abs_scale_known_values() {
    assert_eq!(scale_of(&[3.0, -4.0]), 4.0 / 127.0);
    assert_eq!(scale_of(&[]), 0.0);
    assert_eq!(scale_of(&[0.0, -0.0]), 0.0);
    assert_eq!(scale_of(&[f32::NAN, 2.0]), 2.0 / 127.0);
}

#[test]
fn round_trip_error_within_half_step() {
    let mut rng = SplitMix64::new(21);
    for _ in 0..100 {
        let src: Vec<f32> =
            (0..257).map(|_| (f32::from_bits(rng.next_f32()) - 0.5) * 4.0).collect();
        let scale = scale_of(&src);
        let q = quantize(&src, scale);
        let mut back = vec![0u32; src.len()];
        dequantize_i8(&q, scale.to_bits(), &mut back, &times);
        for (&x, &y) in src.iter().zip(&back) {
            let y = f32::from_bits(y);
            assert!((x - y).abs() <= scale * 0.5 + 1e-6, "{x} -> {y} (scale {scale})");
        }
    }
}

#[test]
fn never_emits_neg_128_and_clamps() {
    // Out-of-range values (fixed scale smaller than the data) clamp.
    let q = quantize(&[-1e9, 1e9, -1.0, 1.0], 1.0 / 127.0);
    assert_eq!(q, vec![-127, 127, -127, 127]);
    assert!(q.iter().all(|&c| c != -128));
}

#[test]
fn zero_scale_emits_zero_codes() {
    assert_eq!(quantize(&[0.0, -0.0, 0.0], 0.0), vec![0, 0, 0]);
    // Negative scale is treated as degenerate, same as zero.
    assert_eq!(quantize(&[1.0], -1.0), vec![0]);
}

#[test]
fn rounds_half_away_from_zero() {
    let q = quantize(&[0.5, -0.5, 1.5, -1.5, 0.49, -0.49], 1.0);
    assert_eq!(q, vec![1, -1, 2, -2, 0, 0]);
}

#[test]
fn fixed_scale_covers_whole_block() {
    let block = [0.5f32, -1.0, 0.25, 0.75];
    assert_eq!(f32::from_bits(fixed_scale(&bits(&block), 2, &over)), 1.0 / 127.0);
}

#[test]
fn offset_binary_conversion_is_add_128_and_involutive() {
    for v in i8::MIN..=i8::MAX {
        let mut out = [0u8];
        voyage_offset_binary_to_codes(&[v], &mut out);
        assert_eq!(out[0] as i16, v as i16 + 128, "value {v}");
    }
    // XOR 0x80 twice is the identity.
    let src: Vec<i8> = (i8::MIN..=i8::MAX).collect();
    let mut once = vec![0u8; src.len()];
    voyage_offset_binary_to_codes(&src, &mut once);
    let back: Vec<i8> = once.iter().map(|&b| (b ^ 0x80) as i8).collect();
    assert_eq!(back, src);
}

#[test]
fn binary_parity_counts_planted_diffs() {
    let dim = 16; // 2-byte rows
    let client = vec![0b1010_1010u8, 0b1111_0000, 0b1010_1010, 0b1111_0000];
    let mut voyage = client.clone();
    voyage[2] ^= 0b0000_0011; // 2 differing bits in row 1
    let p = binary_parity(&client, &voyage, dim);
    assert_eq!(p.vectors, 2);
    assert_eq!(p.max_row_mismatch, 2);
    assert_eq!(value(p.identical_vector_rate()), 0.5);
    assert_eq!(value(p.bit_mismatch_rate()), 2.0 / 32.0);
    let clean = binary_parity(&client, &client, dim);
    assert_eq!(value(clean.bit_mismatch_rate()), 0.0);
    assert_eq!(value(clean.identical_vector_rate()), 1.0);
}

#[test]
fn int8_parity_stats_and_scale_invariant_cosine() {
    let dim = 4;
    let client: Vec<i8> = vec![10, -20, 30, -40, 1, 2, 3, 4];
    // Row 0 proportional to client row 0 (cosine 1); row 1 has one off-by-2.
    let voyage: Vec<i8> = vec![20, -40, 60, -80, 1, 2, 3, 6];
    let p = int8_parity(&client, &bits(&[0.5, 0.25]), &voyage, dim);
    assert_eq!(p.vectors, 2);
    assert_eq!(p.max_abs_diff, 40);
    assert_eq!(value(p.elem_exact_rate()), 3.0 / 8.0);
    // Row 0 cosine is exactly 1; row 1 cosine = 38 / (√30·√50).
    let cos1 = 38.0 / (30f64.sqrt() * 50f64.sqrt());
    let mean_cos_sim = f64::from_bits(p.mean_cos_sim(&cosine, &plus_64, &mean_64));
    assert!((mean_cos_sim - (1.0 + cos1) / 2.0).abs() < 1e-12);
    assert_eq!(p.cosines[1], Some(CosineParts { dot: 38, client_norm: 30, voyage_norm: 50 }));
    assert_eq!(value(p.mean_abs_diff()), (10.0 + 20.0 + 30.0 + 40.0 + 2.0) / 8.0);
}

#[test]
fn empty_blocks_are_degenerate_but_defined() {
    let p = binary_parity(&[], &[], 8);
    assert_eq!(p.vectors, 0);
    assert_eq!(value(p.bit_mismatch_rate()), 0.0);
    let q = int8_parity(&[], &[], &[], 4);
    assert_eq!(q.vectors, 0);
    assert_eq!(value(q.elem_exact_rate()), 1.0);
}

#[test]
fn empty_parity_has_no_difference() {
    assert_eq!(value(binary_parity(&[], &[], 8).identical_vector_rate()), 1.0);
    let p = int8_parity(&[], &[], &[], 4);
    assert_eq!(value(p.mean_abs_diff()), 0.0);
    assert_eq!(f64::from_bits(p.mean_cos_sim(&cosine, &plus_64, &mean_64)), 1.0);
}

#[test]
fn all_zero_row_has_no_cosine() {
    let p = int8_parity(&[0, 0, 1, 1], &bits(&[1.0, 1.0]), &[1, 1, 1, 1], 2);
    assert_eq!(p.cosines[0], None);
    assert_eq!(p.cosines[1], Some(CosineParts { dot: 2, client_norm: 2, voyage_norm: 2 }));
    // It counts as similarity 0.
    let mean = f64::from_bits(p.mean_cos_sim(&cosine, &plus_64, &mean_64));
    assert!((mean - 0.5).abs() < 1e-12);
}

#[test]
fn packing_is_unique_up_to_zero_padding() {
    let a = pack_sign_bits_vec(&bits(&[1.0, -1.0, 1.0]));
    let b = pack_sign_bits_vec(&bits(&[7.0, -0.5, 1e-20]));
    assert_eq!(a, b);
    assert_eq!(hamming(&a, &b), 0);
}

#[test]
fn zero_vector_gets_zero_scale_and_codes() {
    let src = bits(&[0.0, -0.0, 0.0]);
    let scale = max_abs_scale(&src, &over);
    assert_eq!(scale, 0);
    assert_eq!(quantize_i8_vec(&src, scale, &over), vec![0, 0, 0]);
}

#[test]
fn codes_are_rounded_quotients() {
    // The reciprocal of so small a scale overflows; the quotient does not.
    assert_eq!(quantize(&[1e-40, -1e-40, 3e-40], 1e-40), vec![1, -1, 3]);
    // Multiplying by the reciprocal can miss the quotient by a rounding.
    let mut rng = SplitMix64::new(31);
    for _ in 0..2000 {
        let x = f32::from_bits(rng.next_f32()) * 2.0 - 1.0;
        let scale = (f32::from_bits(rng.next_f32()) + 0.5) / 127.0;
        let want = (x / scale).round().clamp(-127.0, 127.0) as i8;
        assert_eq!(quantize(&[x], scale), vec![want]);
    }
}

#[test]
fn negated_elements_get_negated_codes() {
    let mut rng = SplitMix64::new(32);
    let v: Vec<f32> = (0..500).map(|_| f32::from_bits(rng.next_f32()) * 4.0 - 2.0).collect();
    let negated: Vec<f32> = v.iter().map(|x| -x).collect();
    for scale in [1.0 / 127.0, 0.01, 0.5, 1e-3] {
        let codes = quantize(&v, scale);
        let want: Vec<i8> = codes.iter().map(|c| -c).collect();
        assert_eq!(quantize(&negated, scale), want);
    }
}

#[test]
fn skipped_conversion_costs_one_bit_of_eight() {
    let codes: Vec<u8> = (0..=255).collect();
    let raw: Vec<u8> = codes.iter().map(|&c| c.wrapping_sub(128)).collect();
    let p = binary_parity(&codes, &raw, 32);
    assert_eq!(value(p.bit_mismatch_rate()), 0.125);
    assert_eq!(p.identical, 0);
    assert_eq!(p.max_row_mismatch, 4);
}

#[test]
fn cosine_ignores_positive_scales() {
    let c: Vec<i8> = vec![3, -5, 7, 2];
    let v: Vec<i8> = vec![1, -2, 4, 9];
    let double: Vec<i8> = c.iter().map(|x| 2 * x).collect();
    let triple: Vec<i8> = v.iter().map(|x| 3 * x).collect();
    let a = int8_parity(&c, &[0], &v, 4).cosines[0].unwrap();
    let b = int8_parity(&double, &[0], &triple, 4).cosines[0].unwrap();
    assert_eq!(b.dot, 6 * a.dot);
    assert_eq!(b.client_norm * b.voyage_norm, 36 * a.client_norm * a.voyage_norm);
}

#[test]
fn round_trip_holds_for_tiny_and_mixed_values() {
    for v in [
        vec![2.0f32, -2.0, 1.0, 1e-40, 0.0],
        vec![1e-44, -1e-45, 3e-44],
        vec![1.5e-43, 2.6e-43, -2.6e-43],
        vec![0.7, -0.35, 0.0027],
    ] {
        let scale = scale_of(&v);
        let codes = quantize(&v, scale);
        let mut back = vec![0u32; v.len()];
        dequantize_i8(&codes, scale.to_bits(), &mut back, &times);
        for (x, y) in v.iter().zip(&back) {
            let off = (*x as f64 - f32::from_bits(*y) as f64).abs();
            assert!(off <= scale as f64 * 0.5 + 1e-6, "{x} read back {off} off");
        }
    }
}
