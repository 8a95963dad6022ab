use guksu::quant::{max_abs_scale, pack_sign_bits_vec, quantize_i8_vec};
use guksu::rng::SplitMix64;
use guksu::{BinaryBlock, BinaryView, Block, F32Block, F32View, I8Block, I8View, StorageError};

fn over(x: u32, y: u32) -> u32 {
    (f32::from_bits(x) / f32::from_bits(y)).to_bits()
}

fn bits(v: &[f32]) -> Vec<u32> {
    v.iter().map(|x| x.to_bits()).collect()
}

fn rows(rng: &mut SplitMix64, n: usize, dim: usize) -> Vec<u32> {
    (0..n * dim).map(|_| (f32::from_bits(rng.next_f32()) * 2.0 - 1.0).to_bits()).collect()
}

fn per_vector(block: &F32Block) -> I8Block {
    I8Block::from_f32_per_vector(block, &over)
}

fn round_trip_and_odd_dim_stride() {
    let mut rng = SplitMix64::new(31);
    let (n, dim) = (3, 1000);
    let flat = rows(&mut rng, n, dim);
    let block = F32Block::from_flat(&flat, dim).ok().unwrap();
    assert_eq!(block.len(), n);
    assert_eq!(block.dim(), dim);
    let v = block.view();
    for i in 0..n {
        assert_eq!(v.row(i as u32), &flat[i * dim..(i + 1) * dim]);
    }
    // Rows start on 64-byte boundaries relative to row 0 (dim 1000: stride 1008).
    let byte_offset = v.stride() * 4;
    assert_eq!(byte_offset, 1008 * 4);
    assert_eq!(byte_offset % 64, 0);
}

#[test]
fn storage_f32_round_trip_and_odd_dim_stride() {
    round_trip_and_odd_dim_stride();
}

#[test]
fn f32_f32_round_trip_and_odd_dim_stride() {
    round_trip_and_odd_dim_stride();
}

fn per_vector_matches_row_quantizer() {
    let mut rng = SplitMix64::new(32);
    let (n, dim) = (5, 130);
    let flat = rows(&mut rng, n, dim);
    let block = F32Block::from_flat(&flat, dim).ok().unwrap();
    let q = per_vector(&block);
    let qv = q.view();
    for i in 0..n {
        let row = &flat[i * dim..(i + 1) * dim];
        let scale = max_abs_scale(row, &over);
        assert_eq!(qv.scale(i as u32), scale);
        assert_eq!(qv.row(i as u32), quantize_i8_vec(row, scale, &over).as_slice());
    }
}

#[test]
fn storage_i8_per_vector_matches_row_quantizer() {
    per_vector_matches_row_quantizer();
}

#[test]
fn int8_i8_per_vector_matches_row_quantizer() {
    per_vector_matches_row_quantizer();
}

fn fixed_scale_applies_everywhere() {
    let block = F32Block::from_flat(&bits(&[0.5, -0.5, 1.0, 0.25]), 2).ok().unwrap();
    let q = I8Block::from_f32_fixed(&block, (1.0f32 / 127.0).to_bits(), &over);
    let qv = q.view();
    assert_eq!(f32::from_bits(qv.scale(0)), 1.0 / 127.0);
    assert_eq!(f32::from_bits(qv.scale(1)), 1.0 / 127.0);
    assert_eq!(qv.row(0), &[64, -64]);
    assert_eq!(qv.row(1), &[127, 32]);
}

#[test]
fn storage_i8_fixed_scale_applies_everywhere() {
    fixed_scale_applies_everywhere();
}

#[test]
fn int8_i8_fixed_scale_applies_everywhere() {
    fixed_scale_applies_everywhere();
}

fn zero_row_gets_zero_scale_and_codes() {
    let block = F32Block::from_flat(&bits(&[0.0, 0.0, 1.0, -1.0]), 2).ok().unwrap();
    let q = per_vector(&block);
    let qv = q.view();
    assert_eq!(f32::from_bits(qv.scale(0)), 0.0);
    assert_eq!(qv.row(0), &[0, 0]);
    assert_eq!(qv.row(1), &[127, -127]);
}

#[test]
fn storage_i8_zero_row_gets_zero_scale_and_codes() {
    zero_row_gets_zero_scale_and_codes();
}

#[test]
fn int8_i8_zero_row_gets_zero_scale_and_codes() {
    zero_row_gets_zero_scale_and_codes();
}

fn rows_match_row_packer() {
    let mut rng = SplitMix64::new(33);
    let (n, dim) = (4, 1027);
    let flat = rows(&mut rng, n, dim);
    let block = F32Block::from_flat(&flat, dim).ok().unwrap();
    let b = BinaryBlock::from_f32(&block);
    assert_eq!(b.dim(), dim);
    let bv = b.view();
    for i in 0..n {
        let expected = pack_sign_bits_vec(&flat[i * dim..(i + 1) * dim]);
        assert_eq!(bv.row(i as u32), expected.as_slice(), "row {i}");
    }
}

#[test]
fn storage_bin_rows_match_row_packer() {
    rows_match_row_packer();
}

#[test]
fn binary_bin_rows_match_row_packer() {
    rows_match_row_packer();
}

fn empty_blocks() {
    let block = F32Block::from_flat(&[], 8).ok().unwrap();
    assert_eq!(block.len(), 0);
    assert!(block.is_empty());
    assert_eq!(per_vector(&block).len(), 0);
    assert_eq!(BinaryBlock::from_f32(&block).len(), 0);
}

#[test]
fn storage_empty_blocks_are_fine() {
    empty_blocks();
}

#[test]
fn mod_empty_blocks_are_fine() {
    empty_blocks();
}

fn geometry(b: &impl Block) -> (usize, usize, bool) {
    (b.len(), b.dim(), b.is_empty())
}

fn every_representation() {
    let f = F32Block::from_flat(&bits(&[1.0, -1.0, 0.5, 0.25]), 2).ok().unwrap();
    assert_eq!(geometry(&f), (2, 2, false));
    assert_eq!(geometry(&per_vector(&f)), (2, 2, false));
    assert_eq!(geometry(&BinaryBlock::from_f32(&f)), (2, 2, false));
}

#[test]
fn storage_block_trait_covers_every_representation() {
    every_representation();
}

#[test]
fn mod_block_trait_covers_every_representation() {
    every_representation();
}

fn new_validates() {
    let data = bits(&[0.0f32; 32]);
    let v = F32View::new(&data, 10, 16).ok().unwrap();
    assert_eq!(v.len(), 2);
    assert_eq!(v.row(1).len(), 10);
}

#[test]
fn storage_view_new_validates() {
    new_validates();
}

#[test]
fn f32_view_new_validates() {
    new_validates();
}

fn prints_geometry_not_data() {
    let block = F32Block::from_flat(&bits(&[1.0, -1.0, 0.5, 0.25]), 2).ok().unwrap();
    assert_eq!(block.debug_text(), "F32Block { rows: 2, dim: 2, stride: 16, .. }");
    assert_eq!(block.view().debug_text(), "F32View { rows: 2, dim: 2, stride: 16, .. }");
}

#[test]
fn storage_debug_prints_geometry_not_data() {
    prints_geometry_not_data();
}

#[test]
fn f32_debug_prints_geometry_not_data() {
    prints_geometry_not_data();
}

fn bad_flat_shapes() {
    assert_eq!(
        F32Block::from_flat(&bits(&[1.0, 2.0, 3.0]), 2).err().unwrap(),
        StorageError::Ragged { data_len: 3, row_len: 2 }
    );
    assert_eq!(F32Block::from_flat(&[], 0).err().unwrap(), StorageError::ZeroDim);
}

#[test]
fn storage_from_flat_rejects_bad_shapes() {
    bad_flat_shapes();
}

#[test]
fn f32_from_flat_rejects_bad_shapes() {
    bad_flat_shapes();
}

fn bad_view_shapes() {
    assert_eq!(
        F32View::new(&bits(&[0.0; 8]), 8, 4).err().unwrap(),
        StorageError::Stride { stride: 4, min_len: 8 }
    );
    assert_eq!(
        F32View::new(&bits(&[0.0; 9]), 4, 8).err().unwrap(),
        StorageError::Ragged { data_len: 9, row_len: 8 }
    );
    assert_eq!(F32View::new(&[], 0, 4).err().unwrap(), StorageError::ZeroDim);
    assert_eq!(
        I8View::new(&[0i8; 8], &bits(&[1.0]), 4, 4).err().unwrap(),
        StorageError::ScaleCount { scales: 1, rows: 2 }
    );
    // Binary strides are bytes: dim 17 packs to 3 bytes, so stride 2 is short.
    assert_eq!(
        BinaryView::new(&[0u8; 2], 17, 2).err().unwrap(),
        StorageError::Stride { stride: 2, min_len: 3 }
    );
}

#[test]
fn storage_view_new_rejects_bad_shapes() {
    bad_view_shapes();
}

#[test]
fn mod_view_new_rejects_bad_shapes() {
    bad_view_shapes();
}

#[test]
fn debug_text_of_every_type() {
    let block = F32Block::from_flat(&bits(&[1.0; 34]), 17).ok().unwrap();
    let q = per_vector(&block);
    let b = BinaryBlock::from_f32(&block);
    assert_eq!(q.debug_text(), "I8Block { rows: 2, dim: 17, stride: 64, .. }");
    assert_eq!(q.view().debug_text(), "I8View { rows: 2, dim: 17, stride: 64, .. }");
    assert_eq!(b.debug_text(), "BinaryBlock { rows: 2, dim_bits: 17, stride_bytes: 64, .. }");
    assert_eq!(b.view().debug_text(), "BinaryView { rows: 2, dim_bits: 17, stride_bytes: 64, .. }");
}

#[test]
fn strides_are_whole_cache_lines() {
    for dim in 1..200usize {
        let block = F32Block::from_flat(&bits(&vec![1.0; 2 * dim]), dim).ok().unwrap();
        let stride = block.view().stride();
        assert!(stride >= dim && stride < dim + 16 && stride % 16 == 0, "dim {dim}");
    }
}
