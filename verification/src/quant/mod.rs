//! Quantizers: sign-bit binary packing and symmetric linear int8.
//!
//! Both target normalized, zero-centered vectors, so int8 has no zero point.
//! Binary codes follow the layout of [`crate::kernels`]: most significant bit
//! first within each byte, padding bits zero. The bit rule is `x > 0.0`: both
//! zeros and NaN give a clear bit.

pub mod binary;
pub mod elements;
pub mod int8;
pub mod parity;
pub mod round_trip;

pub use binary::{pack_sign_bits, pack_sign_bits_vec, unpack_sign_bits};
pub use int8::{dequantize_i8, fixed_scale, max_abs_scale, quantize_i8, quantize_i8_vec};
pub use parity::{
    binary_parity, int8_parity, voyage_offset_binary_to_codes, BinaryParity, Int8Parity,
};
