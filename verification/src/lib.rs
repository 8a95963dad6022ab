//! Quantized vector-search building blocks: distance kernels (single
//! precision, int8, binary, and asymmetric query × binary-row), sign-bit and
//! int8 quantizers, a flat filtered top-k scan with a rerank primitive, and
//! the logic of a recall harness.
//!
//! # Conventions
//!
//! - **Floating-point values are bit patterns** (`u32` for single and `u64`
//!   for double precision, see [`ieee`]). Storage, order, signs, rounding and
//!   conversions work on patterns; additions, multiplications and divisions
//!   are functions that the caller passes in.
//! - **Scores are single precision, higher is better**, everywhere. Raw
//!   [`kernels::hamming`] is the one lower-is-better exception, and
//!   [`kernels::hamming_score`] adapts it.
//! - **Scores are representation-local.** A Hamming-derived score and a dot
//!   score are not comparable; reranking recomputes scores from the store of
//!   higher precision and never blends them with coarse scores.
//! - **Ordering is total and deterministic**: results sort by score descending,
//!   then id ascending, in the IEEE total order. Binary codes admit few
//!   distinct Hamming values, so score ties are the norm.
//! - **Shape mismatches are errors at the public seams**: [`Scorer::top_k`]
//!   and [`Scorer::rerank`] report a query or filter that does not match the
//!   view as a [`ScanError`]; block and view constructors report inconsistent
//!   geometry as a [`StorageError`]. [`Error`] wraps both. Kernels and row
//!   accessors state what they need as preconditions.

pub mod bitset;
pub mod error;
pub mod ieee;
pub mod kernels;
pub mod quant;
pub mod query;
pub mod ratio;
pub mod recall;
pub mod rng;
pub mod rounding;
pub mod scan;
pub mod storage;
pub mod text;
pub mod values;

pub use bitset::Bitset;
pub use error::Error;
pub use query::{CorpusView, I8Query, QueryData, ViewQuery};
pub use scan::{select_top_k, Hit, ScanError, Scorer};
pub use storage::{
    BinaryBlock, BinaryView, Block, F32Block, F32View, I8Block, I8View, StorageError,
};
