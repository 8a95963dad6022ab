//! Flat exact top-k over quantized blocks, with optional filter bitmaps and a
//! rerank primitive for two-stage search.
//!
//! # Ordering contract
//!
//! A [`Hit`] is better than another if its score is higher in the IEEE total
//! order, or the scores are equal and its id is lower. Every result is sorted
//! best-first. The rule is shared by ground truth, top-k and rerank alike.
//!
//! Selection keeps the `k` best hits of the candidates; because the order is
//! total, the result is a function of the candidates as a multiset and has the
//! **prefix property**: `top_k(k1) == top_k(k2)[..k1]` for `k1 <= k2`.

pub mod error;
mod heap;
pub mod hit;
pub mod laws;
pub mod outcome;
pub mod scorer;
pub mod select;

pub use error::ScanError;
pub use hit::Hit;
pub use scorer::Scorer;
pub use select::select_top_k;
