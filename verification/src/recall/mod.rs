//! The recall harness: how much of the exact answer the quantized
//! representations give back.

pub mod answers;
pub mod args;
pub mod cache;
pub mod chunks;
pub mod cli;
pub mod columns;
pub mod command;
pub mod data;
pub mod draws;
pub mod eval;
pub mod files;
pub mod keys;
pub mod laws;
pub mod limits;
pub mod lines;
pub mod measure;
pub mod npy;
pub mod prepared;
pub mod report;
pub mod reproducible;
pub mod rows;
pub mod run;
pub mod scores;
pub mod synth;
pub mod table;
