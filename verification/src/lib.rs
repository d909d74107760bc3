//! Building blocks for allocation-conscious code, each with a contract that
//! says exactly what it computes.
//!
//! - [`memory_pool`]: a fixed-capacity pool of reusable slots with checked
//!   handles; [`pool_model`] holds its mathematical model and the laws of
//!   that model.
//! - [`naive`] and [`optimized`]: two parsers for the same line-oriented log
//!   format, one that copies every field and one that borrows every field
//!   from the input; [`test_utils`] generates logs for them.
//! - [`zero_alloc_json`]: a scanner for flat JSON objects that borrows keys
//!   and values from the input.
//! - [`dashboard`]: the naming rules and the page of the benchmark
//!   dashboard.
//! - [`text`]: what the parsers share: cutting text at characters.

pub mod dashboard;
pub mod memory_pool;
pub mod naive;
pub mod optimized;
pub mod pool_model;
pub mod test_utils;
pub mod text;
pub mod zero_alloc_json;
