//! Per-key summary statistics over a large delimited text file.
//!
//! Each input line has the shape `key;value`, where `value` is a decimal
//! number with at most one fractional digit. The library plans line-aligned
//! chunks of the byte range, aggregates each chunk into a per-key running
//! statistic (minimum, maximum, sum, count), merges chunk-local results with
//! an associative and commutative combine rule, and renders the global result
//! as `{k1=min/mean/max, k2=...}` with keys in ascending byte order.
//!
//! Values are held as integer tenths throughout, which represents the input
//! convention exactly and keeps every aggregate exact. The displayed mean
//! is rounded half away from zero to one decimal place.

pub mod stats;
pub mod parse;
pub mod order;
pub mod table;
pub mod agg;
pub mod chunk;
pub mod format;
pub mod run;
