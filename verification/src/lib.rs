//! Per-station temperature statistics over a `station;measurement` byte
//! stream: chunk partitioning at line boundaries, a per-chunk parse-and-fold
//! loop, an associative-commutative merge of partial maps, and an ordered
//! emission. Measurements are held as scaled integers (tenths), which makes
//! the whole pipeline deterministic and exact.
use vstd::prelude::*;

pub mod stats;
pub mod records;
pub mod aggregate;
pub mod table;
pub mod parse;
pub mod chunks;
pub mod emit;
pub mod pipeline;
pub mod laws;

verus! {

/// Largest measurement magnitude the pipeline can represent, in tenths: the
/// extrema are held as `i64` values in tenths, so this is the machine limit,
/// not a policy. A grammar-shaped measurement beyond it has no exact
/// fixed-point representation and is skipped like any other unparseable
/// field.
pub const MAX_ABS_TENTHS: i64 = i64::MAX;

} // verus!
