//! Probabilistic data structures for scalable approximate analytics.
//!
//! Every sketch here is a plain value: it is built by a validated constructor,
//! fed by `add`/`insert`, optionally merged with a peer of the same shape, and
//! queried any number of times.
use vstd::prelude::*;

pub mod bloom_filter;
pub mod count_sketch;
pub mod cuckoo_filter;
pub mod counter_table;
pub mod hashing;
pub mod hyperloglog;
pub mod lsh_minhash;
pub mod minhash;
pub mod minmax_sketch;
pub mod order;
pub mod reservoir_sampling;
pub mod space_saving;

verus! {

/// Errors returned by sketch constructors and merge operations.
#[derive(Debug, Clone, PartialEq, Eq)]
pub enum SketchError {
    /// Returned when a constructor or query receives an invalid argument.
    InvalidParameter(&'static str),
    /// Returned when combining two sketches that are not shape-compatible.
    IncompatibleSketches(&'static str),
}

} // verus!
