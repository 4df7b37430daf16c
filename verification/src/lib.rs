//! A sparse-vector inverted index: a radix-4 dimension tree whose nodes hold
//! quantized posting buckets and approximate membership filters.

use vstd::prelude::*;

pub mod dashmap_index;
pub mod fixedset;
pub mod index;
pub mod node;
pub mod pagepool;
pub mod power4;
pub mod weight;

verus! {

/// The failures the index core can report.
#[derive(Clone, Copy, Debug, PartialEq, Eq, Structural)]
pub enum InvertedIndexError {
    /// The quantization level at construction is not one of 16, 32, 64.
    InvalidQuantization,
    /// A weight that is not a number was handed to the index.
    InvalidWeight,
    /// A path was requested from a base dimension to a smaller target.
    InvalidDimensionDelta,
    /// A lazily referenced node could not be materialized.
    NodeLoadFailed,
    /// The backing storage could not be opened at construction.
    StorageUnavailable,
}

} // verus!
