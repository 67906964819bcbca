//! The stored data model: records, metrics, and the error kinds.

use vstd::prelude::*;

verus! {

/// Why a call on the index was refused.
#[derive(Clone, Copy, Debug, PartialEq, Eq, Structural)]
pub enum IndexError {
    /// The metric tag handed to the constructor is not recognized, or the
    /// requested dimension is zero.
    ConfigurationError,
    /// A vector handed to `add`, or a query handed to `search`, does not
    /// have exactly `dim` elements.
    DimensionMismatch,
}

/// The distance metric an index scores candidates with, fixed at
/// construction.
#[derive(Clone, Copy, Debug, PartialEq, Eq, Structural)]
pub enum Metric {
    /// Sum of squared element-wise differences (squared Euclidean
    /// distance; no square root is taken).
    L2,
    /// One minus the cosine of the angle between the two vectors; a
    /// zero-magnitude vector is treated as maximally dissimilar.
    Cosine,
}

/// One stored unit: an identifier, a vector, and string attributes.
///
/// `vector` holds the IEEE-754 bit pattern of each 32-bit element; the
/// index only ever reads its length. `metadata` is a list of key/value
/// pairs; a lookup finds the first pair with the given key.
pub struct Record {
    pub id: u64,
    pub vector: Vec<u32>,
    pub metadata: Vec<(String, String)>,
}

/// The value the metadata list associates with `key`: the value of the
/// first pair whose key equals `key`, if any.
pub open spec fn meta_get(metadata: Seq<(String, String)>, key: Seq<char>) -> Option<Seq<char>>
    decreases metadata.len(),
{
    if metadata.len() == 0 {
        None::<Seq<char>>
    } else if metadata[0].0@ == key {
        Some(metadata[0].1@)
    } else {
        meta_get(metadata.drop_first(), key)
    }
}

/// A record passes a filter when, for every required pair, its metadata
/// associates that key with exactly that value.
pub open spec fn passes(record: Record, filters: Seq<(String, String)>) -> bool {
    forall|j: int|
        0 <= j < filters.len() ==> meta_get(record.metadata@, filters[j].0@) == Some(
            filters[j].1@,
        )
}

} // verus!
