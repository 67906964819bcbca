//! An in-memory similarity-search index.
//!
//! The index stores fixed-dimension vectors, each tagged with an identifier
//! and a small set of string attributes, and answers "k most similar to this
//! query" requests under a configurable distance metric, optionally
//! restricted to records whose attributes match a set of required
//! key/value equalities.
//!
//! Vector elements and scores are carried as the bit patterns of 32-bit
//! floating-point numbers. The index itself never interprets the element
//! bits: the embedding layer computes distance scores and hands them in as
//! order-preserving integer keys, and the index validates, filters, ranks
//! and truncates.

pub mod filter;
pub mod indexing;
pub mod ranking;
pub mod types;
