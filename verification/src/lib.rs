//! An in-memory HNSW (Hierarchical Navigable Small World) index for
//! approximate nearest-neighbour search, verified with Verus.
//!
//! The index is generic over the element type of its vectors and over the
//! distance metric; the metric reports each distance as an ordered `u64` key
//! (smaller key means closer), so that every decision the index takes is an
//! integer comparison.
pub mod error;
pub mod metric;
pub mod query;
pub mod vector;
pub mod hnsw;
