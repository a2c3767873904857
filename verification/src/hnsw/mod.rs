pub mod index;
pub mod laws;
mod graph;
pub mod level;
mod node;
mod search;

pub use index::{HnswConfig, HnswIndex};
