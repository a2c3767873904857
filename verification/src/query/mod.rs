pub mod knn;

pub use knn::{InsertOptions, SearchOptions, SearchResult};
