use vstd::prelude::*;

use crate::vector::VectorId;

verus! {

/// Per-query options of a k-nearest-neighbour search.
#[derive(Debug, Clone, Copy, PartialEq, Eq)]
pub struct SearchOptions {
    pub k: usize,
    pub ef_search: Option<usize>,
}

impl SearchOptions {
    /// Options for `k` results with the index's own `ef_search`.
    pub fn new(k: usize) -> (r: Self)
        ensures
            r.k == k,
            r.ef_search is None,
    {
        Self { k, ef_search: None }
    }

    /// The same options with the search width overridden to `ef_search`.
    pub fn with_ef_search(self, ef_search: usize) -> (r: Self)
        ensures
            r.k == self.k,
            r.ef_search == Some(ef_search),
    {
        let mut options = self;
        options.ef_search = Some(ef_search);
        options
    }
}

/// Options of an insertion; there are none yet.
#[derive(Debug, Clone, Copy, Default, PartialEq, Eq)]
pub struct InsertOptions;

/// One hit of a search: the stored id and the metric's distance key.
#[derive(Debug, Clone, Copy, PartialEq, Eq)]
pub struct SearchResult {
    pub id: VectorId,
    pub distance: u64,
}

} // verus!
