use vstd::prelude::*;

verus! {

/// Stable identifier that callers attach to a stored vector.
pub type VectorId = u64;

/// A dense vector as stored by the index.
pub type Vector<T> = Vec<T>;

} // verus!
