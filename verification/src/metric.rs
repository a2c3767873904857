use vstd::prelude::*;

verus! {

/// Computes a distance where smaller values mean closer vectors.
///
/// A distance is reported as an ordered key: the index compares keys with
/// `<` on `u64`, and a smaller key means a closer vector. Implementations
/// are written by the users of the index, for their element type, and must
/// be pure: `distance` answers `spec_distance` of the metric and the two
/// vectors, the same key for the same arguments. The contracts of the index
/// rest on that.
pub trait DistanceMetric<T>: Clone {
    /// The key of the distance from `left` to `right` under this metric.
    ///
    /// The default body is one fixed key, the same for every pair of
    /// vectors. An implementation verified with the index overrides it with
    /// the key its `distance` computes. An implementation written outside
    /// Verus cannot define a spec function and keeps the default; the
    /// `ensures` of `distance` then claims a constant key, so what the
    /// index's contracts say of distances and of the hits' order does not
    /// carry over to such a metric unless its distances are in fact
    /// constant.
    closed spec fn spec_distance(&self, left: Seq<T>, right: Seq<T>) -> u64 {
        arbitrary()
    }

    fn distance(&self, left: &[T], right: &[T]) -> (d: u64)
        ensures
            d == self.spec_distance(left@, right@),
    ;
}

/// Squared Euclidean distance; the metric of `HnswIndex::new`. Like the two
/// metrics below, it implements `DistanceMetric` for an element type next to
/// that type's arithmetic.
#[derive(Debug, Clone, Copy, Default)]
pub struct L2Distance;

/// One minus the cosine of the angle between the two vectors.
#[derive(Debug, Clone, Copy, Default)]
pub struct CosineDistance;

/// The negated dot product, so that a larger dot product is closer.
#[derive(Debug, Clone, Copy, Default)]
pub struct DotProductDistance;

} // verus!
