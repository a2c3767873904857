use vec_hnsw::error::VecHnswError;
use vec_hnsw::hnsw::{HnswConfig, HnswIndex};
use vec_hnsw::metric::{CosineDistance, DistanceMetric, DotProductDistance, L2Distance};
use vec_hnsw::query::SearchOptions;

/// A single-precision element; the metrics below are defined on it.
#[derive(Debug, Clone, Copy, PartialEq)]
struct Scalar(f32);

fn v(values: &[f32]) -> Vec<Scalar> {
    values.iter().map(|value| Scalar(*value)).collect()
}

/// The key of a distance: its position in the total order of `f32`, with
/// `-0.0` read as `0.0`.
fn key(distance: f32) -> u64 {
    let distance = if distance == 0.0 { 0.0 } else { distance };
    let bits = distance.to_bits();
    let ordered = if bits & 0x8000_0000 != 0 { !bits } else { bits | 0x8000_0000 };
    u64::from(ordered)
}

/// The distance of a key.
fn distance_of(key: u64) -> f32 {
    let ordered = key as u32;
    let bits = if ordered & 0x8000_0000 != 0 { ordered & 0x7fff_ffff } else { !ordered };
    f32::from_bits(bits)
}

fn dot_product(left: &[Scalar], right: &[Scalar]) -> f32 {
    left.iter().zip(right.iter()).map(|(left, right)| left.0 * right.0).sum()
}

fn squared_norm(vector: &[Scalar]) -> f32 {
    vector.iter().map(|value| value.0 * value.0).sum()
}

impl DistanceMetric<Scalar> for L2Distance {
    fn distance(&self, left: &[Scalar], right: &[Scalar]) -> u64 {
        key(left
            .iter()
            .zip(right.iter())
            .map(|(left, right)| {
                let diff = left.0 - right.0;
                diff * diff
            })
            .sum())
    }
}

impl DistanceMetric<Scalar> for CosineDistance {
    fn distance(&self, left: &[Scalar], right: &[Scalar]) -> u64 {
        let dot = dot_product(left, right);
        let left_norm = squared_norm(left).sqrt();
        let right_norm = squared_norm(right).sqrt();
        if left_norm == 0.0 || right_norm == 0.0 {
            return key(1.0);
        }
        key(1.0 - (dot / (left_norm * right_norm)).clamp(-1.0, 1.0))
    }
}

impl DistanceMetric<Scalar> for DotProductDistance {
    fn distance(&self, left: &[Scalar], right: &[Scalar]) -> u64 {
        key(-dot_product(left, right))
    }
}

fn test_config() -> HnswConfig {
    HnswConfig {
        m: 4,
        ef_construction: 16,
        ef_search: 16,
        max_level: 8,
        level_seed: 42,
    }
}

#[test]
fn empty_index_returns_no_results() {
    let index = HnswIndex::<Scalar>::new(test_config()).unwrap();

    let results = index.search(&v(&[1.0, 2.0]), 3).unwrap();

    assert!(results.is_empty());
}

#[test]
fn inserted_vector_can_be_found() {
    let mut index = HnswIndex::new(test_config()).unwrap();
    index.insert(7, v(&[1.0, 2.0])).unwrap();

    let results = index.search(&v(&[1.0, 2.0]), 1).unwrap();

    assert_eq!(results.len(), 1);
    assert_eq!(results[0].id, 7);
    assert_eq!(distance_of(results[0].distance), 0.0);
}

#[test]
fn search_returns_nearest_vectors_first() {
    let mut index = HnswIndex::new(test_config()).unwrap();
    index.insert(1, v(&[0.0, 0.0])).unwrap();
    index.insert(2, v(&[10.0, 10.0])).unwrap();
    index.insert(3, v(&[1.0, 1.0])).unwrap();

    let results = index.search(&v(&[0.2, 0.2]), 2).unwrap();

    assert_eq!(results.len(), 2);
    assert_eq!(results[0].id, 1);
    assert_eq!(results[1].id, 3);
}

#[test]
fn duplicate_vector_id_returns_error() {
    let mut index = HnswIndex::new(test_config()).unwrap();
    index.insert(1, v(&[0.0, 0.0])).unwrap();

    let error = index.insert(1, v(&[1.0, 1.0])).unwrap_err();

    assert_eq!(error, VecHnswError::DuplicateVectorId(1));
}

#[test]
fn dimension_mismatch_returns_error() {
    let mut index = HnswIndex::new(test_config()).unwrap();
    index.insert(1, v(&[0.0, 0.0])).unwrap();

    let error = index.search(&v(&[0.0, 0.0, 0.0]), 1).unwrap_err();

    assert_eq!(
        error,
        VecHnswError::DimensionMismatch {
            expected: 2,
            actual: 3
        }
    );
}

#[test]
fn k_larger_than_len_returns_available_results() {
    let mut index = HnswIndex::new(test_config()).unwrap();
    index.insert(1, v(&[0.0, 0.0])).unwrap();
    index.insert(2, v(&[1.0, 1.0])).unwrap();

    let results = index.search(&v(&[0.0, 0.0]), 10).unwrap();

    assert_eq!(results.len(), 2);
}

#[test]
fn search_options_can_override_ef_search() {
    let mut index = HnswIndex::new(test_config()).unwrap();
    index.insert(1, v(&[0.0, 0.0])).unwrap();
    index.insert(2, v(&[1.0, 1.0])).unwrap();

    let results = index
        .search_with_options(&v(&[0.0, 0.0]), SearchOptions::new(2).with_ef_search(1))
        .unwrap();

    assert_eq!(results.len(), 2);
}

#[test]
fn m_one_config_is_supported() {
    let mut config = test_config();
    config.m = 1;
    config.ef_construction = 4;
    config.ef_search = 4;
    let mut index = HnswIndex::new(config).unwrap();

    index.insert(1, v(&[0.0])).unwrap();
    index.insert(2, v(&[1.0])).unwrap();

    let results = index.search(&v(&[0.1]), 1).unwrap();

    assert_eq!(results[0].id, 1);
}

#[test]
fn delete_filters_vector_from_search_results() {
    let mut index = HnswIndex::new(test_config()).unwrap();
    index.insert(1, v(&[0.0, 0.0])).unwrap();
    index.insert(2, v(&[2.0, 2.0])).unwrap();

    index.delete(1).unwrap();
    let results = index.search(&v(&[0.0, 0.0]), 2).unwrap();

    assert_eq!(results.len(), 1);
    assert_eq!(results[0].id, 2);
    assert_eq!(index.len(), 1);
}

#[test]
fn deleted_vector_id_can_be_inserted_again() {
    let mut index = HnswIndex::new(test_config()).unwrap();
    index.insert(1, v(&[0.0, 0.0])).unwrap();

    index.delete(1).unwrap();
    index.insert(1, v(&[2.0, 2.0])).unwrap();

    let results = index.search(&v(&[2.0, 2.0]), 1).unwrap();
    assert_eq!(results[0].id, 1);
}

#[test]
fn update_replaces_vector_for_existing_id() {
    let mut index = HnswIndex::new(test_config()).unwrap();
    index.insert(1, v(&[0.0, 0.0])).unwrap();
    index.insert(2, v(&[10.0, 10.0])).unwrap();

    index.update(1, v(&[9.0, 9.0])).unwrap();
    let results = index.search(&v(&[9.0, 9.0]), 1).unwrap();

    assert_eq!(results[0].id, 1);
}

#[test]
fn deleting_unknown_id_returns_error() {
    let mut index = HnswIndex::<Scalar>::new(test_config()).unwrap();

    let error = index.delete(404).unwrap_err();

    assert_eq!(error, VecHnswError::VectorNotFound(404));
}

#[test]
fn cosine_distance_metric_can_be_used() {
    let mut index = HnswIndex::with_metric(test_config(), CosineDistance).unwrap();
    index.insert(1, v(&[1.0, 0.0])).unwrap();
    index.insert(2, v(&[0.0, 1.0])).unwrap();

    let results = index.search(&v(&[2.0, 0.0]), 1).unwrap();

    assert_eq!(results[0].id, 1);
}

#[test]
fn dot_product_distance_metric_can_be_used() {
    let mut index = HnswIndex::with_metric(test_config(), DotProductDistance).unwrap();
    index.insert(1, v(&[1.0, 0.0])).unwrap();
    index.insert(2, v(&[3.0, 0.0])).unwrap();

    let results = index.search(&v(&[1.0, 0.0]), 1).unwrap();

    assert_eq!(results[0].id, 2);
}

#[test]
fn indexes_with_same_seed_return_same_result_order() {
    let mut left = HnswIndex::new(test_config()).unwrap();
    let mut right = HnswIndex::new(test_config()).unwrap();

    for id in 0..20 {
        let vector = v(&[id as f32, (id % 3) as f32]);
        left.insert(id, vector.clone()).unwrap();
        right.insert(id, vector).unwrap();
    }

    let left_ids: Vec<_> = left
        .search(&v(&[7.2, 1.0]), 5)
        .unwrap()
        .into_iter()
        .map(|result| result.id)
        .collect();
    let right_ids: Vec<_> = right
        .search(&v(&[7.2, 1.0]), 5)
        .unwrap()
        .into_iter()
        .map(|result| result.id)
        .collect();

    assert_eq!(left_ids, right_ids);
}

#[test]
fn small_linear_dataset_has_good_recall() {
    let mut config = test_config();
    config.m = 8;
    config.ef_construction = 32;
    config.ef_search = 32;
    let mut index = HnswIndex::new(config).unwrap();

    for id in 0..64 {
        index.insert(id, v(&[id as f32])).unwrap();
    }

    let result_ids: Vec<_> = index
        .search(&v(&[30.2]), 5)
        .unwrap()
        .into_iter()
        .map(|result| result.id)
        .collect();

    assert!(result_ids.contains(&30));
    assert!(result_ids.contains(&31));
}
