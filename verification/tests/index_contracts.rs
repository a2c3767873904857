use vec_hnsw::error::VecHnswError;
use vec_hnsw::hnsw::level::promotion_threshold_of;
use vec_hnsw::hnsw::{HnswConfig, HnswIndex};
use vec_hnsw::metric::{DistanceMetric, L2Distance};
use vec_hnsw::query::{InsertOptions, SearchOptions};

#[derive(Debug, Clone, Copy, PartialEq)]
struct Scalar(f32);

fn v(values: &[f32]) -> Vec<Scalar> {
    values.iter().map(|value| Scalar(*value)).collect()
}

fn key(distance: f32) -> u64 {
    let distance = if distance == 0.0 { 0.0 } else { distance };
    let bits = distance.to_bits();
    let ordered = if bits & 0x8000_0000 != 0 { !bits } else { bits | 0x8000_0000 };
    u64::from(ordered)
}

impl DistanceMetric<Scalar> for L2Distance {
    fn distance(&self, left: &[Scalar], right: &[Scalar]) -> u64 {
        key(left
            .iter()
            .zip(right.iter())
            .map(|(left, right)| {
                let diff = left.0 - right.0;
                diff * diff
            })
            .sum())
    }
}

/// A metric that ranks vectors by their first element alone.
#[derive(Debug, Clone, Copy)]
struct FirstElement;

impl DistanceMetric<u32> for FirstElement {
    fn distance(&self, left: &[u32], right: &[u32]) -> u64 {
        u64::from(left[0].abs_diff(right[0]))
    }
}

fn test_config() -> HnswConfig {
    HnswConfig {
        m: 4,
        ef_construction: 16,
        ef_search: 16,
        max_level: 8,
        level_seed: 42,
    }
}

fn ids_of(index: &HnswIndex<Scalar>, query: &[f32], k: usize) -> Vec<u64> {
    index
        .search(&v(query), k)
        .unwrap()
        .into_iter()
        .map(|hit| hit.id)
        .collect()
}

#[test]
fn default_config_has_documented_values() {
    let config = HnswConfig::default();
    assert_eq!(config.m, 16);
    assert_eq!(config.ef_construction, 64);
    assert_eq!(config.ef_search, 32);
    assert_eq!(config.max_level, 16);
    assert_eq!(config.level_seed, 0x9e37_79b9_7f4a_7c15);
}

#[test]
fn each_zero_count_of_the_config_is_refused() {
    let mut config = test_config();
    config.m = 0;
    assert_eq!(
        HnswIndex::<Scalar>::new(config).err(),
        Some(VecHnswError::InvalidConfig("m must be greater than 0"))
    );

    let mut config = test_config();
    config.ef_construction = 0;
    assert_eq!(
        HnswIndex::<Scalar>::new(config).err(),
        Some(VecHnswError::InvalidConfig("ef_construction must be greater than 0"))
    );

    let mut config = test_config();
    config.ef_search = 0;
    assert_eq!(
        HnswIndex::<Scalar>::new(config).err(),
        Some(VecHnswError::InvalidConfig("ef_search must be greater than 0"))
    );

    let mut config = test_config();
    config.max_level = 0;
    assert_eq!(
        HnswIndex::<u32, FirstElement>::with_metric(config, FirstElement).err(),
        Some(VecHnswError::InvalidConfig("max_level must be greater than 0"))
    );

    let mut config = test_config();
    config.m = 0;
    config.max_level = 0;
    assert_eq!(
        HnswIndex::<Scalar>::new(config).err(),
        Some(VecHnswError::InvalidConfig("m must be greater than 0"))
    );
}

#[test]
fn empty_vectors_are_refused() {
    let mut index = HnswIndex::new(test_config()).unwrap();
    assert_eq!(index.insert(1, v(&[])), Err(VecHnswError::EmptyVector));
    assert_eq!(index.len(), 0);
    assert_eq!(index.search(&v(&[]), 1), Err(VecHnswError::EmptyVector));
}

#[test]
fn insert_of_other_dimension_is_refused_and_changes_nothing() {
    let mut index = HnswIndex::new(test_config()).unwrap();
    index.insert(1, v(&[0.0, 0.0])).unwrap();

    let error = index.insert(2, v(&[1.0, 1.0, 1.0])).unwrap_err();

    assert_eq!(error, VecHnswError::DimensionMismatch { expected: 2, actual: 3 });
    assert_eq!(index.len(), 1);
    assert_eq!(ids_of(&index, &[1.0, 1.0], 5), vec![1]);
}

#[test]
fn dimension_stays_fixed_after_every_vector_is_deleted() {
    let mut index = HnswIndex::new(test_config()).unwrap();
    index.insert(1, v(&[0.0, 0.0])).unwrap();
    index.delete(1).unwrap();
    assert!(index.is_empty());

    let error = index.insert(2, v(&[0.0])).unwrap_err();

    assert_eq!(error, VecHnswError::DimensionMismatch { expected: 2, actual: 1 });
}

#[test]
fn zero_results_are_asked_for_nothing_is_checked() {
    let mut index = HnswIndex::new(test_config()).unwrap();
    index.insert(1, v(&[0.0, 0.0])).unwrap();

    assert_eq!(index.search(&v(&[0.0, 0.0, 0.0]), 0), Ok(Vec::new()));
    assert_eq!(index.search(&v(&[]), 0), Ok(Vec::new()));
}

#[test]
fn search_after_deleting_everything_is_empty() {
    let mut index = HnswIndex::new(test_config()).unwrap();
    index.insert(1, v(&[0.0, 0.0])).unwrap();
    index.insert(2, v(&[1.0, 1.0])).unwrap();
    index.delete(1).unwrap();
    index.delete(2).unwrap();

    assert_eq!(index.search(&v(&[0.0, 0.0]), 3), Ok(Vec::new()));
}

#[test]
fn len_and_is_empty_count_live_vectors() {
    let mut index = HnswIndex::new(test_config()).unwrap();
    assert!(index.is_empty());
    index.insert(1, v(&[0.0, 0.0])).unwrap();
    index.insert_with_options(2, v(&[1.0, 0.0]), InsertOptions).unwrap();
    assert_eq!(index.len(), 2);
    assert!(!index.is_empty());
    index.delete(1).unwrap();
    assert_eq!(index.len(), 1);
    assert_eq!(index.delete(1), Err(VecHnswError::VectorNotFound(1)));
    assert_eq!(index.len(), 1);
}

#[test]
fn update_of_unknown_id_is_refused() {
    let mut index = HnswIndex::new(test_config()).unwrap();
    index.insert(1, v(&[0.0, 0.0])).unwrap();

    assert_eq!(index.update(9, v(&[1.0, 1.0])), Err(VecHnswError::VectorNotFound(9)));
    assert_eq!(index.len(), 1);
}

#[test]
fn update_with_invalid_vector_keeps_the_old_one() {
    let mut index = HnswIndex::new(test_config()).unwrap();
    index.insert(1, v(&[0.0, 0.0])).unwrap();

    assert_eq!(
        index.update(1, v(&[1.0])),
        Err(VecHnswError::DimensionMismatch { expected: 2, actual: 1 })
    );
    assert_eq!(index.update(1, v(&[])), Err(VecHnswError::EmptyVector));
    assert_eq!(index.len(), 1);
    let hits = index.search(&v(&[0.0, 0.0]), 1).unwrap();
    assert_eq!(hits[0].id, 1);
    assert_eq!(hits[0].distance, key(0.0));
}

#[test]
fn update_matches_delete_then_insert() {
    let mut updated = HnswIndex::new(test_config()).unwrap();
    let mut rebuilt = HnswIndex::new(test_config()).unwrap();
    for id in 0..10 {
        updated.insert(id, v(&[id as f32, 0.0])).unwrap();
        rebuilt.insert(id, v(&[id as f32, 0.0])).unwrap();
    }

    updated.update(3, v(&[20.0, 0.0])).unwrap();
    rebuilt.delete(3).unwrap();
    rebuilt.insert(3, v(&[20.0, 0.0])).unwrap();

    assert_eq!(updated.len(), rebuilt.len());
    assert_eq!(ids_of(&updated, &[19.0, 0.0], 4), ids_of(&rebuilt, &[19.0, 0.0], 4));
    assert_eq!(ids_of(&updated, &[19.0, 0.0], 1), vec![3]);
}

#[test]
fn hits_are_live_distinct_and_nearest_first() {
    let mut index = HnswIndex::new(test_config()).unwrap();
    for id in 0..30 {
        index.insert(id, v(&[id as f32, (id % 5) as f32])).unwrap();
    }
    for id in (0..30).step_by(3) {
        index.delete(id).unwrap();
    }

    let hits = index
        .search_with_options(&v(&[12.0, 2.0]), SearchOptions::new(8).with_ef_search(40))
        .unwrap();

    assert!(hits.len() <= 8);
    for (position, hit) in hits.iter().enumerate() {
        assert!(hit.id % 3 != 0);
        for later in &hits[position + 1..] {
            assert!(hit.distance <= later.distance);
            assert_ne!(hit.id, later.id);
        }
    }
}

#[test]
fn search_options_carry_k_and_override() {
    let options = SearchOptions::new(5);
    assert_eq!(options.k, 5);
    assert_eq!(options.ef_search, None);
    let options = options.with_ef_search(7);
    assert_eq!(options.k, 5);
    assert_eq!(options.ef_search, Some(7));
}

#[test]
fn integer_metric_finds_exact_neighbors() {
    let mut index = HnswIndex::with_metric(test_config(), FirstElement).unwrap();
    for id in 0..40u32 {
        index.insert(u64::from(id), vec![id * 10]).unwrap();
    }

    let hits = index.search(&[203], 3).unwrap();

    assert_eq!(hits.len(), 3);
    assert_eq!(hits[0].id, 20);
    assert_eq!(hits[0].distance, 3);
    assert_eq!(hits[1].id, 21);
    assert_eq!(hits[1].distance, 7);
}

#[test]
fn error_messages_describe_the_error() {
    assert_eq!(
        VecHnswError::DuplicateVectorId(7).message(),
        "vector id 7 already exists"
    );
    assert_eq!(VecHnswError::EmptyVector.message(), "vector must not be empty");
    assert_eq!(
        VecHnswError::DimensionMismatch { expected: 2, actual: 30 }.message(),
        "vector dimension mismatch: expected 2, got 30"
    );
    assert_eq!(
        VecHnswError::InvalidConfig("m must be greater than 0").message(),
        "invalid HNSW config: m must be greater than 0"
    );
    assert_eq!(
        VecHnswError::VectorNotFound(404).message(),
        "vector id 404 was not found"
    );
    assert_eq!(
        VecHnswError::VectorNotFound(u64::MAX).message(),
        "vector id 18446744073709551615 was not found"
    );
    assert_eq!(VecHnswError::DuplicateVectorId(0).message(), "vector id 0 already exists");
}

/// The threshold agrees with drawing `v / 2^24 < 1 / max(m, 2)` in single
/// precision, for every draw `v` of 24 bits.
fn threshold_matches_single_precision(m: usize) {
    let threshold = promotion_threshold_of(m);
    let probability = 1.0 / m.max(2) as f32;
    let scale = (1_u64 << 24) as f32;
    assert!(threshold >= 1);
    assert!(threshold <= 1 << 24);
    let below = threshold - 1;
    assert!((below as f32) / scale < probability, "m = {m}");
    if threshold < (1 << 24) {
        assert!(!((threshold as f32) / scale < probability), "m = {m}");
    }
}

#[test]
fn promotion_threshold_matches_single_precision_probability() {
    for m in 0..5000 {
        threshold_matches_single_precision(m);
    }
    for m in [
        (1 << 23) - 1,
        1 << 23,
        (1 << 24) - 3,
        (1 << 24) - 1,
        1 << 24,
        (1 << 24) + 1,
        1 << 40,
        usize::MAX,
    ] {
        threshold_matches_single_precision(m);
    }
    assert_eq!(promotion_threshold_of(16), 1 << 20);
    assert_eq!(promotion_threshold_of(2), 1 << 23);
    assert_eq!(promotion_threshold_of(3), 5592406);
}

#[test]
fn lone_vector_is_the_only_hit() {
    let mut index = HnswIndex::with_metric(test_config(), FirstElement).unwrap();
    index.insert(7, vec![40]).unwrap();

    let hits = index.search(&[1], 5).unwrap();

    assert_eq!(hits.len(), 1);
    assert_eq!(hits[0].id, 7);
    assert_eq!(hits[0].distance, 39);
}

#[test]
fn hit_distances_are_the_metric_distances() {
    let mut index = HnswIndex::with_metric(test_config(), FirstElement).unwrap();
    for id in 0..25u32 {
        index.insert(u64::from(id), vec![id * id]).unwrap();
    }

    let hits = index.search(&[150], 6).unwrap();

    assert!(!hits.is_empty());
    for hit in &hits {
        let stored = (hit.id * hit.id) as u32;
        assert_eq!(hit.distance, u64::from(stored.abs_diff(150)));
    }
}

#[test]
fn index_without_vectors_answers_no_hits() {
    let index: HnswIndex<u32, FirstElement> = HnswIndex::with_metric(test_config(), FirstElement).unwrap();

    let hits = index.search(&[3, 4], 4).unwrap();

    assert!(hits.is_empty());
}

#[test]
fn insert_and_delete_move_len_by_one() {
    let mut index = HnswIndex::with_metric(test_config(), FirstElement).unwrap();
    index.insert(1, vec![1]).unwrap();
    index.insert(2, vec![2]).unwrap();
    assert_eq!(index.len(), 2);
    index.insert(3, vec![3]).unwrap();
    assert_eq!(index.len(), 3);
    index.delete(2).unwrap();
    assert_eq!(index.len(), 2);
    index.update(3, vec![9]).unwrap();
    assert_eq!(index.len(), 2);
}

#[test]
fn index_within_m_plus_one_nodes_answers_exactly() {
    let mut index = HnswIndex::with_metric(test_config(), FirstElement).unwrap();
    index.insert(1, vec![10]).unwrap();
    index.insert(2, vec![50]).unwrap();
    index.insert(3, vec![30]).unwrap();
    index.delete(1).unwrap();
    index.update(2, vec![12]).unwrap();

    let hits = index.search(&[0], 10).unwrap();

    assert_eq!(hits.len(), 2);
    assert_eq!((hits[0].id, hits[0].distance), (2, 12));
    assert_eq!((hits[1].id, hits[1].distance), (3, 30));
}

#[test]
fn fewer_results_at_one_width_are_a_prefix() {
    let mut index = HnswIndex::with_metric(test_config(), FirstElement).unwrap();
    for id in 0..30u32 {
        index.insert(u64::from(id), vec![(id * 7) % 31]).unwrap();
    }

    let few = index
        .search_with_options(&[12], SearchOptions::new(3).with_ef_search(10))
        .unwrap();
    let more = index
        .search_with_options(&[12], SearchOptions::new(8).with_ef_search(10))
        .unwrap();

    assert_eq!(few.len(), 3);
    assert_eq!(few[..], more[..3]);
}

#[test]
fn equal_histories_answer_alike() {
    let build = || {
        let mut index = HnswIndex::with_metric(test_config(), FirstElement).unwrap();
        for id in 0..25u32 {
            index.insert(u64::from(id), vec![(id * 11) % 17]).unwrap();
        }
        index.delete(4).unwrap();
        index.update(9, vec![3]).unwrap();
        index
    };
    let first = build();
    let second = build();

    for query in 0..20u32 {
        assert_eq!(first.search(&[query], 4).unwrap(), second.search(&[query], 4).unwrap());
    }
}
