use sieve::ann_index::{ApproximateNearestNeighborsIndex, IndexError};
use sieve::vector::Vector;

fn bits(xs: &[f32]) -> Vec<u32> {
    let mut v: Vec<u32> = Vec::new();
    for x in xs {
        v.push(x.to_bits());
    }
    v
}

#[test]
fn test_simple_index() {
    let vectors = vec![Vector::new(bits(&[1.0, 2.0])), Vector::new(bits(&[3.0, 4.0]))];
    let ids: Vec<i32> = vec![0, 1];

    let index = ApproximateNearestNeighborsIndex::build(2, 2, &vectors, &ids).unwrap();

    let query = Vector::new(bits(&[1.0, 2.0]));
    let results = index.search(query, 2).unwrap();

    assert!(results.len() == 2, "Should only return 2 results");

    let top_1 = results.get(0).unwrap();
    assert!(
        top_1.vector_id == 0,
        "Top search result should be the first vector"
    );

    assert!(
        top_1.distance == (0.0f32).to_bits(),
        "Top search result should be the first vector"
    );
}

#[test]
fn test_top_k_index() {
    let vectors = vec![Vector::new(bits(&[1.0, 2.0])), Vector::new(bits(&[3.0, 4.0]))];
    let ids: Vec<i32> = vec![0, 1];

    let index = ApproximateNearestNeighborsIndex::build(2, 2, &vectors, &ids).unwrap();

    let query = Vector::new(bits(&[1.0, 2.0]));
    let results = index.search(query, 1).unwrap();

    assert!(results.len() == 1, "Should only return 1 result");

    let top_1 = results.get(0).unwrap();
    assert!(
        top_1.vector_id == 0,
        "Top search result should be the first vector"
    );

    assert!(
        top_1.distance == (0.0f32).to_bits(),
        "Top search result should be the first vector"
    );
}

#[test]
fn test_deduplication_keeps_first_id() {
    let vectors = vec![
        Vector::new(bits(&[1.0, 2.0])),
        Vector::new(bits(&[3.0, 4.0])),
        Vector::new(bits(&[1.0, 2.0])),
    ];
    let ids: Vec<i32> = vec![10, 20, 30];

    let index = ApproximateNearestNeighborsIndex::build(3, 4, &vectors, &ids).unwrap();

    let stored = index.all_vectors();
    assert_eq!(stored.len(), 2);
    assert_eq!(stored[0].values(), bits(&[1.0, 2.0]));
    assert_eq!(stored[1].values(), bits(&[3.0, 4.0]));

    let results = index.search(Vector::new(bits(&[1.0, 2.0])), 1).unwrap();
    assert_eq!(results.len(), 1);
    assert_eq!(results[0].vector_id, 10);
    assert_eq!(results[0].distance, (0.0f32).to_bits());
}

#[test]
fn test_top_k_bound() {
    let vectors = vec![
        Vector::new(bits(&[0.0, 0.0])),
        Vector::new(bits(&[1.0, 0.0])),
        Vector::new(bits(&[0.0, 1.0])),
    ];
    let ids: Vec<i32> = vec![0, 1, 2];

    let index = ApproximateNearestNeighborsIndex::build(2, 3, &vectors, &ids).unwrap();
    let query = Vector::new(bits(&[0.0, 0.0]));

    let many = index.search(query.clone(), 10).unwrap();
    assert!(many.len() <= 10);
    assert!(many.len() <= 3);

    let few = index.search(query.clone(), 2).unwrap();
    assert_eq!(few.len(), 2);

    let none = index.search(query, 0).unwrap();
    assert_eq!(none.len(), 0);
}

#[test]
fn test_results_sorted_by_distance() {
    let vectors = vec![
        Vector::new(bits(&[5.0, 5.0])),
        Vector::new(bits(&[1.0, 1.0])),
        Vector::new(bits(&[3.0, 3.0])),
        Vector::new(bits(&[2.0, 2.0])),
    ];
    let ids: Vec<i32> = vec![0, 1, 2, 3];

    let index = ApproximateNearestNeighborsIndex::build(3, 4, &vectors, &ids).unwrap();
    let results = index.search(Vector::new(bits(&[0.0, 0.0])), 4).unwrap();

    assert_eq!(results.len(), 4);
    let mut i: usize = 1;
    while i < results.len() {
        let prev = f32::from_bits(results[i - 1].distance);
        let here = f32::from_bits(results[i].distance);
        assert!(prev <= here, "distances must be non-decreasing");
        i += 1;
    }
    assert_eq!(results[0].vector_id, 1);
    assert_eq!(results[0].distance, (2.0f32).to_bits());
}

#[test]
fn test_search_idempotent() {
    let vectors = vec![
        Vector::new(bits(&[5.0, 5.0])),
        Vector::new(bits(&[1.0, 1.0])),
        Vector::new(bits(&[3.0, 3.0])),
    ];
    let ids: Vec<i32> = vec![7, 8, 9];

    let index = ApproximateNearestNeighborsIndex::build(4, 2, &vectors, &ids).unwrap();
    let query = Vector::new(bits(&[2.0, 2.0]));

    let first = index.search(query.clone(), 2).unwrap();
    let second = index.search(query, 2).unwrap();

    assert_eq!(first.len(), second.len());
    let mut i: usize = 0;
    while i < first.len() {
        assert_eq!(first[i].vector_id, second[i].vector_id);
        assert_eq!(first[i].distance, second[i].distance);
        assert_eq!(first[i].vector.values(), second[i].vector.values());
        i += 1;
    }
}

#[test]
fn test_empty_index() {
    let vectors: Vec<Vector> = vec![];
    let ids: Vec<i32> = vec![];

    let index = ApproximateNearestNeighborsIndex::build(3, 2, &vectors, &ids).unwrap();

    assert_eq!(index.all_vectors().len(), 0);
    let results = index.search(Vector::new(bits(&[1.0, 2.0])), 5).unwrap();
    assert_eq!(results.len(), 0);
}

#[test]
fn test_full_search_returns_every_vector() {
    let vectors = vec![
        Vector::new(bits(&[0.0, 0.0])),
        Vector::new(bits(&[10.0, 0.0])),
        Vector::new(bits(&[0.0, 10.0])),
        Vector::new(bits(&[10.0, 10.0])),
        Vector::new(bits(&[5.0, 5.0])),
    ];
    let ids: Vec<i32> = vec![0, 1, 2, 3, 4];

    let index = ApproximateNearestNeighborsIndex::build(3, 2, &vectors, &ids).unwrap();
    let results = index.search(Vector::new(bits(&[1.0, 1.0])), 5).unwrap();

    assert_eq!(results.len(), 5, "every tree covers all ids, so a full query finds them all");
    let mut seen: Vec<i32> = results.iter().map(|r| r.vector_id).collect();
    seen.sort();
    assert_eq!(seen, vec![0, 1, 2, 3, 4]);
}

#[test]
fn test_mismatched_lengths_rejected() {
    let vectors = vec![Vector::new(bits(&[1.0, 2.0]))];
    let ids: Vec<i32> = vec![0, 1];

    let r = ApproximateNearestNeighborsIndex::build(2, 2, &vectors, &ids);
    assert!(matches!(r, Err(IndexError::InvalidInput)));
}

#[test]
fn test_mixed_dimensions_rejected() {
    let vectors = vec![Vector::new(bits(&[1.0, 2.0])), Vector::new(bits(&[1.0]))];
    let ids: Vec<i32> = vec![0, 1];

    let r = ApproximateNearestNeighborsIndex::build(2, 2, &vectors, &ids);
    assert!(matches!(r, Err(IndexError::InvalidInput)));
}

#[test]
fn test_negative_top_k_rejected() {
    let vectors = vec![Vector::new(bits(&[1.0, 2.0]))];
    let ids: Vec<i32> = vec![0];

    let index = ApproximateNearestNeighborsIndex::build(1, 1, &vectors, &ids).unwrap();
    let r = index.search(Vector::new(bits(&[1.0, 2.0])), -1);
    assert!(matches!(r, Err(IndexError::InvalidConfiguration)));
}

#[test]
fn test_query_dimension_mismatch_rejected() {
    let vectors = vec![Vector::new(bits(&[1.0, 2.0]))];
    let ids: Vec<i32> = vec![0];

    let index = ApproximateNearestNeighborsIndex::build(1, 1, &vectors, &ids).unwrap();
    let r = index.search(Vector::new(bits(&[1.0, 2.0, 3.0])), 1);
    assert!(matches!(r, Err(IndexError::InvalidInput)));
}

#[test]
fn test_tiny_leaf_size_rejected() {
    let vectors = vec![Vector::new(bits(&[1.0, 2.0])), Vector::new(bits(&[3.0, 4.0]))];
    let ids: Vec<i32> = vec![0, 1];

    let r = ApproximateNearestNeighborsIndex::build(1, 0, &vectors, &ids);
    assert!(matches!(r, Err(IndexError::InvalidConfiguration)));
}

#[test]
fn test_leaf_size_one_splits_fully() {
    let vectors = vec![Vector::new(bits(&[1.0, 2.0])), Vector::new(bits(&[3.0, 4.0]))];
    let ids: Vec<i32> = vec![0, 1];

    let index = ApproximateNearestNeighborsIndex::build(1, 1, &vectors, &ids).unwrap();
    let results = index.search(Vector::new(bits(&[3.0, 4.0])), 2).unwrap();
    assert_eq!(results.len(), 2);
    assert_eq!(results[0].vector_id, 1);
    assert_eq!(results[0].distance, (0.0f32).to_bits());
}

#[test]
fn test_distance_value_is_exact() {
    let vectors = vec![Vector::new(bits(&[3.0, 4.0]))];
    let ids: Vec<i32> = vec![0];

    let index = ApproximateNearestNeighborsIndex::build(1, 1, &vectors, &ids).unwrap();
    let results = index.search(Vector::new(bits(&[0.0, 0.0])), 1).unwrap();
    assert_eq!(results.len(), 1);
    assert_eq!(results[0].distance, (25.0f32).to_bits());
    assert_eq!(f32::from_bits(results[0].distance), 25.0f32);
    assert_eq!(results[0].vector.values(), bits(&[3.0, 4.0]));
}
