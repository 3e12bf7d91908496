use light_vector_db::records::Records;
use light_vector_db::{
    cosine_similarity, AnnIndex, AnnParams, BruteForce, IndexData, Record, VectorDbError,
    VectorIndex, F32,
};

fn floats(values: &[f32]) -> Vec<F32> {
    values.iter().map(|x| F32::from_bits(x.to_bits())).collect()
}

fn number(x: F32) -> f32 {
    f32::from_bits(x.to_bits())
}

/// Deterministic pseudo-random vector generator (splitmix64), no rng dep.
fn sample_vector(seed: u64, dimension: usize) -> Vec<F32> {
    let mut state = seed.wrapping_add(0x9E37_79B9_7F4A_7C15);
    let values: Vec<f32> = (0..dimension)
        .map(|_| {
            state = state.wrapping_add(0x9E37_79B9_7F4A_7C15);
            let mut z = state;
            z = (z ^ (z >> 30)).wrapping_mul(0xBF58_476D_1CE4_E5B9);
            z = (z ^ (z >> 27)).wrapping_mul(0x94D0_49BB_1331_11EB);
            z ^= z >> 31;
            (z >> 40) as f32 / (1u32 << 24) as f32 * 2.0 - 1.0
        })
        .collect();
    floats(&values)
}

fn brute_force_top1(entries: &[(u64, Vec<F32>)], query: &[F32]) -> u64 {
    entries
        .iter()
        .map(|(id, vector)| (number(cosine_similarity(query, vector)), *id))
        .max_by(|a, b| a.0.total_cmp(&b.0))
        .map(|(_, id)| id)
        .unwrap()
}

#[test]
fn brute_force_is_exact_and_sorted() {
    let mut index = BruteForce::with_dimension(4).unwrap();
    index.insert(1, floats(&[1.0, 0.0, 0.0, 0.0])).unwrap();
    index.insert(2, floats(&[0.0, 1.0, 0.0, 0.0])).unwrap();
    index.insert(3, floats(&[0.0, 0.0, 1.0, 0.0])).unwrap();

    let hits = index.search(&floats(&[0.1, 0.0, 0.9, 0.0]), 2, 0).unwrap();
    assert_eq!(hits.len(), 2);
    assert_eq!(hits[0].0, 3);
    assert!(number(hits[0].1) >= number(hits[1].1));
}

#[test]
fn brute_force_rejects_bad_vectors() {
    let mut index = BruteForce::with_dimension(2).unwrap();
    assert!(matches!(
        index.insert(1, vec![]),
        Err(VectorDbError::InvalidVector(_))
    ));
    assert!(matches!(
        index.insert(1, floats(&[f32::NAN, 0.0])),
        Err(VectorDbError::InvalidVector(_))
    ));
    assert!(matches!(
        index.insert(1, floats(&[1.0, 2.0, 3.0])),
        Err(VectorDbError::DimensionMismatch { .. })
    ));
}

/// The two indexes must agree on the top result: with a high `ef` the graph
/// walk is effectively exhaustive, so HNSW should match brute force.
#[test]
fn brute_force_and_hnsw_agree_on_top1() {
    let dimension = 16;
    let count = 60usize;

    let mut exact = BruteForce::with_dimension(dimension).unwrap();
    let mut approx = AnnIndex::with_dimension(dimension, Default::default()).unwrap();
    for i in 0..count {
        let v = sample_vector(i as u64, dimension);
        exact.insert(i as u64, v.clone()).unwrap();
        approx.insert(i as u64, v).unwrap();
    }

    for q in 0..10 {
        let query = sample_vector(1_000 + q as u64, dimension);
        let truth = exact.search(&query, 1, 0).unwrap();
        let got = approx.search_with_ef(&query, 1, count).unwrap();
        assert_eq!(got[0].0, truth[0].0, "query {q} disagreed");
    }
}

#[test]
fn empty_index_returns_no_hits() {
    let index = AnnIndex::new();
    assert!(index.is_empty());
    assert!(index.search(&floats(&[1.0, 0.0]), 5).unwrap().is_empty());
}

#[test]
fn zero_k_returns_no_hits() {
    let mut index = AnnIndex::new();
    index.insert(1, floats(&[1.0, 0.0])).unwrap();
    assert!(index.search(&floats(&[1.0, 0.0]), 0).unwrap().is_empty());
}

#[test]
fn dimension_is_inferred_then_enforced() {
    let mut index = AnnIndex::new();
    index.insert(1, floats(&[1.0, 0.0])).unwrap();
    assert_eq!(index.dimension(), Some(2));
    assert!(matches!(
        index.insert(2, floats(&[1.0, 0.0, 0.0])),
        Err(VectorDbError::DimensionMismatch {
            expected: 2,
            actual: 3
        })
    ));
    assert_eq!(index.len(), 1);
}

#[test]
fn rejects_empty_and_non_finite_vectors() {
    let mut index = AnnIndex::with_dimension(2, AnnParams::default()).unwrap();
    assert!(matches!(
        index.insert(1, vec![]),
        Err(VectorDbError::InvalidVector(_))
    ));
    assert!(matches!(
        index.insert(1, floats(&[f32::NAN, 1.0])),
        Err(VectorDbError::InvalidVector(_))
    ));
    assert!(matches!(
        index.search(&floats(&[f32::INFINITY, 0.0]), 1),
        Err(VectorDbError::InvalidVector(_))
    ));
}

#[test]
fn search_rejects_dimension_mismatch() {
    let mut index = AnnIndex::with_dimension(3, AnnParams::default()).unwrap();
    index.insert(1, floats(&[1.0, 0.0, 0.0])).unwrap();
    assert!(matches!(
        index.search(&floats(&[1.0, 0.0]), 1),
        Err(VectorDbError::DimensionMismatch {
            expected: 3,
            actual: 2
        })
    ));
}

#[test]
fn finds_true_nearest_on_separated_points() {
    // Well-separated one-hot vectors: the nearest neighbour is unambiguous.
    let mut index = AnnIndex::with_dimension(4, AnnParams::default()).unwrap();
    index.insert(1, floats(&[1.0, 0.0, 0.0, 0.0])).unwrap();
    index.insert(2, floats(&[0.0, 1.0, 0.0, 0.0])).unwrap();
    index.insert(3, floats(&[0.0, 0.0, 1.0, 0.0])).unwrap();
    index.insert(4, floats(&[0.0, 0.0, 0.0, 1.0])).unwrap();

    let hits = index.search(&floats(&[0.1, 0.0, 0.9, 0.05]), 2).unwrap();
    assert_eq!(hits.len(), 2);
    assert_eq!(hits[0].0, 3);
    assert!(number(hits[0].1) >= number(hits[1].1));
}

#[test]
fn matches_brute_force_top1_with_high_ef() {
    // With ef >= number of nodes the greedy walk explores the whole
    // connected graph, so recall should match exact search.
    let dimension = 16;
    let count = 60;
    let entries: Vec<(u64, Vec<F32>)> = (0..count)
        .map(|i| (i as u64, sample_vector(i as u64, dimension)))
        .collect();

    let params = AnnParams {
        max_neighbors: 8,
        ef_construction: 64,
        ef_search: count,
    };
    let mut index = AnnIndex::with_dimension(dimension, params).unwrap();
    for (id, vector) in &entries {
        index.insert(*id, vector.clone()).unwrap();
    }
    assert_eq!(index.len(), count);

    for q in 0..10 {
        let query = sample_vector(1_000 + q as u64, dimension);
        let expected = brute_force_top1(&entries, &query);
        let hits = index.search(&query, 1).unwrap();
        assert_eq!(hits[0].0, expected, "query {q} mismatch");
    }
}

#[test]
fn no_node_links_to_more_than_max_neighbors() {
    let params = AnnParams {
        max_neighbors: 3,
        ef_construction: 16,
        ef_search: 16,
    };
    let mut index = AnnIndex::with_params(params);
    for id in 0..50u64 {
        index.insert(id, sample_vector(id, 6)).unwrap();
    }
    let data = index.persist().unwrap();
    assert_eq!(data.neighbors.len(), 50);
    assert_eq!(data.entry, Some(0));
    for list in &data.neighbors {
        assert!(list.len() <= 3);
        assert!(list.iter().all(|n| *n < 50));
    }
}

#[test]
fn hits_are_sorted_distinct_and_scored() {
    let mut index = AnnIndex::new();
    for id in 0..40u64 {
        index.insert(100 + id, sample_vector(id, 5)).unwrap();
    }
    let query = sample_vector(77, 5);
    let hits = index.search_with_ef(&query, 10, 20).unwrap();
    assert!(hits.len() <= 10);
    for pair in hits.windows(2) {
        assert!(number(pair[0].1) >= number(pair[1].1));
        assert_ne!(pair[0].0, pair[1].0);
    }
    for (id, score) in &hits {
        let expected = cosine_similarity(&query, &sample_vector(id - 100, 5));
        assert_eq!(score.to_bits(), expected.to_bits());
    }
}

#[test]
fn equal_scores_are_reported_by_id() {
    let mut index = BruteForce::new();
    for id in [9u64, 4, 7] {
        index.insert(id, floats(&[1.0, 1.0])).unwrap();
    }
    let hits = index.search(&floats(&[1.0, 1.0]), 2, 0).unwrap();
    assert_eq!(hits.iter().map(|h| h.0).collect::<Vec<_>>(), vec![4, 7]);
    assert!(index.persist().is_none());
}

#[test]
fn dimension_zero_is_refused() {
    assert!(matches!(
        BruteForce::with_dimension(0),
        Err(VectorDbError::InvalidVector("dimension must be greater than zero"))
    ));
    assert!(matches!(
        AnnIndex::with_dimension(0, AnnParams::default()),
        Err(VectorDbError::InvalidVector("dimension must be greater than zero"))
    ));
}

fn records(count: u64, dimension: usize) -> Records {
    let mut records = Records::new();
    for id in 0..count {
        records.insert(
            id,
            Record::new(id, sample_vector(id, dimension), String::new()),
        );
    }
    records
}

#[test]
fn a_stored_graph_is_taken_up_as_it_was() {
    let mut index = AnnIndex::new();
    for id in [5u64, 1, 9, 3, 7, 2, 8, 0, 6, 4] {
        index.insert(id, sample_vector(id, 4)).unwrap();
    }
    let data = index.persist().unwrap();
    let again = index.clone().persist().unwrap();
    assert_eq!(data, again);
    let restored =
        AnnIndex::from_persisted(Some(4), AnnParams::default(), again, &records(10, 4)).unwrap();
    assert_eq!(restored.dimension(), Some(4));
    assert_eq!(restored.params(), AnnParams::default());
    assert_eq!(restored.persist().unwrap(), data);
    let query = sample_vector(123, 4);
    assert_eq!(
        restored.search(&query, 5).unwrap(),
        index.search(&query, 5).unwrap()
    );
}

#[test]
fn a_stored_graph_must_match_the_records() {
    let pair = |ids: Vec<u64>, links: Vec<Vec<u32>>, entry| IndexData {
        node_ids: ids,
        neighbors: links,
        entry,
    };
    let take = |data| AnnIndex::from_persisted(None, AnnParams::default(), data, &records(2, 3));
    assert!(take(pair(vec![1, 0], vec![vec![1], vec![0]], Some(1))).is_ok());
    for bad in [
        pair(vec![1, 1], vec![vec![], vec![]], Some(0)),
        pair(vec![1, 2], vec![vec![], vec![]], Some(0)),
        pair(vec![1], vec![vec![]], Some(0)),
        pair(vec![1, 0], vec![vec![]], Some(0)),
    ] {
        assert!(matches!(
            take(bad),
            Err(VectorDbError::Corrupt("index does not match the records"))
        ));
    }
    for bad in [
        pair(vec![1, 0], vec![vec![2], vec![]], Some(0)),
        pair(vec![1, 0], vec![vec![], vec![]], Some(2)),
        pair(vec![1, 0], vec![vec![], vec![]], None),
    ] {
        assert!(matches!(
            take(bad),
            Err(VectorDbError::Corrupt("index link out of range"))
        ));
    }
    let data = pair(vec![1, 0], vec![vec![], vec![]], Some(0));
    assert!(matches!(
        AnnIndex::from_persisted(Some(4), AnnParams::default(), data, &records(2, 3)),
        Err(VectorDbError::DimensionMismatch {
            expected: 4,
            actual: 3
        })
    ));
}

#[test]
fn small_graphs_are_exact_whatever_the_effort() {
    let params = AnnParams {
        max_neighbors: 6,
        ef_construction: 1,
        ef_search: 1,
    };
    for count in 0..=7u64 {
        let mut graph = AnnIndex::with_params(params);
        let mut exact = BruteForce::new();
        for id in 0..count {
            graph.insert(id, sample_vector(id, 3)).unwrap();
            exact.insert(id, sample_vector(id, 3)).unwrap();
        }
        if let Some(data) = graph.persist() {
            assert!(data.neighbors.iter().all(|list| list.len() as u64 == count - 1));
        }
        for seed in 50..60u64 {
            let query = sample_vector(seed, 3);
            for k in 0..9 {
                for ef in [0, 1, 3, 20] {
                    assert_eq!(
                        graph.search_with_ef(&query, k, ef).unwrap(),
                        exact.search(&query, k, 0).unwrap()
                    );
                }
            }
        }
    }
}
