use light_vector_db::{
    cosine_similarity, AnnParams, Encoding, IndexKind, Metadata, MmapDb, Record, Records,
    SearchResult, VectorDb, VectorDbError, VectorIndex, F32,
};

fn floats(values: &[f32]) -> Vec<F32> {
    values.iter().map(|x| F32::from_bits(x.to_bits())).collect()
}

fn number(x: F32) -> f32 {
    f32::from_bits(x.to_bits())
}

fn record(id: u64, vector: Vec<f32>) -> Record {
    Record::new(id, floats(&vector), format!("record {id}"))
}

fn tagged(record: Record, key: &str, value: &str) -> Record {
    record.with_metadata(key.to_string(), value.to_string())
}

fn filter(pairs: &[(&str, &str)]) -> Metadata {
    let mut filter = Metadata::new();
    for (key, value) in pairs {
        filter.insert(key.to_string(), value.to_string());
    }
    filter
}

fn hnsw() -> IndexKind {
    IndexKind::Hnsw(AnnParams::default())
}

fn ids(hits: &[SearchResult]) -> Vec<u64> {
    hits.iter().map(|h| h.record.id).collect()
}

/// Deterministic pseudo-random vector generator (splitmix64), no rng dep.
fn sample_vector(seed: u64, dimension: usize) -> Vec<f32> {
    let mut state = seed.wrapping_add(0x9E37_79B9_7F4A_7C15);
    (0..dimension)
        .map(|_| {
            state = state.wrapping_add(0x9E37_79B9_7F4A_7C15);
            let mut z = state;
            z = (z ^ (z >> 30)).wrapping_mul(0xBF58_476D_1CE4_E5B9);
            z = (z ^ (z >> 27)).wrapping_mul(0x94D0_49BB_1331_11EB);
            z ^= z >> 31;
            (z >> 40) as f32 / (1u32 << 24) as f32 * 2.0 - 1.0
        })
        .collect()
}

#[test]
fn insert_search_and_filter_work() {
    let mut db = VectorDb::with_dimension(2).unwrap();
    db.insert(tagged(record(1, vec![1.0, 0.0]), "topic", "rust"))
        .unwrap();
    db.insert(tagged(record(2, vec![0.0, 1.0]), "topic", "web"))
        .unwrap();
    let mut filter = Metadata::new();
    filter.insert("topic".into(), "rust".into());
    let hits = db
        .search_filtered(&floats(&[1.0, 0.0]), 5, &filter)
        .unwrap();
    assert_eq!(hits.len(), 1);
    assert_eq!(hits[0].record.id, 1);
}

#[test]
fn dimensions_and_non_finite_numbers_are_rejected() {
    let mut db = VectorDb::with_dimension(2).unwrap();
    assert!(matches!(
        db.insert(record(1, vec![1.0])),
        Err(VectorDbError::DimensionMismatch { .. })
    ));
    assert!(matches!(
        db.insert(record(1, vec![f32::NAN, 1.0])),
        Err(VectorDbError::InvalidVector(_))
    ));
}

#[test]
fn duplicate_upsert_and_delete_behave_as_expected() {
    let mut db = VectorDb::new();
    db.insert(record(1, vec![1.0, 0.0])).unwrap();
    assert!(matches!(
        db.insert(record(1, vec![1.0, 0.0])),
        Err(VectorDbError::DuplicateId(1))
    ));
    db.upsert(record(1, vec![0.0, 1.0])).unwrap();
    assert_eq!(db.get(1).unwrap().vector, floats(&[0.0, 1.0]));
    assert_eq!(db.delete(1).unwrap().id, 1);
    assert!(matches!(db.delete(1), Err(VectorDbError::NotFound(1))));
}

#[test]
fn hnsw_backed_db_returns_nearest() {
    let mut db = VectorDb::with_index(4, hnsw()).unwrap();
    db.insert(record(1, vec![1.0, 0.0, 0.0, 0.0])).unwrap();
    db.insert(record(2, vec![0.0, 1.0, 0.0, 0.0])).unwrap();
    db.insert(record(3, vec![0.0, 0.0, 1.0, 0.0])).unwrap();
    assert_eq!(db.index_kind(), IndexKind::Hnsw(AnnParams::default()));

    let hits = db.search(&floats(&[0.05, 0.0, 0.95, 0.0]), 1).unwrap();
    assert_eq!(hits[0].record.id, 3);
}

#[test]
fn upsert_updates_the_index() {
    let mut db = VectorDb::with_dimension(2).unwrap();
    db.insert(record(1, vec![1.0, 0.0])).unwrap();
    db.insert(record(2, vec![-1.0, 0.0])).unwrap();
    assert_eq!(db.search(&floats(&[1.0, 0.0]), 1).unwrap()[0].record.id, 1);

    // Re-point record 1; searching its new direction must return it with a
    // near-perfect score, proving the stale vector left the index.
    db.upsert(record(1, vec![0.0, 1.0])).unwrap();
    let top = db.search(&floats(&[0.0, 1.0]), 1).unwrap();
    assert_eq!(top[0].record.id, 1);
    assert!((number(top[0].score) - 1.0).abs() < 1e-6);
}

#[test]
fn delete_removes_from_search() {
    let mut db = VectorDb::with_dimension(2).unwrap();
    db.insert(record(1, vec![1.0, 0.0])).unwrap();
    db.insert(record(2, vec![0.0, 1.0])).unwrap();
    db.delete(1).unwrap();

    let hits = db.search(&floats(&[1.0, 0.0]), 5).unwrap();
    assert_eq!(hits.len(), 1);
    assert_eq!(hits[0].record.id, 2);
}

#[test]
fn bulk_delete_still_returns_k_live() {
    // Delete the top-ranked records; over-fetch must still return k live hits.
    let mut db = VectorDb::with_index(2, hnsw()).unwrap();
    for i in 0..10u64 {
        let angle = i as f32 * 0.05;
        db.insert(record(i, vec![1.0 - angle, angle])).unwrap();
    }
    for id in [0u64, 1, 2] {
        db.delete(id).unwrap();
    }
    let hits = db.search(&floats(&[1.0, 0.0]), 3).unwrap();
    assert_eq!(
        hits.len(),
        3,
        "over-fetch should still return k live results"
    );
    for hit in &hits {
        assert!(![0, 1, 2].contains(&hit.record.id));
    }
}

#[test]
fn delete_then_reinsert_has_no_duplicate() {
    let mut db = VectorDb::with_dimension(2).unwrap();
    db.insert(record(1, vec![1.0, 0.0])).unwrap();
    db.insert(record(2, vec![0.0, 1.0])).unwrap();
    db.delete(1).unwrap();
    db.insert(record(1, vec![0.5, 0.5])).unwrap(); // reuse the deleted id

    assert_eq!(db.len(), 2);
    let hits = db.search(&floats(&[0.5, 0.5]), 10).unwrap();
    let ones = hits.iter().filter(|h| h.record.id == 1).count();
    assert_eq!(ones, 1, "id 1 must appear once, not duplicated");
    assert_eq!(db.get(1).unwrap().vector, floats(&[0.5, 0.5]));
}

#[test]
fn compact_reclaims_tombstones() {
    let mut db = VectorDb::with_index(2, hnsw()).unwrap();
    for i in 0..5u64 {
        db.insert(record(i, vec![i as f32, 1.0])).unwrap();
    }
    db.delete(0).unwrap();
    db.delete(3).unwrap();
    assert_eq!(db.compact().unwrap(), 2);
    assert_eq!(db.compact().unwrap(), 0); // already clean
    assert_eq!(db.len(), 3);
    for hit in &db.search(&floats(&[0.0, 1.0]), 5).unwrap() {
        assert!(hit.record.id != 0 && hit.record.id != 3);
    }
}

#[test]
fn save_with_tombstones_loads_clean() {
    let mut db = VectorDb::with_index(2, hnsw()).unwrap();
    db.insert(record(1, vec![1.0, 0.0])).unwrap();
    db.insert(record(2, vec![0.0, 1.0])).unwrap();
    db.delete(2).unwrap(); // pending tombstone → saved without a persisted index

    let loaded = VectorDb::from_bytes(&db.to_bytes()).unwrap();
    assert_eq!(loaded.len(), 1);
    assert!(loaded.get(2).is_none());
    assert_eq!(
        loaded.search(&floats(&[1.0, 0.0]), 5).unwrap()[0].record.id,
        1
    );
}

#[test]
fn binary_round_trip() {
    let mut db = VectorDb::with_index(3, hnsw()).unwrap();
    db.insert(tagged(record(1, vec![1.0, 0.0, 0.0]), "topic", "rust"))
        .unwrap();
    db.insert(tagged(record(2, vec![0.0, 0.0, 1.0]), "topic", "db"))
        .unwrap();

    let loaded = VectorDb::from_bytes(&db.to_bytes()).unwrap();
    assert_eq!(loaded.len(), 2);
    assert_eq!(loaded.dimension(), Some(3));
    assert_eq!(loaded.index_kind(), IndexKind::Hnsw(AnnParams::default()));
    let first = loaded.get(1).unwrap();
    assert_eq!(first.metadata.get(&"topic".to_string()).unwrap(), "rust");
    assert_eq!(first.vector, floats(&[1.0, 0.0, 0.0]));
    // The index was rebuilt on load, so search works.
    assert_eq!(
        loaded.search(&floats(&[0.9, 0.0, 0.1]), 1).unwrap()[0].record.id,
        1
    );
}

#[test]
fn binary_rejects_corrupt_file() {
    let mut db = VectorDb::with_dimension(2).unwrap();
    db.insert(record(1, vec![1.0, 0.0])).unwrap();
    let mut bytes = db.to_bytes();
    bytes[0] = b'X'; // clobber the magic
    assert!(matches!(
        VectorDb::from_bytes(&bytes),
        Err(VectorDbError::Corrupt(_))
    ));
}

#[test]
fn persisted_hnsw_index_matches_live_search() {
    let dimension = 8;
    let mut db = VectorDb::with_index(dimension, hnsw()).unwrap();
    // Insert in a shuffled id order so node order differs from id order,
    // making a faithful graph round-trip meaningful.
    for id in [5u64, 1, 9, 3, 7, 2, 8, 0, 6, 4] {
        db.insert(record(id, sample_vector(id, dimension))).unwrap();
    }
    let query = floats(&sample_vector(100, dimension));
    let before = db.search(&query, 5).unwrap();

    let loaded = VectorDb::from_bytes(&db.to_bytes()).unwrap();
    let after = loaded.search(&query, 5).unwrap();

    // The reloaded graph must produce identical results (it was restored,
    // not rebuilt from scratch).
    assert_eq!(before.len(), after.len());
    for (b, a) in before.iter().zip(&after) {
        assert_eq!(b.record.id, a.record.id);
        assert!((number(b.score) - number(a.score)).abs() < 1e-6);
    }
    // Nothing is lost: the bytes are the same when it is saved again.
    assert_eq!(loaded.to_bytes(), db.to_bytes());
}

#[test]
fn scalar_quantized_file_is_smaller_and_searchable() {
    let dimension = 16;
    let mut db = VectorDb::with_dimension(dimension).unwrap();
    db.set_encoding(Encoding::ScalarU8);
    for id in 0..20u64 {
        db.insert(record(id, sample_vector(id, dimension))).unwrap();
    }
    let query = floats(&sample_vector(3, dimension)); // matches record 3 exactly
    let before = db.search(&query, 1).unwrap()[0].record.id;

    let q_bytes = db.to_bytes();
    let mut f32_db = db.clone();
    f32_db.set_encoding(Encoding::Float32);
    let f_bytes = f32_db.to_bytes();

    // The quantized file is meaningfully smaller.
    let (q_size, f_size) = (q_bytes.len(), f_bytes.len());
    assert!(
        q_size < f_size,
        "quantized {q_size} should be < f32 {f_size}"
    );
    assert_eq!(f_size - q_size, 3 * 20 * dimension);

    // Round-trips: encoding preserved, and search still finds the same record.
    let loaded = VectorDb::from_bytes(&q_bytes).unwrap();
    assert_eq!(loaded.encoding(), Encoding::ScalarU8);
    assert_eq!(loaded.len(), 20);
    assert_eq!(loaded.search(&query, 1).unwrap()[0].record.id, before);
}

/// A scan in place must match an exact in-memory search over the same file (both
/// are exact brute force).
#[test]
fn mmap_search_matches_vectordb() {
    let dimension = 12;
    let mut db = VectorDb::with_index(dimension, IndexKind::Exact).unwrap();
    for id in 0..40u64 {
        db.insert(Record::new(
            id,
            floats(&sample_vector(id, dimension)),
            format!("r{id}"),
        ))
        .unwrap();
    }
    let bytes = db.to_bytes();

    let mapped = MmapDb::open(&bytes).unwrap();
    assert_eq!(mapped.len(), 40);
    assert_eq!(mapped.dimension(), Some(dimension));

    let query = floats(&sample_vector(999, dimension));
    let expected = db.search(&query, 5).unwrap();
    let actual = mapped.search(&query, 5).unwrap();
    assert_eq!(expected.len(), actual.len());
    for (e, a) in expected.iter().zip(&actual) {
        assert_eq!(e.record.id, a.record.id);
        assert!((number(e.score) - number(a.score)).abs() < 1e-6);
        assert_eq!(e.record.vector, a.record.vector);
        assert_eq!(e.record.text, a.record.text);
    }
    assert_eq!(expected, actual);
}

#[test]
fn mmap_search_respects_filter_and_validates() {
    let mut db = VectorDb::with_dimension(2).unwrap();
    db.insert(tagged(
        Record::new(1, floats(&[1.0, 0.0]), "a".to_string()),
        "t",
        "x",
    ))
    .unwrap();
    db.insert(tagged(
        Record::new(2, floats(&[0.0, 1.0]), "b".to_string()),
        "t",
        "y",
    ))
    .unwrap();
    let bytes = db.to_bytes();

    let mapped = MmapDb::open(&bytes).unwrap();
    let mut filter = Metadata::new();
    filter.insert("t".into(), "y".into());
    let hits = mapped
        .search_filtered(&floats(&[1.0, 0.0]), 5, &filter)
        .unwrap();
    assert_eq!(hits.len(), 1);
    assert_eq!(hits[0].record.id, 2);

    // Query validation still applies.
    assert!(matches!(
        mapped.search(&floats(&[1.0, 0.0, 0.0]), 5),
        Err(VectorDbError::DimensionMismatch { .. })
    ));
}

#[test]
fn open_rejects_corrupt_header() {
    let mut db = VectorDb::with_dimension(2).unwrap();
    db.insert(Record::new(1, floats(&[1.0, 0.0]), "a".to_string()))
        .unwrap();
    let mut bytes = db.to_bytes();
    bytes[0] = b'X';
    assert!(matches!(
        MmapDb::open(&bytes),
        Err(VectorDbError::Corrupt(_))
    ));
}

#[test]
fn exact_search_ranks_all_live_records() {
    let mut db = VectorDb::with_dimension(4).unwrap();
    for id in 0..30u64 {
        db.insert(record(id, sample_vector(id, 4))).unwrap();
    }
    for id in [3u64, 8, 21, 22] {
        db.delete(id).unwrap();
    }
    let query = floats(&sample_vector(500, 4));
    let mut expected: Vec<(f32, u64)> = (0..30u64)
        .filter(|id| ![3, 8, 21, 22].contains(id))
        .map(|id| {
            let v = floats(&sample_vector(id, 4));
            (number(cosine_similarity(&query, &v)), id)
        })
        .collect();
    expected.sort_by(|a, b| b.0.total_cmp(&a.0).then(a.1.cmp(&b.1)));
    for limit in [1usize, 7, 26, 100] {
        let hits = db.search(&query, limit).unwrap();
        let want: Vec<u64> = expected.iter().take(limit).map(|e| e.1).collect();
        assert_eq!(ids(&hits), want);
    }
    // The order survives compaction and saving.
    let full = db.search(&query, 100).unwrap();
    let saved = VectorDb::from_bytes(&db.to_bytes()).unwrap();
    assert_eq!(saved.search(&query, 100).unwrap(), full);
    assert_eq!(db.compact().unwrap(), 4);
    assert_eq!(db.search(&query, 100).unwrap(), full);
}

#[test]
fn equal_scores_are_listed_by_id() {
    let mut db = VectorDb::new();
    for id in [9u64, 2, 5] {
        db.insert(record(id, vec![1.0, 2.0])).unwrap();
    }
    let query = floats(&[1.0, 2.0]);
    assert_eq!(ids(&db.search(&query, 3).unwrap()), vec![2, 5, 9]);
    assert_eq!(
        ids(&db.search_filtered(&query, 2, &filter(&[])).unwrap()),
        vec![2, 5]
    );
}

#[test]
fn filters_need_every_pair() {
    let mut db = VectorDb::with_index(2, hnsw()).unwrap();
    db.insert(tagged(
        tagged(record(1, vec![1.0, 0.0]), "a", "1"),
        "b",
        "2",
    ))
    .unwrap();
    db.insert(tagged(record(2, vec![1.0, 0.1]), "a", "1")).unwrap();
    db.insert(tagged(record(3, vec![1.0, 0.2]), "b", "2")).unwrap();
    let query = floats(&[1.0, 0.0]);
    let find = |pairs: &[(&str, &str)]| {
        ids(&db.search_filtered(&query, 10, &filter(pairs)).unwrap())
    };
    assert_eq!(find(&[("a", "1")]), vec![1, 2]);
    assert_eq!(find(&[("b", "2")]), vec![1, 3]);
    assert_eq!(find(&[("a", "1"), ("b", "2")]), vec![1]);
    assert_eq!(find(&[("a", "3")]), Vec::<u64>::new());
    assert_eq!(find(&[("c", "1")]), Vec::<u64>::new());
    assert!(db.search_filtered(&query, 0, &filter(&[])).unwrap().is_empty());
}

#[test]
fn metadata_is_ordered_by_key_and_holds_the_last_value() {
    let mut metadata = Metadata::new();
    assert!(metadata.is_empty());
    for (key, value) in [("m", "1"), ("z", "2"), ("a", "3"), ("é", "4"), ("", "5")] {
        assert_eq!(metadata.insert(key.to_string(), value.to_string()), None);
    }
    assert_eq!(
        metadata.insert("m".to_string(), "6".to_string()),
        Some("1".to_string())
    );
    assert_eq!(metadata.len(), 5);
    let pairs: Vec<(String, String)> = (0..metadata.len())
        .map(|i| metadata.entry(i))
        .map(|(k, v)| (k.clone(), v.clone()))
        .collect();
    let mut sorted = pairs.clone();
    sorted.sort();
    assert_eq!(pairs, sorted);
    assert_eq!(metadata.get(&"m".to_string()).unwrap(), "6");
    assert_eq!(metadata.get(&"q".to_string()), None);
}

#[test]
fn errors_have_words() {
    let mut db = VectorDb::with_dimension(2).unwrap();
    db.insert(record(7, vec![1.0, 0.0])).unwrap();
    let message = |r: Result<(), VectorDbError>| r.unwrap_err().message();
    assert_eq!(
        message(db.insert(record(7, vec![1.0, 0.0]))),
        "a record with id 7 already exists"
    );
    assert_eq!(
        message(db.insert(record(8, vec![1.0; 12]))),
        "vector dimension mismatch: expected 2, got 12"
    );
    assert_eq!(
        message(db.insert(record(8, vec![]))),
        "invalid vector: vector cannot be empty"
    );
    assert_eq!(
        message(db.insert(record(8, vec![f32::NAN, 0.0]))),
        "invalid vector: all values must be finite"
    );
    assert_eq!(
        db.delete(18446744073709551615).unwrap_err().message(),
        "no record with id 18446744073709551615"
    );
    assert_eq!(
        VectorDb::from_bytes(b"LVDB").unwrap_err().message(),
        "corrupt .lvdb file: file shorter than header"
    );
    assert_eq!(
        VectorDbError::UnsupportedVersion { major: 2, minor: 10 }.message(),
        "unsupported .lvdb format version 2.10"
    );
    assert_eq!(
        VectorDb::with_dimension(0).unwrap_err().message(),
        "invalid vector: dimension must be greater than zero"
    );
}

#[test]
fn refused_changes_leave_everything_as_it_was() {
    let mut db = VectorDb::with_dimension(2).unwrap();
    db.insert(record(1, vec![1.0, 0.0])).unwrap();
    let before = db.to_bytes();
    assert!(db.insert(record(1, vec![0.0, 1.0])).is_err());
    assert!(db.insert(record(2, vec![0.0])).is_err());
    assert!(db.upsert(record(1, vec![0.0])).is_err());
    assert!(db.delete(2).is_err());
    assert_eq!(db.to_bytes(), before);
}

#[test]
fn parts_that_do_not_fit_are_refused() {
    let mut records = Records::new();
    records.insert(1, record(1, vec![1.0, 0.0]));
    records.insert(2, record(2, vec![1.0]));
    let build = |dimension, records: Records| {
        VectorDb::from_parts(
            dimension,
            IndexKind::Exact,
            Encoding::Float32,
            records,
            None,
        )
    };
    assert!(matches!(
        build(Some(2), records.clone()),
        Err(VectorDbError::DimensionMismatch {
            expected: 2,
            actual: 1
        })
    ));
    // Without a dimension the first record fixes it when the index is built.
    assert!(matches!(
        build(None, records),
        Err(VectorDbError::DimensionMismatch {
            expected: 2,
            actual: 1
        })
    ));
    assert!(matches!(
        build(Some(0), Records::new()),
        Err(VectorDbError::InvalidVector("dimension must be greater than zero"))
    ));
    let mut one = Records::new();
    one.insert(5, record(5, vec![0.5, 0.5]));
    let db = build(None, one).unwrap();
    assert_eq!(db.len(), 1);
    assert_eq!(db.dimension(), None);
}

#[test]
fn a_separate_graph_can_be_built() {
    let mut db = VectorDb::with_dimension(6).unwrap();
    for id in 0..25u64 {
        db.insert(record(id, sample_vector(id, 6))).unwrap();
    }
    let index = db.build_ann_index(AnnParams::default()).unwrap();
    assert_eq!(index.len(), 25);
    assert_eq!(index.dimension(), Some(6));
    let query = floats(&sample_vector(4, 6));
    assert_eq!(index.search_with_ef(&query, 1, 25).unwrap()[0].0, 4);
    assert_eq!(index.persist().unwrap().node_ids, (0..25).collect::<Vec<u64>>());
}

#[test]
fn new_collections_are_empty_and_full_precision() {
    let db = VectorDb::default();
    assert!(db.is_empty());
    assert_eq!(db.dimension(), None);
    assert_eq!(db.index_kind(), IndexKind::Exact);
    assert_eq!(db.encoding(), Encoding::Float32);
    assert_eq!(VectorDb::with_index_kind(hnsw()).index_kind(), hnsw());
    assert_eq!(IndexKind::default(), IndexKind::Exact);
    assert_eq!(Encoding::default(), Encoding::Float32);
}

#[test]
fn notes_are_found_saved_and_filtered() {
    let mut notes = VectorDb::with_dimension(3).unwrap();
    notes
        .insert(tagged(
            Record::new(
                1,
                floats(&[0.90, 0.10, 0.00]),
                "Rust ownership prevents data races.".to_string(),
            ),
            "topic",
            "rust",
        ))
        .unwrap();
    notes
        .insert(tagged(
            Record::new(
                2,
                floats(&[0.05, 0.20, 0.95]),
                "Databases persist application data.".to_string(),
            ),
            "topic",
            "databases",
        ))
        .unwrap();
    let query = floats(&[0.85, 0.15, 0.05]);
    let hits = notes.search(&query, 5).unwrap();
    assert_eq!(hits[0].record.text, "Rust ownership prevents data races.");

    let restored = VectorDb::from_bytes(&notes.to_bytes()).unwrap();
    assert_eq!(restored.len(), 2);
    let rust_hits = restored
        .search_filtered(&query, 5, &filter(&[("topic", "rust")]))
        .unwrap();
    assert_eq!(rust_hits.len(), 1);
}

#[test]
fn a_tour_ranks_the_cats_first() {
    let mut db = VectorDb::with_dimension(3).unwrap();
    for (id, values) in [(1, [0.9, 0.1, 0.0]), (2, [0.8, 0.2, 0.1]), (3, [0.1, 0.1, 0.9])] {
        db.insert(record(id, values.to_vec())).unwrap();
    }
    let hits = db.search(&floats(&[0.85, 0.15, 0.05]), 3).unwrap();
    assert_eq!(ids(&hits), vec![1, 2, 3]);
    let scores: Vec<String> = hits.iter().map(|h| format!("{:.3}", number(h.score))).collect();
    assert_eq!(scores, ["0.996", "0.996", "0.184"]);
}

#[test]
fn a_loaded_collection_can_be_changed_and_searched() {
    for kind in [IndexKind::Exact, hnsw()] {
        let mut db = VectorDb::with_index(3, kind).unwrap();
        for id in 0..12u64 {
            db.insert(record(id, sample_vector(id, 3))).unwrap();
        }
        let mut loaded = VectorDb::from_bytes(&db.to_bytes()).unwrap();
        assert!(matches!(
            loaded.insert(record(4, sample_vector(4, 3))),
            Err(VectorDbError::DuplicateId(4))
        ));
        loaded.delete(4).unwrap();
        loaded.insert(record(50, sample_vector(4, 3))).unwrap();
        let query = floats(&sample_vector(4, 3));
        assert_eq!(ids(&loaded.search(&query, 1).unwrap()), vec![50]);
        assert_eq!(loaded.compact().unwrap(), 1);
        assert_eq!(loaded.search(&query, 20).unwrap().len(), 12);
    }
}

#[test]
fn a_filtered_search_is_the_ranking_with_the_others_left_out() {
    let mut exact = VectorDb::with_dimension(4).unwrap();
    let mut graph = VectorDb::with_index(4, hnsw()).unwrap();
    for id in 0..40u64 {
        let r = tagged(
            tagged(record(id, sample_vector(id, 4)), "parity", &(id % 2).to_string()),
            "third",
            &(id % 3).to_string(),
        );
        exact.insert(r.clone()).unwrap();
        graph.insert(r).unwrap();
    }
    let query = floats(&sample_vector(900, 4));
    let all = exact.search(&query, usize::MAX).unwrap();
    assert_eq!(all.len(), 40);
    let bytes = exact.to_bytes();
    let loaded = VectorDb::from_bytes(&bytes).unwrap();
    let mapped = MmapDb::open(&bytes).unwrap();
    for pairs in [
        &[][..],
        &[("parity", "1")],
        &[("parity", "0"), ("third", "2")],
        &[("third", "7")],
    ] {
        let f = filter(pairs);
        for limit in [0usize, 1, 5, 100] {
            let expected: Vec<SearchResult> = all
                .iter()
                .filter(|h| h.record.metadata.satisfies(&f))
                .take(limit)
                .cloned()
                .collect();
            assert_eq!(exact.search_filtered(&query, limit, &f).unwrap(), expected);
            assert_eq!(loaded.search_filtered(&query, limit, &f).unwrap(), expected);
            assert_eq!(mapped.search_filtered(&query, limit, &f).unwrap(), expected);
            if !pairs.is_empty() {
                assert_eq!(graph.search_filtered(&query, limit, &f).unwrap(), expected);
            }
        }
    }
}

#[test]
fn upserting_twice_changes_nothing_more() {
    for kind in [IndexKind::Exact, hnsw()] {
        let mut db = VectorDb::with_index_kind(kind);
        for id in 0..6u64 {
            db.upsert(record(id, sample_vector(id, 3))).unwrap();
        }
        assert_eq!(db.len(), 6);
        let r = record(2, sample_vector(77, 3));
        db.upsert(r.clone()).unwrap();
        assert_eq!((db.len(), db.dimension()), (6, Some(3)));
        assert_eq!(db.get(2).unwrap(), &r);
        assert_eq!(db.get(3).unwrap(), &record(3, sample_vector(3, 3)));
        let query = floats(&sample_vector(77, 3));
        let hits = db.search(&query, 6).unwrap();
        assert_eq!(ids(&hits).iter().filter(|id| **id == 2).count(), 1);
        let score = hits.iter().find(|h| h.record.id == 2).unwrap().score;
        assert_eq!(score.to_bits(), cosine_similarity(&query, &r.vector).to_bits());
        let before = db.to_bytes();
        db.upsert(r.clone()).unwrap();
        assert_eq!(db.search(&query, 6).unwrap(), hits);
        assert_eq!(db.to_bytes(), before);
    }
}
