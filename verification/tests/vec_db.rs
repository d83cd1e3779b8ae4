use clive::units::{Clip, Timestamp};
use clive::vec_db::{window_clip, DBTimestamp, DbError, EmbedError, Embedder, VectorDB};

// Stand-in for an embedding engine: the n-th text gets a vector of n's.
struct MockLlama {
    counter: usize,
    fail: bool,
    // Leaves the last text of a batch without an embedding.
    short: bool,
    seen: Vec<String>,
}

impl MockLlama {
    fn new() -> Self {
        Self { counter: 0, fail: false, short: false, seen: Vec::new() }
    }

    fn generate_embedding(&mut self, _text: &str) -> Vec<u32> {
        let count = self.counter;
        self.counter += 1;
        vec![(count as f32).to_bits(); 384]
    }
}

impl Embedder for MockLlama {
    fn embed(&mut self, text: &str) -> Result<Vec<u32>, EmbedError> {
        if self.fail {
            return Err(EmbedError { message: "no engine".to_string() });
        }
        Ok(self.generate_embedding(text))
    }

    fn batch_embed(&mut self, texts: &[String]) -> Result<Vec<Vec<u32>>, EmbedError> {
        if self.fail {
            return Err(EmbedError { message: "no engine".to_string() });
        }
        self.seen = texts.to_vec();
        let count = if self.short { texts.len().saturating_sub(1) } else { texts.len() };
        Ok(texts[..count].iter().map(|t| self.generate_embedding(t)).collect())
    }
}

fn cosine_distance(a: &[u32], b: &[u32]) -> i64 {
    let mut dot = 0.0f64;
    let mut na = 0.0f64;
    let mut nb = 0.0f64;
    for (x, y) in a.iter().zip(b.iter()) {
        let x = f32::from_bits(*x) as f64;
        let y = f32::from_bits(*y) as f64;
        dot += x * y;
        na += x * x;
        nb += y * y;
    }
    let d = 1.0 - dot / (na.sqrt() * nb.sqrt());
    if d.is_nan() {
        i64::MAX
    } else {
        (d * 1e9).round() as i64
    }
}

fn search(db: &VectorDB, llama: &mut MockLlama, query: &str, max_results: usize) -> Vec<DBTimestamp> {
    let q = db.embed_query(llama, query).unwrap();
    let mut distances = Vec::new();
    for i in 0..db.len() {
        distances.push(cosine_distance(&q, db.embedding_at(i).unwrap()));
    }
    db.search(&distances, max_results).unwrap()
}

fn unit(start: i64, end: i64, text: &str) -> Timestamp {
    Timestamp { start, end, text: text.to_string() }
}

fn create_test_timestamps() -> Vec<Timestamp> {
    vec![
        unit(0, 1000, "Hello world"),
        unit(1000, 2000, "This is a test"),
        unit(2000, 3000, "Testing vector search"),
    ]
}

fn ids(results: &[DBTimestamp]) -> Vec<i64> {
    results.iter().map(|r| r.id).collect()
}

fn flat(dimensions: usize, value: u32) -> Vec<u32> {
    vec![value; dimensions]
}

#[test]
fn test_vector_db_operations() {
    let mut db = VectorDB::new_in_memory(384);
    let mut llama = MockLlama::new();

    let timestamp = unit(0, 1000, "Hello world");
    db.add_clip(&mut llama, &timestamp).unwrap();

    let timestamps = create_test_timestamps();
    db.batch_add_clips(&mut llama, timestamps.clone()).unwrap();

    let results = search(&db, &mut llama, "test", 2);
    assert!(!results.is_empty(), "Search should return results");
    assert!(results.len() <= 2, "Search should respect max_results parameter");
}

#[test]
fn test_vector_db_empty_search() {
    let db = VectorDB::new_in_memory(384);
    let mut llama = MockLlama::new();

    let results = search(&db, &mut llama, "test", 5);
    assert!(results.is_empty(), "Search on empty database should return no results");
}

#[test]
fn test_vector_db_max_results() {
    let mut db = VectorDB::new_in_memory(384);
    let mut llama = MockLlama::new();

    let timestamps = create_test_timestamps();
    db.batch_add_clips(&mut llama, timestamps).unwrap();

    let results1 = search(&db, &mut llama, "test", 1);
    assert_eq!(results1.len(), 1, "Should return exactly 1 result");

    let results2 = search(&db, &mut llama, "test", 2);
    assert!(results2.len() <= 2, "Should return at most 2 results");
}

#[test]
fn test_get_neighboring_clips() {
    let mut db = VectorDB::new_in_memory(384);
    let mut llama = MockLlama::new();

    let timestamps = create_test_timestamps();
    db.batch_add_clips(&mut llama, timestamps).unwrap();

    // Get neighbors of the middle clip (id = 2)
    let found = db.get_neighboring_clips(2, 1, 1).unwrap();
    let neighbors: Vec<&DBTimestamp> = found.iter().filter(|c| c.id != 2).collect();
    assert_eq!(neighbors.len(), 2, "Should return exactly 2 neighbors");
    // The clip itself stands between them.
    assert_eq!(ids(&found), vec![1, 2, 3]);
}

#[test]
fn test_get_clips_in_range() {
    let mut db = VectorDB::new_in_memory(384);
    let mut llama = MockLlama::new();

    let timestamps = create_test_timestamps();
    db.batch_add_clips(&mut llama, timestamps).unwrap();

    let clips = db.get_clips_in_range(500, 1500);
    assert!(!clips.is_empty(), "Should return clips in the range");
    assert!(
        clips
            .iter()
            .all(|c| (c.start <= 1500 && c.start >= 500) || (c.end <= 1500 && c.end >= 500)),
        "All clips should overlap with the range"
    );
    let texts: Vec<&str> = clips.iter().map(|c| c.text.as_str()).collect();
    assert_eq!(texts, vec!["Hello world", "This is a test"]);
}

#[test]
fn range_includes_its_ends_and_is_chronological() {
    let mut db = VectorDB::new_in_memory(1);
    db.insert(&unit(300, 400, "late"), flat(1, 0)).unwrap();
    db.insert(&unit(0, 100, "early"), flat(1, 0)).unwrap();
    db.insert(&unit(100, 300, "middle"), flat(1, 0)).unwrap();
    let texts = |clips: Vec<Timestamp>| clips.into_iter().map(|c| c.text).collect::<Vec<_>>();
    assert_eq!(texts(db.get_clips_in_range(100, 100)), vec!["early", "middle"]);
    assert_eq!(texts(db.get_clips_in_range(0, 1000)), vec!["early", "middle", "late"]);
    assert_eq!(texts(db.get_clips_in_range(401, 500)), Vec::<String>::new());
    // A record that spans the range without starting or ending in it is left out.
    assert_eq!(texts(db.get_clips_in_range(150, 250)), Vec::<String>::new());
}

#[test]
fn ids_increase_from_one_in_input_order() {
    let mut db = VectorDB::new_in_memory(2);
    assert_eq!(db.dimensions(), 2);
    assert_eq!(db.len(), 0);
    assert_eq!(db.insert(&unit(500, 600, "a"), flat(2, 1)).unwrap(), 1);
    assert_eq!(db.insert(&unit(0, 100, "b"), flat(2, 2)).unwrap(), 2);
    assert_eq!(db.insert(&unit(500, 700, "c"), flat(2, 3)).unwrap(), 3);
    assert_eq!(db.len(), 3);
    // Records stand in chronological order; equal starts in the order of their ids.
    assert_eq!(db.embedding_at(0), Some(&flat(2, 2)));
    assert_eq!(db.embedding_at(1), Some(&flat(2, 1)));
    assert_eq!(db.embedding_at(2), Some(&flat(2, 3)));
    assert_eq!(db.embedding_at(3), None);
}

#[test]
fn mismatched_dimension_is_refused() {
    let mut db = VectorDB::new_in_memory(3);
    match db.insert(&unit(0, 1, "a"), flat(2, 0)) {
        Err(DbError::DimensionMismatch { expected, found }) => assert_eq!((expected, found), (3, 2)),
        other => panic!("unexpected: {:?}", other),
    }
    assert_eq!(db.len(), 0);
    assert_eq!(db.insert(&unit(0, 1, "a"), flat(3, 0)).unwrap(), 1);

    let mut llama = MockLlama::new();
    assert!(matches!(
        db.add_clip(&mut llama, &unit(0, 1, "b")),
        Err(DbError::DimensionMismatch { expected: 3, found: 384 })
    ));
    assert_eq!(db.len(), 1);
}

#[test]
fn batch_stops_at_the_first_refused_embedding() {
    let mut db = VectorDB::new_in_memory(2);
    let units = create_test_timestamps();
    let r = db.insert_batch(&units, vec![flat(2, 0), flat(3, 0), flat(2, 0)]);
    assert!(matches!(r, Err(DbError::DimensionMismatch { expected: 2, found: 3 })));
    assert_eq!(db.len(), 1);
    assert_eq!(db.insert(&unit(5, 6, "next"), flat(2, 0)).unwrap(), 2);
}

#[test]
fn batch_stores_a_record_for_each_unit() {
    let mut db = VectorDB::new_in_memory(2);
    let units = create_test_timestamps();
    assert!(db.insert_batch(&units, vec![flat(2, 1), flat(2, 2), flat(2, 3)]).is_ok());
    assert_eq!(db.len(), 3);
    assert!(db.insert_batch(&Vec::new(), Vec::new()).is_ok());
    assert_eq!(db.len(), 3);
    assert_eq!(ids(&db.get_neighboring_clips(2, 5, 5).unwrap()), vec![1, 2, 3]);
}

#[test]
fn batch_wants_one_embedding_for_each_unit() {
    let mut db = VectorDB::new_in_memory(2);
    let units = create_test_timestamps();
    assert!(matches!(
        db.insert_batch(&units, vec![flat(2, 0), flat(2, 0)]),
        Err(DbError::EmbeddingCount { expected: 3, found: 2 })
    ));
    assert!(matches!(
        db.insert_batch(&units[..1].to_vec(), vec![flat(2, 0), flat(9, 0)]),
        Err(DbError::EmbeddingCount { expected: 1, found: 2 })
    ));
    assert!(matches!(
        db.insert_batch(&units, Vec::new()),
        Err(DbError::EmbeddingCount { expected: 3, found: 0 })
    ));
    assert_eq!(db.len(), 0);

    let mut db = VectorDB::new_in_memory(384);
    let mut llama = MockLlama::new();
    llama.short = true;
    assert!(matches!(
        db.batch_add_clips(&mut llama, units),
        Err(DbError::EmbeddingCount { expected: 3, found: 2 })
    ));
    assert_eq!(db.len(), 0);
}

#[test]
fn batch_hands_the_texts_of_the_units_to_the_embedder() {
    let units = create_test_timestamps();
    assert_eq!(
        VectorDB::texts_of(&units),
        vec!["Hello world", "This is a test", "Testing vector search"]
    );
    assert!(VectorDB::texts_of(&Vec::new()).is_empty());
    let mut db = VectorDB::new_in_memory(384);
    let mut llama = MockLlama::new();
    db.batch_add_clips(&mut llama, units).unwrap();
    assert_eq!(llama.seen, vec!["Hello world", "This is a test", "Testing vector search"]);
    assert_eq!(db.len(), 3);
}

#[test]
fn batch_with_a_wrong_dimension_reports_the_mismatch() {
    let mut db = VectorDB::new_in_memory(10);
    let mut llama = MockLlama::new();
    assert!(matches!(
        db.batch_add_clips(&mut llama, create_test_timestamps()),
        Err(DbError::DimensionMismatch { expected: 10, found: 384 })
    ));
    assert_eq!(db.len(), 0);
}

#[test]
fn query_embedding_is_taken_only_with_the_dimension_of_the_index() {
    let db = VectorDB::new_in_memory(3);
    assert_eq!(db.accept_query(vec![1, 2, 3]).unwrap(), vec![1, 2, 3]);
    assert!(matches!(
        db.accept_query(vec![1, 2]),
        Err(DbError::DimensionMismatch { expected: 3, found: 2 })
    ));
    assert!(matches!(
        db.accept_query(Vec::new()),
        Err(DbError::DimensionMismatch { expected: 3, found: 0 })
    ));
    assert_eq!(VectorDB::new_in_memory(0).accept_query(Vec::new()).unwrap(), Vec::<u32>::new());
}

#[test]
fn embedder_failure_leaves_the_index_unchanged() {
    let mut db = VectorDB::new_in_memory(384);
    let mut llama = MockLlama::new();
    llama.fail = true;
    match db.add_clip(&mut llama, &unit(0, 1, "a")) {
        Err(DbError::Embedding(e)) => assert_eq!(e.message, "no engine"),
        other => panic!("unexpected: {:?}", other),
    }
    assert!(matches!(
        db.batch_add_clips(&mut llama, create_test_timestamps()),
        Err(DbError::Embedding(_))
    ));
    assert_eq!(db.len(), 0);
}

#[test]
fn search_ranks_by_ascending_distance() {
    let mut db = VectorDB::new_in_memory(1);
    for (i, text) in ["a", "b", "c", "d"].iter().enumerate() {
        db.insert(&unit(i as i64 * 10, i as i64 * 10 + 5, text), flat(1, 0)).unwrap();
    }
    let results = db.search(&vec![30, 10, 20, 10], 3).unwrap();
    assert_eq!(ids(&results), vec![2, 4, 3]);
    assert_eq!(results[0].transcript, "b");
    assert_eq!((results[0].start_time, results[0].end_time), (10, 15));
    assert_eq!(ids(&db.search(&vec![30, 10, 20, 10], 10).unwrap()), vec![2, 4, 3, 1]);
    assert_eq!(ids(&db.search(&vec![-1, i64::MIN, i64::MAX, 0], 4).unwrap()), vec![2, 1, 4, 3]);
    assert!(db.search(&vec![30, 10, 20, 10], 0).unwrap().is_empty());
}

#[test]
fn search_wants_one_distance_for_each_record() {
    let mut db = VectorDB::new_in_memory(1);
    db.insert(&unit(0, 1, "a"), flat(1, 0)).unwrap();
    assert!(matches!(
        db.search(&vec![1, 2], 1),
        Err(DbError::DistanceCount { expected: 1, found: 2 })
    ));
    assert!(matches!(
        db.find_windows(&vec![], 1, 1, 1),
        Err(DbError::DistanceCount { expected: 1, found: 0 })
    ));
}

#[test]
fn search_with_the_mock_finds_the_nearest_vector() {
    // Vectors that point the same way are at distance 0: they come in the order of the records.
    let mut db = VectorDB::new_in_memory(2);
    let bits = |a: f32, b: f32| vec![a.to_bits(), b.to_bits()];
    db.insert(&unit(0, 1, "east"), bits(1.0, 0.0)).unwrap();
    db.insert(&unit(1, 2, "north"), bits(0.0, 1.0)).unwrap();
    db.insert(&unit(2, 3, "north-east"), bits(1.0, 1.0)).unwrap();
    let q = bits(0.1, 0.9);
    let distances: Vec<i64> =
        (0..db.len()).map(|i| cosine_distance(&q, db.embedding_at(i).unwrap())).collect();
    let results = db.search(&distances, 2).unwrap();
    assert_eq!(ids(&results), vec![2, 3]);
}

fn five_records() -> VectorDB {
    // Ids 1 to 5; the record with id 5 starts between those with ids 3 and 4.
    let mut db = VectorDB::new_in_memory(1);
    for (start, text) in [(0, "one"), (1000, "two"), (2000, "three"), (4000, "four"), (3000, "five")] {
        db.insert(&unit(start, start + 900, text), flat(1, 0)).unwrap();
    }
    db
}

#[test]
fn neighbors_are_returned_in_chronological_order() {
    let db = five_records();
    let found = db.get_neighboring_clips(5, 1, 1).unwrap();
    assert_eq!(ids(&found), vec![3, 5, 4]);
    assert_eq!(found[1].transcript, "five");
    assert_eq!(ids(&db.get_neighboring_clips(5, 2, 0).unwrap()), vec![2, 3, 5]);
    assert_eq!(ids(&db.get_neighboring_clips(5, 0, 0).unwrap()), vec![5]);
    assert_eq!(ids(&db.get_neighboring_clips(2, 10, 10).unwrap()), vec![1, 2, 3, 5, 4]);
}

#[test]
fn neighbors_at_a_boundary_are_fewer_than_asked_for() {
    let db = five_records();
    let found = db.get_neighboring_clips(1, 5, 1).unwrap();
    assert_eq!(ids(&found), vec![1, 2]);
    let found = db.get_neighboring_clips(4, 1, 5).unwrap();
    assert_eq!(ids(&found), vec![5, 4]);
}

#[test]
fn neighbors_leave_out_records_that_start_with_the_target() {
    let mut db = VectorDB::new_in_memory(1);
    for (start, text) in [(0, "a"), (10, "b"), (10, "c"), (10, "d"), (20, "e")] {
        db.insert(&unit(start, start + 5, text), flat(1, 0)).unwrap();
    }
    assert_eq!(ids(&db.get_neighboring_clips(3, 1, 1).unwrap()), vec![1, 3, 5]);
    assert_eq!(ids(&db.get_neighboring_clips(2, 3, 3).unwrap()), vec![1, 2, 5]);
}

#[test]
fn neighbors_of_an_unknown_id_are_not_found() {
    let db = five_records();
    assert!(matches!(db.get_neighboring_clips(6, 1, 1), Err(DbError::NotFound { id: 6 })));
    assert!(matches!(db.get_neighboring_clips(0, 1, 1), Err(DbError::NotFound { id: 0 })));
    let empty = VectorDB::new_in_memory(1);
    assert!(matches!(empty.get_neighboring_clips(1, 0, 0), Err(DbError::NotFound { id: 1 })));
}

fn triple(clip: &Clip) -> (i64, i64, String) {
    (clip.start, clip.end, clip.keyword.clone())
}

#[test]
fn window_spans_the_run_and_joins_the_texts() {
    let db = five_records();
    let found = db.get_neighboring_clips(5, 1, 1).unwrap();
    let clip = window_clip(&found).unwrap();
    assert_eq!(triple(&clip), (2000, 4900, "three\nfive\nfour".to_string()));
    let single = window_clip(&db.get_neighboring_clips(1, 0, 0).unwrap()).unwrap();
    assert_eq!(triple(&single), (0, 900, "one".to_string()));
    assert!(window_clip(&Vec::new()).is_none());
}

#[test]
fn find_windows_gives_a_window_for_each_hit() {
    let db = five_records();
    // Distances by position: one, two, three, five, four.
    let clips = db.find_windows(&vec![50, 40, 30, 10, 20], 2, 1, 0).unwrap();
    let got: Vec<_> = clips.iter().map(triple).collect();
    assert_eq!(
        got,
        vec![
            (2000, 3900, "three\nfive".to_string()),
            (3000, 4900, "five\nfour".to_string()),
        ]
    );
}

#[test]
fn query_embedding_must_have_the_dimension_of_the_index() {
    let mut llama = MockLlama::new();
    let db = VectorDB::new_in_memory(384);
    assert_eq!(db.embed_query(&mut llama, "q").unwrap().len(), 384);
    let db = VectorDB::new_in_memory(10);
    assert!(matches!(
        db.embed_query(&mut llama, "q"),
        Err(DbError::DimensionMismatch { expected: 10, found: 384 })
    ));
    llama.fail = true;
    assert!(matches!(db.embed_query(&mut llama, "q"), Err(DbError::Embedding(_))));
}

#[test]
fn errors_have_messages() {
    assert_eq!(
        DbError::DimensionMismatch { expected: 1024, found: 384 }.message(),
        "embedding has 384 dimensions, the index has 1024"
    );
    assert_eq!(DbError::NotFound { id: 17 }.message(), "no record has the id 17");
    assert_eq!(DbError::NotFound { id: -3 }.message(), "no record has the id -3");
    assert_eq!(
        DbError::NotFound { id: i64::MIN }.message(),
        "no record has the id -9223372036854775808"
    );
    assert_eq!(DbError::Full.message(), "the index is full");
    assert_eq!(DbError::DistanceCount { expected: 3, found: 0 }.message(), "0 distances for 3 records");
    assert_eq!(DbError::EmbeddingCount { expected: 3, found: 2 }.message(), "2 embeddings for 3 units");
    assert_eq!(
        DbError::Embedding(EmbedError { message: "no engine".to_string() }).message(),
        "embedding failed: no engine"
    );
}
