use tdb_search::batch::{batches_to_fts_hits, batches_to_vector_hits, extract_embedding_row, Batch, EmbeddingCell};
use tdb_search::dedup::{canonical_observation, dedup_chunks_to_documents, pairs_from_neighbours};
use tdb_search::distance::Distance;
use tdb_search::schema::{
    ChunkHit, DistanceKind, DuplicateGroup, NeighbourObservation, SearchHit, SearchMode, StoreError,
};
use tdb_search::search::{hits_of_failed_fts, hybrid_hits, is_missing_index, overfetch, plan_search, rrf_merge};

fn distance_of(x: f32) -> Distance {
    Distance::from_bits(x.to_bits())
}

fn number_of(d: Distance) -> f32 {
    f32::from_bits(d.to_bits())
}

fn location_of(hit: &SearchHit) -> f32 {
    hit.chunk.token_start as f32 / hit.chunk.doc_token_len as f32
}

fn chunk_hit(id: &str, distance: f32, kind: DistanceKind, index: i32, count: i32, start: i32, len: i32, content: &str) -> ChunkHit {
    ChunkHit {
        doc_id: id.to_owned(),
        distance: distance_of(distance),
        distance_kind: kind,
        chunk_index: index,
        chunk_count: count,
        chunk_token_start: start,
        doc_token_len: len,
        content: content.to_owned(),
        embedding: Vec::new(),
        clustering_embedding: Vec::new(),
    }
}

fn hit_batch(ids: Vec<&str>) -> Batch {
    let n = ids.len();
    Batch {
        rows: n,
        doc_id: Some(ids.iter().map(|s| s.to_string()).collect()),
        doc_type: Some(vec!["Doc".to_owned(); n]),
        chunk_index: Some(vec![0; n]),
        chunk_count: Some(vec![1; n]),
        chunk_token_start: Some(vec![0; n]),
        doc_token_len: Some(vec![10; n]),
        content: Some(vec!["content".to_owned(); n]),
        distance: None,
        score_distance: None,
        embedding: None,
        clustering_embedding: None,
    }
}

#[test]
fn dedup_chunks_to_documents_picks_best_chunk() {
    let hits = vec![
        chunk_hit("doc/1", 0.8, DistanceKind::RawCosine, 0, 2, 0, 1000, "first chunk"),
        chunk_hit("doc/1", 0.4, DistanceKind::RawCosine, 1, 2, 500, 1000, "second chunk"),
        chunk_hit("doc/2", 0.6, DistanceKind::RawCosine, 0, 1, 0, 200, "only chunk"),
    ];

    let results = dedup_chunks_to_documents(hits, false);
    assert_eq!(results.len(), 2, "should dedup to 2 documents");

    let doc1 = results.iter().find(|r| r.id == "doc/1").expect("doc/1");
    assert_eq!(doc1.chunk.index, 1, "best chunk is index 1");
    assert_eq!(doc1.chunk.count, 2);
    assert_eq!(doc1.chunk.token_start, 500);
    assert_eq!(doc1.chunk.doc_token_len, 1000);
    assert!((location_of(doc1) - 0.5).abs() < f32::EPSILON);
    assert!(doc1.chunk.snippet.is_none(), "snippet should be omitted");
}

#[test]
fn dedup_single_chunk_doc_location_zero() {
    let hits = vec![chunk_hit("doc/s", 0.2, DistanceKind::RawCosine, 0, 1, 0, 41, "short doc")];

    let results = dedup_chunks_to_documents(hits, true);
    assert_eq!(results.len(), 1);
    let hit = &results[0];
    assert_eq!(hit.chunk.index, 0);
    assert_eq!(hit.chunk.count, 1);
    assert_eq!(hit.chunk.token_start, 0);
    assert_eq!(hit.chunk.doc_token_len, 41);
    assert_eq!(location_of(hit), 0.0);
    assert_eq!(hit.chunk.snippet, Some("short doc".to_owned()));
}

#[test]
fn distance_transform_in_dedup() {
    let hits = vec![chunk_hit("doc/x", 0.0, DistanceKind::RawCosine, 0, 1, 0, 10, "x")];
    let results = dedup_chunks_to_documents(hits, false);
    assert_eq!(number_of(results[0].distance), 0.0, "self-distance maps to 0");
}

#[test]
fn dedup_normalised_distances_pass_through() {
    let hits = vec![chunk_hit("doc/rrf", 0.42, DistanceKind::Normalised, 0, 1, 0, 10, "rrf hit")];
    let results = dedup_chunks_to_documents(hits, false);
    assert!(
        (number_of(results[0].distance) - 0.42).abs() < f32::EPSILON,
        "normalised distance should pass through unchanged, got {}",
        number_of(results[0].distance),
    );
}

#[test]
fn fts_hits_have_nonzero_ordered_distances() {
    let hits = vec![
        chunk_hit("doc/best", 1.0 / (1.0 + 10.0), DistanceKind::Normalised, 0, 1, 0, 10, "best match"),
        chunk_hit("doc/worse", 1.0 / (1.0 + 2.0), DistanceKind::Normalised, 0, 1, 0, 10, "worse match"),
    ];

    let results = dedup_chunks_to_documents(hits, false);
    assert_eq!(results.len(), 2);
    assert_eq!(results[0].id, "doc/best");
    assert_eq!(results[1].id, "doc/worse");
    assert!(number_of(results[0].distance) > 0.0, "FTS distance must be > 0");
    assert!(number_of(results[1].distance) > 0.0, "FTS distance must be > 0");
    assert!(number_of(results[0].distance) < number_of(results[1].distance));
}

#[test]
fn vector_distance_scale_anchors_through_dedup() {
    let results = dedup_chunks_to_documents(
        vec![chunk_hit("doc/self", 0.0, DistanceKind::RawCosine, 0, 1, 0, 10, "self")],
        false,
    );
    assert_eq!(number_of(results[0].distance), 0.0, "identical → 0.0");

    let results = dedup_chunks_to_documents(
        vec![chunk_hit("doc/ortho", 1.0, DistanceKind::RawCosine, 0, 1, 0, 10, "ortho")],
        false,
    );
    assert!(
        (number_of(results[0].distance) - 0.5).abs() < f32::EPSILON,
        "orthogonal → 0.5, got {}",
        number_of(results[0].distance),
    );

    let results = dedup_chunks_to_documents(
        vec![chunk_hit("doc/opp", 2.0, DistanceKind::RawCosine, 0, 1, 0, 10, "opposite")],
        false,
    );
    assert_eq!(number_of(results[0].distance), 1.0, "opposite → 1.0");
}

#[test]
fn rrf_merge_combines_ranked_lists() {
    let vector_hits = vec![
        chunk_hit("A", 0.1, DistanceKind::RawCosine, 0, 1, 0, 10, "a"),
        chunk_hit("B", 0.3, DistanceKind::RawCosine, 0, 1, 0, 10, "b"),
        chunk_hit("C", 0.5, DistanceKind::RawCosine, 0, 1, 0, 10, "c"),
    ];
    let fts_hits = vec![
        chunk_hit("B", 0.1, DistanceKind::Normalised, 0, 1, 0, 10, "b"),
        chunk_hit("C", 0.2, DistanceKind::Normalised, 0, 1, 0, 10, "c"),
        chunk_hit("D", 0.3, DistanceKind::Normalised, 0, 1, 0, 10, "d"),
    ];

    let merged = rrf_merge(vector_hits, fts_hits);

    assert_eq!(merged[0].doc_id, "B", "B should rank first (appears high in both lists)");

    let ids: Vec<&str> = merged.iter().map(|h| h.doc_id.as_str()).collect();
    assert!(ids.contains(&"A"));
    assert!(ids.contains(&"B"));
    assert!(ids.contains(&"C"));
    assert!(ids.contains(&"D"));
    assert_eq!(ids.len(), 4);
}

#[test]
fn vector_hits_missing_distance_fails_loud_when_required() {
    let batches = vec![hit_batch(vec!["doc/1"])];
    let err = batches_to_vector_hits(&batches, true);
    assert!(
        err.is_err(),
        "missing _distance on a ranked search must error, not default to 0.0"
    );

    let ok = batches_to_vector_hits(&batches, false);
    assert!(ok.is_ok(), "a plain scan tolerates absent _distance");
    assert_eq!(ok.unwrap().len(), 1);
}

#[test]
fn fused_hits_keep_the_vector_distance() {
    let merged = rrf_merge(
        vec![chunk_hit("B", 0.3, DistanceKind::RawCosine, 0, 1, 0, 10, "b")],
        vec![
            chunk_hit("D", 0.2, DistanceKind::Normalised, 0, 1, 0, 10, "d"),
            chunk_hit("B", 0.1, DistanceKind::Normalised, 0, 1, 0, 10, "b"),
        ],
    );
    assert_eq!(merged[0].doc_id, "B");
    assert_eq!(number_of(merged[0].distance), 0.3);
    assert_eq!(merged[0].distance_kind, DistanceKind::RawCosine);
    assert_eq!(merged[1].doc_id, "D");
    assert_eq!(number_of(merged[1].distance), 0.2);
}

#[test]
fn a_failed_side_fails_the_hybrid_search() {
    let vector_side = hybrid_hits(
        Err(StoreError::Internal("vector".to_owned())),
        Err(StoreError::Internal("text".to_owned())),
    );
    assert!(matches!(vector_side, Err(StoreError::Internal(m)) if m == "vector"));
    let text_side = hybrid_hits(Ok(Vec::new()), Err(StoreError::Internal("text".to_owned())));
    assert!(matches!(text_side, Err(StoreError::Internal(m)) if m == "text"));
    assert!(hybrid_hits(Ok(Vec::new()), Ok(Vec::new())).unwrap().is_empty());
}

#[test]
fn search_modes_call_for_their_sides() {
    let vector = plan_search(SearchMode::Vector);
    assert!(vector.vector && !vector.fts);
    let text = plan_search(SearchMode::Fts);
    assert!(!text.vector && text.fts);
    let both = plan_search(SearchMode::Hybrid);
    assert!(both.vector && both.fts);
}

#[test]
fn a_search_fetches_three_times_the_range() {
    assert_eq!(overfetch(0, 10), 30);
    assert_eq!(overfetch(5, 5), 30);
    assert_eq!(overfetch(usize::MAX, 1), usize::MAX);
}

#[test]
fn a_missing_text_index_means_no_hits() {
    assert!(is_missing_index("needs an INVERTED index on content"));
    assert!(is_missing_index("cannot do full text search"));
    assert!(!is_missing_index("disk full"));
    assert!(hits_of_failed_fts("FTS scan failed: ", "no INVERTED index").unwrap().is_empty());
    let failed = hits_of_failed_fts("FTS scan failed: ", "disk full");
    assert!(matches!(failed, Err(StoreError::Internal(m)) if m == "FTS scan failed: disk full"));
}

#[test]
fn vector_hits_carry_their_rows() {
    let mut batch = hit_batch(vec!["doc/1", "doc/2"]);
    batch.distance = Some(vec![distance_of(0.25), distance_of(0.75)]);
    let hits = batches_to_vector_hits(&vec![batch], true).unwrap();
    assert_eq!(hits.len(), 2);
    assert_eq!(hits[1].doc_id, "doc/2");
    assert_eq!(number_of(hits[1].distance), 0.75);
    assert_eq!(hits[0].distance_kind, DistanceKind::RawCosine);
}

#[test]
fn text_hits_carry_their_scores() {
    let mut batch = hit_batch(vec!["doc/1"]);
    batch.score_distance = Some(vec![distance_of(0.25)]);
    let hits = batches_to_fts_hits(&vec![batch]);
    assert_eq!(hits.len(), 1);
    assert_eq!(number_of(hits[0].distance), 0.25);
    assert_eq!(hits[0].distance_kind, DistanceKind::Normalised);
}

#[test]
fn unusable_embeddings_are_errors() {
    let cells = vec![
        EmbeddingCell { null: false, values: Some(vec![1.5f32.to_bits(), 2.5f32.to_bits()]) },
        EmbeddingCell { null: true, values: None },
        EmbeddingCell { null: false, values: None },
    ];
    assert_eq!(extract_embedding_row(&cells, 0, "doc/1").unwrap(), vec![1.5f32.to_bits(), 2.5f32.to_bits()]);
    let null = extract_embedding_row(&cells, 1, "doc/1");
    assert!(matches!(null, Err(StoreError::Internal(m)) if m == "embedding extraction: null embedding for doc doc/1"));
    let other = extract_embedding_row(&cells, 2, "doc/1");
    assert!(matches!(other, Err(StoreError::Internal(m)) if m == "embedding extraction: embedding is not Float32 for doc doc/1"));
}

#[test]
fn halving_is_exact_for_ordinary_distances() {
    for x in [0.0f32, 0.1, 0.5, 1.0, 1.9999999, 2.0, 3.0e38] {
        assert_eq!(number_of(distance_of(x).halved()), x / 2.0);
    }
    assert_eq!(number_of(distance_of(-1.0).halved()), -0.5);
    assert!(distance_of(0.1).rank < distance_of(0.2).rank);
    assert!(distance_of(-0.2).rank < distance_of(-0.1).rank);
}

fn observation(a: &str, b: &str, d: f32) -> NeighbourObservation {
    NeighbourObservation {
        doc_a: a.to_owned(),
        doc_b: b.to_owned(),
        normalized_distance: distance_of(d),
        content_a: Some(format!("text of {}", a)),
        content_b: Some(format!("text of {}", b)),
    }
}

#[test]
fn pairs_keep_the_nearest_observation() {
    let observations = vec![
        observation("b", "a", 0.2),
        observation("a", "b", 0.1),
        observation("a", "a", 0.0),
        observation("c", "d", 0.05),
        observation("e", "f", 0.9),
    ];
    let pairs = pairs_from_neighbours(&observations, distance_of(0.5), 10);
    assert_eq!(pairs.len(), 2);
    assert_eq!(pairs[0].group[0].id, "c");
    assert_eq!(pairs[0].group[1].id, "d");
    assert_eq!(number_of(pairs[1].distance), 0.1);
    assert_eq!(pairs[1].group[0].id, "a");
    assert_eq!(pairs[1].group[0].snippet, Some("text of a".to_owned()));

    assert_eq!(pairs_from_neighbours(&observations, distance_of(0.5), 1).len(), 1);
}

#[test]
fn observations_put_the_smaller_id_first() {
    let pair = canonical_observation(&observation("z", "y", 0.3));
    assert_eq!(pair.group[0].id, "y");
    assert_eq!(pair.group[0].snippet, Some("text of y".to_owned()));
    assert_eq!(pair.group[1].id, "z");
}

fn members(pairs: &[DuplicateGroup]) -> Vec<(String, String, f32)> {
    pairs.iter().map(|p| (p.group[0].id.clone(), p.group[1].id.clone(), number_of(p.distance))).collect()
}

#[test]
fn a_smaller_cap_is_a_prefix_in_any_order() {
    let observations = vec![
        observation("a", "b", 0.3),
        observation("d", "c", 0.1),
        observation("b", "a", 0.2),
        observation("a", "c", 0.2),
        observation("c", "d", 0.1),
    ];
    let all = members(&pairs_from_neighbours(&observations, distance_of(0.5), usize::MAX));
    assert_eq!(
        all,
        vec![
            ("c".to_owned(), "d".to_owned(), 0.1),
            ("a".to_owned(), "b".to_owned(), 0.2),
            ("a".to_owned(), "c".to_owned(), 0.2),
        ]
    );
    for m in 0..5usize {
        let some = members(&pairs_from_neighbours(&observations, distance_of(0.5), m));
        assert_eq!(some, all[..m.min(all.len())].to_vec());
    }
    let reversed: Vec<NeighbourObservation> = observations.into_iter().rev().collect();
    assert_eq!(members(&pairs_from_neighbours(&reversed, distance_of(0.5), usize::MAX)), all);
}

#[test]
fn what_is_no_number_counts_for_nothing() {
    let unknown = Distance::from_bits(0xffc0_0000);
    let mut odd = observation("a", "b", 0.1);
    odd.normalized_distance = unknown;
    assert!(pairs_from_neighbours(&vec![odd.clone()], distance_of(0.5), 10).is_empty());
    assert!(pairs_from_neighbours(&vec![observation("a", "b", 0.1)], unknown, 10).is_empty());
    let kept = pairs_from_neighbours(&vec![odd, observation("a", "b", 0.4)], distance_of(0.5), 10);
    assert_eq!(members(&kept), vec![("a".to_owned(), "b".to_owned(), 0.4)]);

    let mut hit = chunk_hit("doc/1", 0.0, DistanceKind::RawCosine, 1, 2, 5, 10, "odd");
    hit.distance = unknown;
    let near = chunk_hit("doc/1", 0.8, DistanceKind::RawCosine, 0, 2, 0, 10, "near");
    let results = dedup_chunks_to_documents(vec![near, hit.clone()], true);
    assert_eq!(results[0].chunk.snippet, Some("near".to_owned()));
    let far = chunk_hit("doc/2", 1.9, DistanceKind::RawCosine, 0, 1, 0, 10, "far");
    let ids: Vec<String> =
        dedup_chunks_to_documents(vec![hit, far], false).into_iter().map(|h| h.id).collect();
    assert_eq!(ids, vec!["doc/2".to_owned(), "doc/1".to_owned()]);
    assert!(f32::NEG_INFINITY < 0.0 && distance_of(f32::NEG_INFINITY).is_within(distance_of(0.0)));
    assert_eq!(unknown.order_place(), i32::MAX);
}
