use tdb_search::batch::{Batch, EmbeddingCell};
use tdb_search::distance::Distance;
use tdb_search::filter::{
    build_candidate_filter, build_filter_expr, build_filter_expression, build_neighbour_filter,
    doc_id_eq_expr, Filter,
};
use tdb_search::resolve::{
    ann_fetch, check_duplicate_bound, check_resolve_bound, choose_strategy, collect_neighbour_map,
    extract_top_k_neighbours, flat_knn_top_k, merge_neighbours, nearest_observation, plan_resolve,
    ProbeStrategy,
};
use tdb_search::scan::{
    all_ids, batches_to_points, best_records, content_rows, count_distinct_doc_ids, doc_texts,
    full_rows, stored_rows, streamed_rows, ContentMessages, EmbeddingColumn, IndexedPoint,
    PointMessages,
};
use tdb_search::schema::{DuplicateScope, Neighbour, StoreError};

fn at(x: f32) -> Distance {
    Distance::from_bits(x.to_bits())
}

fn value_of(d: Distance) -> f32 {
    f32::from_bits(d.to_bits())
}

fn strings(list: &[&str]) -> Vec<String> {
    list.iter().map(|s| s.to_string()).collect()
}

fn near(id: &str, d: f32) -> Neighbour {
    Neighbour { id: id.to_owned(), distance: at(d) }
}

fn shown(list: &[Neighbour]) -> Vec<(String, f32)> {
    list.iter().map(|n| (n.id.clone(), value_of(n.distance))).collect()
}

fn scan_batch(rows: Vec<(&str, i32, &str)>) -> Batch {
    let n = rows.len();
    Batch {
        rows: n,
        doc_id: Some(rows.iter().map(|r| r.0.to_owned()).collect()),
        doc_type: Some(vec!["Doc".to_owned(); n]),
        chunk_index: Some(rows.iter().map(|r| r.1).collect()),
        chunk_count: Some(vec![1; n]),
        chunk_token_start: Some(vec![0; n]),
        doc_token_len: Some(vec![10; n]),
        content: Some(rows.iter().map(|r| r.2.to_owned()).collect()),
        distance: Some((0..n).map(|i| at(i as f32 * 0.5)).collect()),
        score_distance: None,
        embedding: Some(
            (0..n)
                .map(|i| EmbeddingCell { null: false, values: Some(vec![i as u32]) })
                .collect(),
        ),
        clustering_embedding: Some(
            (0..n)
                .map(|i| EmbeddingCell { null: false, values: Some(vec![100 + i as u32]) })
                .collect(),
        ),
    }
}

fn point(id: &str) -> IndexedPoint {
    IndexedPoint { doc_id: id.to_owned(), embedding: Vec::new(), content: None }
}

#[test]
fn small_populations_are_compared_exhaustively() {
    assert_eq!(choose_strategy(30_000), ProbeStrategy::Flat);
    assert_eq!(choose_strategy(30_001), ProbeStrategy::Ann);
}

#[test]
fn populations_beyond_the_bound_are_refused() {
    assert!(check_duplicate_bound(5, 5).is_ok());
    let StoreError::Internal(m) = check_duplicate_bound(6, 5).unwrap_err();
    assert_eq!(
        m,
        "near-duplicate scan refused: set population has 6 points, exceeds the bound of 5 (would not be a safely bounded run) — narrow the `set` scope or chunk the request"
    );
    assert!(check_resolve_bound(2, 3, 5).is_ok());
    let StoreError::Internal(m) = check_resolve_bound(3, 3, 5).unwrap_err();
    assert_eq!(
        m,
        "resolve refused: combined population has 6 points (set=3, target=3), exceeds the bound of 5 — narrow the scope"
    );
}

#[test]
fn a_resolution_looks_among_the_other_population() {
    let set = vec![point("a"), point("a"), point("b")];
    let target = vec![point("c")];
    let plan = plan_resolve(&set, &target, 4).unwrap();
    assert_eq!(plan.set_ids, strings(&["a", "b"]));
    assert_eq!(plan.target_ids, strings(&["c"]));
    assert_eq!(plan.set_strategy, ProbeStrategy::Flat);
    assert!(plan_resolve(&set, &target, 3).is_err());
}

#[test]
fn the_nearest_candidates_are_selected() {
    let ids = strings(&["self", "a", "b", "a", "c"]);
    let distances = vec![at(0.0), at(0.4), at(0.3), at(0.1), at(0.9)];
    let out = flat_knn_top_k("self", &ids, &distances, 2, at(0.5));
    assert_eq!(shown(&out), vec![("a".to_owned(), 0.1), ("b".to_owned(), 0.3)]);
    let all = flat_knn_top_k("self", &ids, &distances, 9, at(1.0));
    assert_eq!(all.len(), 3);
}

#[test]
fn index_queries_are_halved_and_selected() {
    let batch = scan_batch(vec![("a", 0, "x"), ("b", 0, "y")]);
    let out = extract_top_k_neighbours(&vec![batch], 5, at(0.5)).unwrap();
    assert_eq!(shown(&out), vec![("a".to_owned(), 0.0), ("b".to_owned(), 0.25)]);
    let mut broken = scan_batch(vec![("a", 0, "x")]);
    broken.distance = None;
    assert!(extract_top_k_neighbours(&vec![broken], 5, at(0.5)).is_err());
}

#[test]
fn merging_keeps_the_smaller_distance() {
    let mut list = vec![near("a", 0.5), near("b", 0.2)];
    merge_neighbours(&mut list, &vec![near("a", 0.3), near("b", 0.4), near("c", 0.6)]);
    assert_eq!(
        shown(&list),
        vec![("a".to_owned(), 0.3), ("b".to_owned(), 0.2), ("c".to_owned(), 0.6)]
    );
}

#[test]
fn neighbour_maps_are_sorted_and_capped() {
    let ids = strings(&["x", "y", "x"]);
    let lists = vec![vec![near("a", 0.5)], Vec::new(), vec![near("b", 0.1), near("c", 0.3)]];
    let map = collect_neighbour_map(&ids, &lists, false, 2);
    assert_eq!(map.len(), 1);
    assert_eq!(map[0].id, "x");
    assert_eq!(shown(&map[0].neighbours), vec![("b".to_owned(), 0.1), ("c".to_owned(), 0.3)]);
    assert_eq!(collect_neighbour_map(&ids, &lists, true, 2).len(), 2);
}

#[test]
fn the_first_row_is_the_nearest_neighbour() {
    let batch = scan_batch(vec![("b", 0, "text b"), ("c", 0, "text c")]);
    let me = IndexedPoint { doc_id: "a".to_owned(), embedding: Vec::new(), content: Some("text a".to_owned()) };
    let obs = nearest_observation(&vec![batch], &me, true).unwrap().unwrap();
    assert_eq!((obs.doc_a.as_str(), obs.doc_b.as_str()), ("a", "b"));
    assert_eq!(obs.content_b, Some("text b".to_owned()));
    assert!(nearest_observation(&Vec::new(), &me, true).unwrap().is_none());
    let mut broken = scan_batch(vec![("b", 0, "x")]);
    broken.distance = None;
    assert!(nearest_observation(&vec![broken], &me, false).is_err());
}

const POINT_MESSAGES: PointMessages = PointMessages {
    no_doc_id: "no doc_id",
    no_embedding: "no embedding",
    no_content: "no content",
};

const CONTENT_MESSAGES: ContentMessages = ContentMessages {
    no_doc_id: "no doc_id",
    no_chunk_index: "no chunk_index",
    no_content: "no content",
};

#[test]
fn points_carry_vectors_and_texts() {
    let points = batches_to_points(&vec![scan_batch(vec![("a", 0, "x")])], true, &POINT_MESSAGES).unwrap();
    assert_eq!(points[0].doc_id, "a");
    assert_eq!(points[0].embedding, vec![0]);
    assert_eq!(points[0].content, Some("x".to_owned()));
    let mut broken = scan_batch(vec![("a", 0, "x")]);
    broken.embedding = None;
    let failed = batches_to_points(&vec![broken], false, &POINT_MESSAGES);
    assert!(matches!(failed, Err(StoreError::Internal(m)) if m == "no embedding"));
}

#[test]
fn document_texts_follow_the_chunks() {
    let batch = scan_batch(vec![("a", 1, "world"), ("b", 0, "other"), ("a", 0, "hello")]);
    let rows = content_rows(&vec![batch], &CONTENT_MESSAGES).unwrap();
    let found = doc_texts(&rows);
    assert_eq!(found.len(), 2);
    assert_eq!((found[0].doc_id.as_str(), found[0].text.as_str()), ("a", "hello world"));
    assert_eq!((found[1].doc_id.as_str(), found[1].text.as_str()), ("b", "other"));
    let mut broken = scan_batch(vec![("a", 0, "x")]);
    broken.content = None;
    let failed = content_rows(&vec![broken], &CONTENT_MESSAGES);
    assert!(matches!(failed, Err(StoreError::Internal(m)) if m == "no content"));
}

#[test]
fn the_first_chunk_stands_for_its_document() {
    let batch = scan_batch(vec![("a", 1, ""), ("a", 0, ""), ("b", 3, "")]);
    let records = best_records(&streamed_rows(&vec![batch], true));
    assert_eq!(records.len(), 2);
    assert_eq!(records[0].doc_id, "a");
    assert_eq!(records[0].embedding, vec![1]);
    assert_eq!(records[0].clustering_embedding, Some(vec![101]));
    let batch = scan_batch(vec![("a", 1, "")]);
    assert_eq!(streamed_rows(&vec![batch], false)[0].clustering_embedding, None);
}

#[test]
fn stored_vectors_come_from_their_column() {
    let batches = vec![scan_batch(vec![("a", 0, "")])];
    assert_eq!(stored_rows(&batches, EmbeddingColumn::Document).unwrap()[0].embedding, vec![0]);
    assert_eq!(stored_rows(&batches, EmbeddingColumn::Clustering).unwrap()[0].embedding, vec![100]);
}

#[test]
fn full_rows_are_sorted() {
    let rows = full_rows(&vec![scan_batch(vec![("b", 1, "b1"), ("a", 0, "a0"), ("b", 0, "b0")])]).unwrap();
    let order: Vec<(&str, i32)> = rows.iter().map(|r| (r.doc_id.as_str(), r.chunk_index)).collect();
    assert_eq!(order, vec![("a", 0), ("b", 0), ("b", 1)]);
    let mut broken = scan_batch(vec![("a", 0, "x")]);
    broken.doc_type = None;
    assert!(full_rows(&vec![broken]).is_err());
}

#[test]
fn documents_are_counted_once() {
    let batches = vec![scan_batch(vec![("a", 0, ""), ("a", 1, "")]), scan_batch(vec![("b", 0, "")])];
    assert_eq!(count_distinct_doc_ids(&batches), 2);
    assert_eq!(all_ids(&batches), strings(&["a", "a", "b"]));
}

#[test]
fn filters_restrict_types_and_ids() {
    assert!(build_filter_expr(&Vec::new(), &Vec::new()).is_none());
    assert!(matches!(build_filter_expr(&strings(&["T"]), &Vec::new()), Some(Filter::DocTypeIn(l)) if l == strings(&["T"])));
    assert!(matches!(build_filter_expr(&strings(&["T"]), &strings(&["i"])), Some(Filter::Both(_, _))));
    assert!(matches!(doc_id_eq_expr("x"), Filter::DocIdIs(id) if id == "x"));
    assert!(matches!(build_neighbour_filter("x", &DuplicateScope::default()), Filter::DocIdIsNot(id) if id == "x"));
    assert!(matches!(build_candidate_filter(&strings(&["a"]), "x"), Filter::Both(_, _)));
}

#[test]
fn filter_texts_quote_their_literals() {
    assert_eq!(build_filter_expression(&Vec::new(), &Vec::new()), "");
    assert_eq!(
        build_filter_expression(&strings(&["A", "B'"]), &strings(&["x"])),
        "doc_type IN ('A', 'B''') AND doc_id IN ('x')"
    );
}

#[test]
fn indexed_probes_fetch_twice_as_many() {
    assert_eq!(ann_fetch(0), 0);
    assert_eq!(ann_fetch(5), 10);
}

#[test]
fn a_scope_has_a_target_once_one_is_named() {
    let mut scope = DuplicateScope::default();
    assert!(!scope.has_target());
    scope.set_doc_ids = strings(&["a"]);
    assert!(!scope.has_target());
    scope.target_doc_ids = strings(&["b"]);
    assert!(scope.has_target());
    let typed = DuplicateScope { target_doc_types: strings(&["T"]), ..DuplicateScope::default() };
    assert!(typed.has_target());
}

#[test]
fn neighbours_come_from_the_target_or_the_set() {
    let set = DuplicateScope { set_doc_ids: strings(&["a", "x"]), ..DuplicateScope::default() };
    let Filter::Both(own, members) = build_neighbour_filter("x", &set) else {
        panic!("a set restricts its neighbours");
    };
    assert!(matches!(*own, Filter::DocIdIsNot(id) if id == "x"));
    assert!(matches!(*members, Filter::DocIdIn(list) if list == strings(&["a", "x"])));
    let target = DuplicateScope { target_doc_types: strings(&["T"]), ..set };
    let Filter::Both(_, members) = build_neighbour_filter("x", &target) else {
        panic!("a target restricts its neighbours");
    };
    assert!(matches!(*members, Filter::DocTypeIn(list) if list == strings(&["T"])));
}

#[test]
fn what_is_no_number_is_no_neighbour() {
    let unknown = Distance::from_bits(0xffc0_0000);
    let ids = strings(&["a", "b"]);
    let found = flat_knn_top_k("x", &ids, &vec![unknown, at(0.4)], 5, at(0.5));
    assert_eq!(shown(&found), vec![("b".to_owned(), 0.4)]);
    assert!(flat_knn_top_k("x", &ids, &vec![at(0.1), at(0.2)], 5, unknown).is_empty());
    let mut list = vec![near("a", 0.3)];
    merge_neighbours(&mut list, &vec![Neighbour { id: "a".to_owned(), distance: unknown }]);
    assert_eq!(shown(&list), vec![("a".to_owned(), 0.3)]);
}
