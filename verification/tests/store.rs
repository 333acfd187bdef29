use tdb_search::branch::{needs_fork, plan_branch_out, BranchOutcome};
use tdb_search::cleanup::CleanupMode;
use tdb_search::config::VectorIndexConfig;
use tdb_search::index::{
    ensure_fts_covers, ensure_fts_created, needs_compaction, plan_open, plan_open_readonly, FtsStep,
    OpenStep,
};
use tdb_search::schema::{ChunkRow, StoreError};
use tdb_search::stats::{
    domain_chunks, internal_stats, live_rows, needs_disk, statistics, statistics_for_domain,
    DiskDataset, DiskReading, Fragment, OpenDataset, PipelineCounters,
};
use tdb_search::store::{keys_to_remove, BranchKey, LanceStore};
use tdb_search::table::{Table, TripleSet};
use tdb_search::tags::{assigned_version, resolve_tag, TagEntry};
use tdb_search::tasks::TaskStatus;
use tdb_search::write::{
    chunk_schema, empty_columns, plan_delete, plan_upsert, rows_to_columns, ColumnKind, WriteStep,
};

fn failure(m: &str) -> StoreError {
    StoreError::Internal(m.to_owned())
}

#[test]
fn reserve_commit_rejects_inflight_then_release_allows_retry() {
    let mut store = LanceStore::new(8);
    let domain = "admin/reserve";
    assert!(
        store.io_try_reserve_commit(domain, "main", "c1", Ok(None)).expect("reserve c1"),
        "first reservation of an absent commit must succeed"
    );
    assert!(store.is_reserved(domain, "main", "c1"));
    assert!(
        !store.io_try_reserve_commit(domain, "main", "c1", Ok(None)).expect("re-reserve c1"),
        "re-reserving an in-flight (Reserved) commit must be rejected"
    );
    store.io_release_commit_reservation(domain, "main", "c1");
    assert!(
        store.io_try_reserve_commit(domain, "main", "c1", Ok(None)).expect("retry reserve c1"),
        "after release (failed index), a retry of the same commit must be allowed"
    );
}

#[test]
fn reserve_commit_rejects_already_indexed() {
    let mut store = LanceStore::new(8);
    let domain = "admin/reserve_indexed";
    assert!(
        !store.io_try_reserve_commit(domain, "main", "c0", Ok(Some(2))).expect("reserve c0"),
        "re-pushing an already-indexed (tagged) commit must be rejected"
    );
    assert!(!store.is_reserved(domain, "main", "c0"));
}

#[test]
fn an_unresolved_commit_is_not_reserved() {
    let mut store = LanceStore::new(8);
    let r = store.io_try_reserve_commit("d", "main", "c", Err(failure("tag list failed")));
    assert!(matches!(r, Err(StoreError::Internal(m)) if m == "tag list failed"));
    assert!(!store.is_reserved("d", "main", "c"));
    assert_eq!(store.reservation_count(), 0);
}

#[test]
fn releasing_an_absent_reservation_does_nothing() {
    let mut store = LanceStore::new(8);
    assert!(store.io_try_reserve_commit("d", "main", "c", Ok(None)).unwrap());
    store.io_release_commit_reservation("d", "main", "other");
    store.io_release_commit_reservation("d", "dev", "c");
    assert_eq!(store.reservation_count(), 1);
}

#[test]
fn last_indexed_is_derived_once() {
    let mut store = LanceStore::new(8);
    assert!(store.cached_last_indexed("d", "main").is_none());
    let first = store.last_indexed("d", "main", Ok(Some(("c1".to_owned(), 3)))).unwrap();
    assert_eq!(first.branch, "main");
    assert_eq!(first.commit, Some("c1".to_owned()));
    assert_eq!(first.version, 3);
    let second = store.last_indexed("d", "main", Err(failure("unreadable"))).unwrap();
    assert_eq!(second.commit, Some("c1".to_owned()));
    store.update_last_indexed("d", "main", "c2", 5);
    let third = store.last_indexed("d", "main", Ok(None)).unwrap();
    assert_eq!(third.commit, Some("c2".to_owned()));
    assert_eq!(third.version, 5);
}

#[test]
fn an_unindexed_branch_has_version_zero() {
    let mut store = LanceStore::new(8);
    let l = store.last_indexed("d", "main", Ok(None)).unwrap();
    assert_eq!(l.commit, None);
    assert_eq!(l.version, 0);
    assert!(store.cached_last_indexed("d", "main").is_none());
    assert!(store.last_indexed("d", "main", Err(failure("unreadable"))).is_err());
}

#[test]
fn deltas_are_counted_per_branch() {
    let mut store = LanceStore::new(8);
    assert_eq!(store.io_get_delta_count("d", "main"), 0);
    store.io_increment_delta_count("d", "main");
    store.io_increment_delta_count("d", "main");
    store.io_increment_delta_count("d", "dev");
    assert_eq!(store.io_get_delta_count("d", "main"), 2);
    assert_eq!(store.io_get_delta_count("d", "dev"), 1);
    store.io_reset_delta_count("d", "main");
    assert_eq!(store.io_get_delta_count("d", "main"), 0);
    assert_eq!(store.io_get_delta_count("d", "dev"), 1);
}

fn filled_store() -> LanceStore {
    let mut store = LanceStore::new(8);
    for (d, b) in [("d", "main"), ("d", "dev"), ("e", "main")] {
        store.update_last_indexed(d, b, "c", 1);
        store.io_increment_delta_count(d, b);
        assert!(store.io_try_reserve_commit(d, b, "next", Ok(None)).unwrap());
    }
    store
}

#[test]
fn deleting_a_domain_leaves_the_others() {
    let mut store = filled_store();
    assert!(store.io_delete_domain("d", Ok(())).is_ok());
    assert!(store.io_delete_domain("d", Ok(())).is_ok());
    assert!(store.cached_last_indexed("d", "main").is_none());
    assert!(store.cached_last_indexed("d", "dev").is_none());
    assert!(store.cached_last_indexed("e", "main").is_some());
    assert_eq!(store.io_get_delta_count("d", "dev"), 0);
    assert_eq!(store.io_get_delta_count("e", "main"), 1);
    assert!(!store.is_reserved("d", "main", "next"));
    assert!(store.is_reserved("e", "main", "next"));
}

#[test]
fn a_failed_deletion_forgets_nothing() {
    let mut store = filled_store();
    assert!(store.io_delete_domain("d", Err(failure("busy"))).is_err());
    assert!(store.io_delete_branch_index("d", "dev", Err(failure("busy"))).is_err());
    assert_eq!(store.branch_index_count(), 3);
    assert_eq!(store.reservation_count(), 3);
    assert_eq!(store.io_get_delta_count("d", "dev"), 1);
}

#[test]
fn deleting_a_branch_leaves_the_others() {
    let mut store = filled_store();
    assert!(store.io_delete_branch_index("d", "dev", Ok(())).is_ok());
    assert!(store.cached_last_indexed("d", "dev").is_none());
    assert!(store.cached_last_indexed("d", "main").is_some());
    assert!(!store.is_reserved("d", "dev", "next"));
    assert!(store.is_reserved("d", "main", "next"));
    assert_eq!(store.io_get_delta_count("d", "dev"), 0);
    assert_eq!(store.io_get_delta_count("d", "main"), 1);
}

#[test]
fn the_store_keeps_its_mode_and_tasks() {
    let mut store = LanceStore::new(8);
    assert_eq!(store.dim(), 8);
    assert_eq!(store.cleanup_mode(), CleanupMode::CurrentCode);
    store.set_cleanup_mode(CleanupMode::TargetWithPatch);
    assert_eq!(store.cleanup_mode(), CleanupMode::TargetWithPatch);
    store.record_task("t", TaskStatus::Error { error: "boom".to_owned() }, 5);
    assert_eq!(store.task_count(), 1);
    assert!(matches!(store.check_task("t"), Some(TaskStatus::Error { error }) if error == "boom"));
    assert!(store.check_task("u").is_none());
}

#[test]
fn tables_hold_one_value_per_pair() {
    let mut t: Table<u64> = Table::new();
    t.insert("a", "b", 1);
    t.insert("a", "b", 2);
    t.insert("ab", "", 3);
    assert_eq!(t.len(), 2);
    assert_eq!(t.get("a", "b"), Some(&2));
    assert_eq!(t.get("a", ""), None);
    assert!(t.remove("a", "b"));
    assert!(!t.remove("a", "b"));
    t.remove_first("ab");
    assert_eq!(t.len(), 0);
}

#[test]
fn triple_sets_match_whole_texts() {
    let mut s = TripleSet::new();
    s.insert("a", "b", "c");
    s.insert("a", "b", "c");
    s.insert("a", "bc", "");
    assert_eq!(s.len(), 2);
    s.remove_pair("a", "b");
    assert!(!s.contains("a", "b", "c"));
    assert!(s.contains("a", "bc", ""));
    s.remove_first("a");
    assert_eq!(s.len(), 0);
}

#[test]
fn assign_unindexed_source_fails_loud() {
    let result = assigned_version(None, "never_indexed");
    assert!(matches!(result, Err(StoreError::Internal(m)) if m == "cannot assign: source commit 'never_indexed' is not indexed"));
    assert_eq!(assigned_version(Some(4), "indexed").unwrap(), 4);
}

#[test]
fn branch_out_main_is_noop() {
    let outcome = plan_branch_out("admin/db", "main", "anything", &Vec::new(), None).expect("main branch-out");
    assert_eq!(outcome, BranchOutcome::AlreadyExists);
    assert!(!needs_fork("main", &Vec::new()));
}

#[test]
fn branch_out_unindexed_parent_fails_loud() {
    let result = plan_branch_out("admin/empty", "feature", "no_such_commit", &Vec::new(), None);
    assert!(matches!(
        result,
        Err(StoreError::Internal(m)) if m == "cannot branch 'feature' in domain 'admin/empty': parent commit 'no_such_commit' is not indexed (no tagged version to fork from)"
    ));
}

#[test]
fn a_second_branch_out_finds_the_branch() {
    let none: Vec<String> = Vec::new();
    let first = plan_branch_out("d", "feature", "p", &none, Some(7)).unwrap();
    assert_eq!(first, BranchOutcome::Created { parent_version: 7 });
    let listed = vec!["feature".to_owned()];
    let second = plan_branch_out("d", "feature", "p", &listed, Some(7)).unwrap();
    assert_eq!(second, BranchOutcome::AlreadyExists);
}

#[test]
fn a_fork_takes_the_version_of_its_parent() {
    let tags = vec![TagEntry {
        name: "commit:p".to_owned(),
        commit: Some("p".to_owned()),
        branch: None,
        version: 7,
        created_at: 0,
    }];
    let parent = resolve_tag(&tags, "commit:p");
    let none: Vec<String> = Vec::new();
    let outcome = plan_branch_out("d", "feature", "p", &none, parent).unwrap();
    assert_eq!(outcome, BranchOutcome::Created { parent_version: 7 });
    let main = plan_branch_out("d", "main", "p", &none, parent).unwrap();
    assert_eq!(main, BranchOutcome::AlreadyExists);
}

fn keys(pairs: &[(&str, &str)]) -> Vec<BranchKey> {
    pairs
        .iter()
        .map(|(d, b)| BranchKey { domain: (*d).to_owned(), branch: (*b).to_owned() })
        .collect()
}

fn pairs(keys: Vec<BranchKey>) -> Vec<(String, String)> {
    keys.into_iter().map(|k| (k.domain, k.branch)).collect()
}

#[test]
fn a_deletion_takes_its_own_keys() {
    let held = [("d", "main"), ("e", "main"), ("d", "dev"), ("de", "main")];
    let owned = |d: &str, b: &str| (d.to_owned(), b.to_owned());
    assert_eq!(pairs(keys_to_remove(keys(&held), "d", None)), vec![owned("d", "main"), owned("d", "dev")]);
    assert_eq!(pairs(keys_to_remove(keys(&held), "d", Some("dev"))), vec![owned("d", "dev")]);
    assert!(keys_to_remove(keys(&held), "d", Some("other")).is_empty());
    assert!(keys_to_remove(keys(&held), "x", None).is_empty());
}

#[test]
fn reading_never_creates_a_dataset() {
    assert_eq!(plan_open_readonly(false, false), OpenStep::Absent);
    assert_eq!(plan_open_readonly(false, true), OpenStep::Open);
    assert_eq!(plan_open_readonly(true, false), OpenStep::Reuse);
    assert_eq!(plan_open(false, false), OpenStep::Create);
    assert_eq!(plan_open(true, true), OpenStep::Reuse);
}

#[test]
fn the_text_index_is_created_once() {
    let without = vec!["embedding_ann".to_owned()];
    let with = vec!["embedding_ann".to_owned(), "content_fts".to_owned()];
    assert_eq!(ensure_fts_created(&without), FtsStep::Create);
    assert_eq!(ensure_fts_created(&with), FtsStep::Nothing);
    assert_eq!(ensure_fts_covers(&without), FtsStep::Create);
    assert_eq!(ensure_fts_covers(&with), FtsStep::Append);
}

#[test]
fn compaction_waits_for_fragments() {
    assert!(!needs_compaction(16, false));
    assert!(needs_compaction(17, false));
    assert!(needs_compaction(0, true));
}

fn chunk_row(id: &str, bits: Vec<u32>) -> ChunkRow {
    ChunkRow {
        doc_id: id.to_owned(),
        doc_type: "Doc".to_owned(),
        chunk_index: 1,
        chunk_count: 2,
        chunk_token_start: 3,
        doc_token_len: 4,
        embedding: bits.clone(),
        clustering_embedding: bits.iter().map(|b| b + 10).collect(),
        content: format!("content of {}", id),
    }
}

#[test]
fn rows_become_columns() {
    let c = rows_to_columns(&vec![chunk_row("a", vec![1, 2]), chunk_row("b", vec![3, 4])]);
    assert_eq!(c.doc_ids, vec!["a", "b"]);
    assert_eq!(c.doc_types, vec!["Doc", "Doc"]);
    assert_eq!(c.chunk_indexes, vec![1, 1]);
    assert_eq!(c.chunk_counts, vec![2, 2]);
    assert_eq!(c.chunk_token_starts, vec![3, 3]);
    assert_eq!(c.doc_token_lens, vec![4, 4]);
    assert_eq!(c.embeddings, vec![1, 2, 3, 4]);
    assert_eq!(c.clustering_embeddings, vec![11, 12, 13, 14]);
    assert_eq!(c.contents, vec!["content of a", "content of b"]);
    assert!(empty_columns().doc_ids.is_empty());
}

#[test]
fn the_chunk_table_has_nine_columns() {
    let schema = chunk_schema(768);
    let names: Vec<&str> = schema.iter().map(|c| c.name.as_str()).collect();
    assert_eq!(
        names,
        vec![
            "doc_id",
            "doc_type",
            "chunk_index",
            "chunk_count",
            "chunk_token_start",
            "doc_token_len",
            "embedding",
            "clustering_embedding",
            "content"
        ]
    );
    assert_eq!(schema[6].kind, ColumnKind::Vector(768));
    assert_eq!(schema[0].kind, ColumnKind::Text);
}

#[test]
fn writes_quote_the_document_id() {
    assert!(matches!(plan_upsert("d'x", 0), WriteStep::Nothing));
    assert!(matches!(
        plan_upsert("d'x", 2),
        WriteStep::Replace { condition } if condition == "doc_id = 'd''x'"
    ));
    assert!(matches!(plan_delete("d", false), WriteStep::Nothing));
    assert!(matches!(
        plan_delete("d", true),
        WriteStep::Delete { condition } if condition == "doc_id = 'd'"
    ));
}

fn fragment(rows: u64, gone: u64) -> Fragment {
    Fragment { physical_rows: Some(rows), deletions: Some(gone) }
}

#[test]
fn live_rows_leave_deleted_ones_out() {
    let unknown = Fragment { physical_rows: None, deletions: None };
    assert_eq!(live_rows(&vec![fragment(10, 3), unknown, fragment(5, 0)]), 12);
    assert_eq!(live_rows(&vec![fragment(1, 3)]), 0);
    assert_eq!(live_rows(&Vec::new()), 0);
}

#[test]
fn global_statistics_count_each_dataset_once() {
    let store = filled_store();
    let open = vec![OpenDataset {
        domain: "d".to_owned(),
        fragments: vec![fragment(10, 1)],
        unindexed: Some((2, 20)),
    }];
    let disk = vec![
        DiskDataset { domain: "d".to_owned(), reading: None },
        DiskDataset {
            domain: "f".to_owned(),
            reading: Some(DiskReading::Opened { fragments: vec![fragment(4, 1)], tags: Some(3) }),
        },
        DiskDataset {
            domain: "g".to_owned(),
            reading: Some(DiskReading::Counted { rows: 6, tags: Some(9) }),
        },
    ];
    let s = statistics(&open, &store.indexed_branches(), &disk);
    assert_eq!(s.domains, 4);
    assert_eq!(s.branches, 3);
    assert_eq!(s.indexed_commits, 6);
    assert_eq!(s.documents, 0);
    assert_eq!(s.chunks, 9 + 3 + 6);
    assert_eq!(s.pending_index_fragments, 2);
    assert_eq!(s.pending_index_documents, 20);
    assert_eq!(s.store_clustering, None);
}

#[test]
fn domain_statistics_read_the_disk_when_memory_has_no_rows() {
    let store = filled_store();
    let indexes = store.indexed_branches();
    let open = Some(OpenDataset {
        domain: "d".to_owned(),
        fragments: vec![fragment(10, 4)],
        unindexed: None,
    });
    assert!(!needs_disk(&open, true));
    let s = statistics_for_domain("d", &open, &indexes, true, &None, 5, true);
    assert_eq!(s.domains, 1);
    assert_eq!(s.branches, 2);
    assert_eq!(s.indexed_commits, 2);
    assert_eq!(s.chunks, 6);
    assert_eq!(s.documents, 5);
    assert_eq!(s.store_clustering, Some(true));

    assert!(needs_disk(&None, true));
    let reading = Some(DiskReading::Counted { rows: 7, tags: Some(4) });
    assert_eq!(domain_chunks(&None, &reading), 7);
    let s = statistics_for_domain("e", &None, &indexes, true, &reading, 2, false);
    assert_eq!(s.indexed_commits, 4);
    assert_eq!(s.chunks, 7);
    assert_eq!(s.documents, 2);
}

#[test]
fn an_unknown_domain_has_empty_statistics() {
    let s = statistics_for_domain("x", &None, &Vec::new(), false, &None, 9, false);
    assert_eq!((s.domains, s.branches, s.indexed_commits, s.chunks, s.documents), (0, 0, 0, 0, 0));
}

#[test]
fn internal_statistics_report_sizes() {
    let store = filled_store();
    let counters = PipelineCounters {
        pending_chunks: 1,
        embedded_chunks: 2,
        written_chunks: 3,
        active_tasks: 4,
        fresh_open_count: 5,
    };
    let s = internal_stats(&store, 6, 7, 8, counters, 9, 10);
    assert_eq!(s.branch_indexes, 3);
    assert_eq!(s.inflight_commits, 3);
    assert_eq!(s.tasks, 0);
    assert_eq!(s.cached_datasets, 6);
    assert_eq!(s.fresh_open_count, 5);
    assert_eq!(s.embed_cache_entries, 0);
    assert_eq!(s.lance_metadata_cache_capacity_bytes, 10);
}

#[test]
fn the_index_configuration_can_be_replaced() {
    let mut store = LanceStore::new(8);
    assert_eq!(store.vector_index_config().nprobes, 4);
    assert_eq!(store.vector_index_config().refine_factor, Some(2));
    let config = VectorIndexConfig { nprobes: 9, refine_factor: None, ..VectorIndexConfig::default_for_dim(8) };
    store.set_vector_index_config(config);
    assert_eq!(store.vector_index_config().nprobes, 9);
    assert_eq!(store.vector_index_config().refine_factor, None);
    assert_eq!(store.vector_index_config().num_partitions, 16);
    assert_eq!(store.dim(), 8);
}
