use tdb_search::cleanup::{
    dir_has_files_recursive, empty_index_dirs, plan_cleanup, stale_index_dirs, CleanupMode, IndexDir,
    Node,
};
use tdb_search::delta::{assemble_delta, plan_delta};
use tdb_search::integrity::{
    absent_dataset_report, branch_infos, collect_live_index_uuids, count_with_extension,
    integrity_report, plan_index_sources, sorted_names, IndexRead, IndexSource, ReadOutcome,
    ReadPlace,
};
use tdb_search::retag::{
    is_boundary_position, older_rebuild_branches, plan_boundary_retags, DeltaFork, ForkAction,
    ForkEvent, ForkPhase,
};
use tdb_search::scan::ContentRow;
use tdb_search::schema::{
    compact_rebuild_branch_name, is_compact_rebuild_branch, is_reserved_branch_name, StoreError,
};
use tdb_search::sweep::{Sweep, SweepAction, SweepEvent, SweepPhase};
use tdb_search::tags::{
    assigned_version, branch_handle, check_create_branch, count_branch_commits, derive_last_indexed,
    describe_removal, list_commit_versions, locate_snapshot, no_dataset, orphaned_tags, resolve_tag,
    stale_rebuild_branches, tags_of_branch, BranchHandle, CommitVersion, Removed, TagEntry,
};

fn tag(commit: &str, branch: Option<&str>, version: u64, created_at: i64) -> TagEntry {
    TagEntry {
        name: format!("commit_{}", commit),
        commit: Some(commit.to_owned()),
        branch: branch.map(|b| b.to_owned()),
        version,
        created_at,
    }
}

fn texts(list: &[&str]) -> Vec<String> {
    list.iter().map(|s| s.to_string()).collect()
}

const REBUILD: &str = ".-compact_rebuild_1";

#[test]
fn rebuild_branches_are_reserved() {
    let name = compact_rebuild_branch_name(1);
    assert!(is_compact_rebuild_branch(&name));
    assert!(is_reserved_branch_name(&name));
    assert!(!is_reserved_branch_name("main"));
    assert!(!is_compact_rebuild_branch("main"));
    assert_ne!(compact_rebuild_branch_name(12), compact_rebuild_branch_name(1));
    assert!(name.ends_with("1"));
}

#[test]
fn the_newest_commit_is_the_last_indexed() {
    let rebuild = compact_rebuild_branch_name(7);
    let tags = vec![
        tag("a", None, 3, 10),
        tag("b", Some("dev"), 9, 30),
        tag("c", Some(&rebuild), 5, 20),
        tag("d", None, 5, 25),
    ];
    assert_eq!(derive_last_indexed(&tags, "main"), Some(("d".to_owned(), 5)));
    assert_eq!(derive_last_indexed(&tags, "dev"), Some(("b".to_owned(), 9)));
    assert_eq!(derive_last_indexed(&tags, "other"), None);
    assert_eq!(count_branch_commits(&tags, "main"), 3);
    assert_eq!(count_branch_commits(&tags, "dev"), 1);
    assert_eq!(count_branch_commits(&tags, "other"), 0);
}

#[test]
fn tags_resolve_commits() {
    let tags = vec![tag("a", None, 3, 0), tag("b", Some("dev"), 4, 0)];
    assert_eq!(resolve_tag(&tags, "commit_a"), Some(3));
    assert_eq!(resolve_tag(&tags, "commit_x"), None);
    let s = locate_snapshot(&tags, "commit_b").unwrap();
    assert_eq!((s.branch, s.version), (Some("dev".to_owned()), 4));
    let missing = locate_snapshot(&tags, "commit_x");
    assert!(matches!(missing, Err(StoreError::Internal(m)) if m == "commit not indexed: tag 'commit_x' not found"));
    let StoreError::Internal(m) = no_dataset("d");
    assert_eq!(m, "commit not indexed: domain 'd' has no dataset");
    assert_eq!(list_commit_versions(&tags).len(), 2);
    assert_eq!(tags_of_branch(&tags, "dev"), texts(&["commit_b"]));
    assert_eq!(tags_of_branch(&tags, "main"), texts(&["commit_a"]));
}

#[test]
fn a_later_commit_leaves_an_earlier_snapshot_alone() {
    let mut tags = vec![tag("c0", None, 2, 0)];
    assert_eq!(locate_snapshot(&tags, "commit_c0").unwrap().version, 2);
    assert!(locate_snapshot(&tags, "commit_c1").is_err());
    tags.push(tag("c1", None, 3, 1));
    assert_eq!(locate_snapshot(&tags, "commit_c0").unwrap().version, 2);
    assert_eq!(locate_snapshot(&tags, "commit_c1").unwrap().version, 3);
    tags.insert(0, tag("c2", Some("dev"), 9, 2));
    assert_eq!(locate_snapshot(&tags, "commit_c0").unwrap().version, 2);
}

#[test]
fn an_assigned_commit_resolves_like_its_source() {
    let mut tags = vec![tag("c0", None, 2, 0), tag("c1", None, 3, 1)];
    let version = assigned_version(resolve_tag(&tags, "commit_c0"), "c0").unwrap();
    assert_eq!(version, 2);
    tags.insert(0, tag("c2", None, version, 2));
    assert_eq!(resolve_tag(&tags, "commit_c2"), Some(2));
    assert_eq!(resolve_tag(&tags, "commit_c0"), Some(2));
    assert_eq!(resolve_tag(&tags, "commit_c1"), Some(3));
}

#[test]
fn branches_are_created_beside_main_only() {
    assert!(check_create_branch("d", "dev", true).is_ok());
    let main = check_create_branch("d", "main", true);
    assert!(matches!(main, Err(StoreError::Internal(m)) if m == "cannot create the default 'main' branch — it always exists"));
    let absent = check_create_branch("d", "dev", false);
    assert!(matches!(absent, Err(StoreError::Internal(m)) if m == "cannot branch domain 'd': dataset does not exist (index the parent first)"));
    assert_eq!(branch_handle("main"), BranchHandle::Default);
    assert_eq!(branch_handle("dev"), BranchHandle::CheckedOut);
}

#[test]
fn orphans_and_stale_branches() {
    let rebuild = compact_rebuild_branch_name(1);
    let other = compact_rebuild_branch_name(2);
    let branches = vec!["dev".to_owned(), rebuild.clone(), other.clone()];
    let tags = vec![tag("a", None, 1, 0), tag("b", Some("gone"), 2, 0), tag("c", Some(&rebuild), 3, 0)];
    assert_eq!(orphaned_tags(&tags, &branches), texts(&["commit_b"]));
    assert_eq!(stale_rebuild_branches(&branches, &tags), vec![other.clone()]);
    assert_eq!(describe_removal(Removed::StaleBranch, "y"), "stale_branch:y");
    assert_eq!(describe_removal(Removed::OrphanedTag, "x"), "orphaned_tag:x");
    assert_eq!(older_rebuild_branches(&branches, &rebuild), vec![other]);
}

fn commits(versions: &[u64]) -> Vec<CommitVersion> {
    versions.iter().map(|v| CommitVersion { commit: format!("c{}", v), version: *v }).collect()
}

#[test]
fn boundaries_are_powers_of_three() {
    let found: Vec<usize> = (0..100).filter(|i| is_boundary_position(*i)).collect();
    assert_eq!(found, vec![0, 3, 9, 27, 81]);
}

#[test]
fn intermediate_commits_move_to_the_boundary_below() {
    let plan = plan_boundary_retags(&commits(&[50, 10, 20, 30, 40, 60]));
    let moves: Vec<(String, u64, u64)> =
        plan.into_iter().map(|r| (r.commit, r.old_version, r.new_version)).collect();
    assert_eq!(
        moves,
        vec![
            ("c20".to_owned(), 20, 10),
            ("c30".to_owned(), 30, 10),
            ("c50".to_owned(), 50, 40),
            ("c60".to_owned(), 60, 40),
        ]
    );
    assert!(plan_boundary_retags(&commits(&[1, 2])).is_empty());
}

#[test]
fn the_latest_commit_moves_even_from_a_boundary() {
    let plan = plan_boundary_retags(&commits(&[1, 2, 3, 4]));
    let moves: Vec<(u64, u64)> = plan.into_iter().map(|r| (r.old_version, r.new_version)).collect();
    assert_eq!(moves, vec![(2, 1), (3, 1), (4, 1)]);
}

#[test]
fn creation_time_decides_the_last_indexed() {
    let tags = vec![tag("c1", None, 5, 10), tag("c2", None, 3, 20)];
    assert_eq!(derive_last_indexed(&tags, "main"), Some(("c2".to_owned(), 3)));
    let tied = vec![tag("c1", None, 5, 10), tag("c2", None, 3, 10)];
    assert_eq!(derive_last_indexed(&tied, "main"), Some(("c1".to_owned(), 5)));
}

#[test]
fn a_replay_moves_tags_at_the_end() {
    let mut fork = DeltaFork::start(&commits(&[1, 2, 3]), 5).unwrap();
    let branch = compact_rebuild_branch_name(5);
    assert!(matches!(fork.action(), ForkAction::CreateBranch { branch: b, from_version: 1 } if b == branch));
    fork.advance(ForkEvent::Done);
    assert!(matches!(fork.action(), ForkAction::ApplyDelta { from_commit, to_commit } if from_commit == "c1" && to_commit == "c2"));
    fork.advance(ForkEvent::Version(11));
    assert!(matches!(fork.action(), ForkAction::IndexText));
    fork.advance(ForkEvent::Version(12));
    fork.advance(ForkEvent::Version(13));
    fork.advance(ForkEvent::Version(14));
    assert!(matches!(fork.action(), ForkAction::MoveTag { commit, version: 12 } if commit == "c2"));
    fork.advance(ForkEvent::Done);
    assert!(matches!(fork.action(), ForkAction::MoveTag { commit, version: 14 } if commit == "c3"));
    fork.advance(ForkEvent::Done);
    assert!(matches!(fork.action(), ForkAction::ListBranches));
    fork.advance(ForkEvent::Branches(vec![branch.clone(), compact_rebuild_branch_name(4), "dev".to_owned()]));
    assert!(matches!(fork.action(), ForkAction::DeleteBranch { branch: b } if b == compact_rebuild_branch_name(4)));
    fork.advance(ForkEvent::Done);
    assert!(matches!(fork.action(), ForkAction::SweepTags));
    fork.advance(ForkEvent::Done);
    assert!(matches!(fork.action(), ForkAction::RefreshCache));
    fork.advance(ForkEvent::Done);
    assert_eq!(fork.phase(), ForkPhase::Finished);
    assert_eq!(fork.counts(), (3, 2));
}

#[test]
fn a_failed_replay_deletes_its_branch() {
    let mut fork = DeltaFork::start(&commits(&[1, 2, 3]), 5).unwrap();
    fork.advance(ForkEvent::Done);
    fork.advance(ForkEvent::Failed);
    assert!(matches!(fork.action(), ForkAction::DeleteBranch { branch } if branch == compact_rebuild_branch_name(5)));
    fork.advance(ForkEvent::Done);
    assert_eq!(fork.phase(), ForkPhase::Failed);
    assert!(DeltaFork::start(&commits(&[1, 2]), 5).is_none());
}

#[test]
fn an_unreadable_dataset_ends_the_deletions() {
    let mut fork = DeltaFork::start(&commits(&[1, 2, 3]), 5).unwrap();
    fork.advance(ForkEvent::Done);
    for v in 11..15 {
        fork.advance(ForkEvent::Version(v));
    }
    fork.advance(ForkEvent::Done);
    fork.advance(ForkEvent::Done);
    fork.advance(ForkEvent::Branches(vec![compact_rebuild_branch_name(4)]));
    assert_eq!(fork.phase(), ForkPhase::Delete(0));
    fork.advance(ForkEvent::Failed);
    assert_eq!(fork.phase(), ForkPhase::Failed);
    assert_eq!(fork.counts(), (3, 2));
}

fn content(id: &str, chunk: i32, text: &str) -> ContentRow {
    ContentRow { doc_id: id.to_owned(), chunk_index: chunk, content: text.to_owned() }
}

#[test]
fn deltas_name_changed_and_removed_documents() {
    let a = vec![content("same", 0, "x"), content("changed", 0, "old"), content("gone", 0, "y"), content("grown", 0, "z")];
    let b = vec![
        content("changed", 0, "new"),
        content("same", 0, "x"),
        content("added", 0, "w"),
        content("grown", 0, "z"),
        content("grown", 1, "zz"),
    ];
    let plan = plan_delta(&a, &b);
    assert_eq!(plan.read, texts(&["changed", "added", "grown"]));
    assert_eq!(plan.delete, texts(&["gone"]));
    let delta = assemble_delta(plan, Vec::new());
    assert_eq!(delta.doc_ids_to_delete, texts(&["gone"]));
    assert!(delta.rows_to_append.is_empty());
    let none = plan_delta(&b, &b);
    assert!(none.read.is_empty() && none.delete.is_empty());
}

#[test]
fn a_sweep_removes_orphans_then_stale_branches() {
    let rebuild = compact_rebuild_branch_name(1);
    let tags = vec![tag("a", None, 1, 0), tag("b", Some("gone"), 2, 0)];
    let sweep = Sweep::start(vec!["dev".to_owned(), rebuild.clone()], &tags);
    assert!(matches!(sweep.action(), SweepAction::DeleteTag { name } if name == "commit_b"));
    let sweep = sweep.advance(SweepEvent::Done);
    assert!(matches!(sweep.action(), SweepAction::ListTags));
    let sweep = sweep.advance(SweepEvent::Tags(vec![tag("a", None, 1, 0)]));
    assert!(matches!(sweep.action(), SweepAction::DeleteBranch { branch } if branch == rebuild));
    let sweep = sweep.advance(SweepEvent::Refused);
    assert_eq!(sweep.cleaned(), &texts(&["orphaned_tag:commit_b"]));
    assert!(matches!(sweep.action(), SweepAction::CleanVersions));
    let sweep = sweep.advance(SweepEvent::Refused);
    assert!(matches!(sweep.action(), SweepAction::PruneStale));
    let sweep = sweep.advance(SweepEvent::Done);
    assert!(matches!(sweep.action(), SweepAction::PruneEmpty));
    let sweep = sweep.advance(SweepEvent::Done);
    assert_eq!(sweep.phase(), SweepPhase::Finished);
    assert!(matches!(sweep.action(), SweepAction::Stop));
}

#[test]
fn a_sweep_without_findings_still_prunes() {
    let sweep = Sweep::start(texts(&["dev"]), &Vec::new());
    assert_eq!(sweep.phase(), SweepPhase::Relist);
    let sweep = sweep.advance(SweepEvent::Tags(Vec::new()));
    assert_eq!(sweep.phase(), SweepPhase::PruneStale);
    assert!(sweep.cleaned().is_empty());
    let broken = Sweep::start(texts(&["dev"]), &Vec::new()).advance(SweepEvent::Broken);
    assert_eq!(broken.phase(), SweepPhase::Failed);
}

#[test]
fn cleanup_protects_rebuild_branches() {
    let with = texts(&[REBUILD, "dev"]);
    let without = texts(&["dev"]);
    assert!(is_compact_rebuild_branch(REBUILD));
    let plan = plan_cleanup(CleanupMode::CurrentCode, Some(&with), true, false);
    assert!(plan.hide_indices && !plan.keep_referenced_branches);
    assert_eq!(plan.retain_versions, 3);
    let plan = plan_cleanup(CleanupMode::TargetNoPatch, Some(&with), true, true);
    assert!(!plan.hide_indices && plan.keep_referenced_branches);
    assert_eq!(plan.retain_versions, 1);
    assert!(!plan_cleanup(CleanupMode::CurrentCode, Some(&without), true, true).hide_indices);
    assert!(!plan_cleanup(CleanupMode::CurrentCode, Some(&with), false, true).hide_indices);
    assert!(!plan_cleanup(CleanupMode::CurrentCode, None, true, true).hide_indices);
}

#[test]
fn cleanup_modes_have_numbers() {
    for mode in [CleanupMode::CurrentCode, CleanupMode::TargetNoPatch, CleanupMode::TargetWithPatch] {
        assert_eq!(CleanupMode::from_code(mode.code()), mode);
        assert_eq!(mode.hide_indices(), !mode.disable_clean_referenced_branches());
    }
    assert_eq!(CleanupMode::from_code(77), CleanupMode::CurrentCode);
    assert_eq!(CleanupMode::default(), CleanupMode::CurrentCode);
}

#[test]
fn only_unreferenced_directories_are_stale() {
    let dirs = texts(&["u1", "u2", "u3"]);
    assert_eq!(stale_index_dirs(&dirs, &texts(&["u2"])), texts(&["u1", "u3"]));
    assert!(stale_index_dirs(&dirs, &dirs).is_empty());
}

#[test]
fn nested_files_keep_a_directory() {
    let nested = Node::Dir(vec![Node::Other, Node::Dir(vec![Node::File])]);
    let hollow = Node::Dir(vec![Node::Other, Node::Dir(Vec::new())]);
    assert!(dir_has_files_recursive(&nested));
    assert!(!dir_has_files_recursive(&hollow));
    let dirs = vec![
        IndexDir { name: "full".to_owned(), node: nested },
        IndexDir { name: "hollow".to_owned(), node: hollow },
        IndexDir { name: "file".to_owned(), node: Node::File },
    ];
    assert_eq!(empty_index_dirs(&dirs), texts(&["hollow"]));
}

#[test]
fn every_tagged_version_is_a_source() {
    let tags = vec![tag("a", None, 1, 0), tag("b", Some("dev"), 2, 0), tag("c", None, 3, 0)];
    let plan = plan_index_sources(&texts(&["dev", "main"]), &tags);
    assert_eq!(plan.len(), 5);
    assert!(matches!(plan[0], IndexSource::MainHead));
    assert!(matches!(&plan[1], IndexSource::BranchHead(b) if b == "dev"));
    assert!(matches!(&plan[2], IndexSource::BranchHead(b) if b == "main"));
    assert!(matches!(&plan[3], IndexSource::Tagged { branch, versions } if branch == "main" && *versions == vec![1, 3]));
    assert!(matches!(&plan[4], IndexSource::Tagged { branch, versions } if branch == "dev" && *versions == vec![2]));
}

fn ids(list: &[&str]) -> ReadOutcome {
    ReadOutcome::Ids(texts(list))
}

#[test]
fn strict_collection_stops_at_the_first_failure() {
    let reads = vec![
        IndexRead { place: ReadPlace::MainHead, outcome: ids(&["u1", "u2"]) },
        IndexRead {
            place: ReadPlace::BranchHead("dev".to_owned()),
            outcome: ReadOutcome::Unavailable("gone".to_owned()),
        },
        IndexRead {
            place: ReadPlace::TaggedVersion { branch: "main".to_owned(), version: 12 },
            outcome: ids(&["u2", "u3"]),
        },
    ];
    let strict = collect_live_index_uuids(&reads, true);
    assert!(matches!(strict, Err(StoreError::Internal(m)) if m == "collect UUIDs (strict): checkout_branch 'dev' failed: gone"));
    assert_eq!(collect_live_index_uuids(&reads, false).unwrap(), texts(&["u1", "u2", "u3"]));
}

#[test]
fn failed_readings_are_described() {
    let cases = vec![
        (ReadPlace::MainHead, true, "load_indices failed for HEAD on main: e"),
        (ReadPlace::BranchHead("b".to_owned()), true, "load_indices failed for HEAD on branch 'b': e"),
        (ReadPlace::TaggedBranch("b".to_owned()), false, "checkout_branch 'b' for tagged versions failed: e"),
        (ReadPlace::TaggedVersion { branch: "b".to_owned(), version: 7 }, true, "load_indices failed for version 7 on branch 'b': e"),
        (ReadPlace::TaggedVersion { branch: "b".to_owned(), version: 7 }, false, "checkout version 7 on branch 'b' failed: e"),
    ];
    for (place, load, expected) in cases {
        let outcome = if load {
            ReadOutcome::LoadFailed("e".to_owned())
        } else {
            ReadOutcome::Unavailable("e".to_owned())
        };
        let r = collect_live_index_uuids(&vec![IndexRead { place, outcome }], true);
        let StoreError::Internal(m) = r.unwrap_err();
        assert_eq!(m, format!("collect UUIDs (strict): {}", expected));
    }
}

#[test]
fn names_are_sorted_and_distinct() {
    assert_eq!(sorted_names(&texts(&["b", "a", "b", "é", "aa"])), texts(&["a", "aa", "b", "é"]));
    assert!(sorted_names(&Vec::new()).is_empty());
}

#[test]
fn branches_show_their_newest_version() {
    let tags = vec![tag("a", None, 4, 0), tag("b", Some("dev"), 2, 0), tag("c", None, 9, 0)];
    let infos = branch_infos(&tags);
    let listed: Vec<(&str, u64)> = infos.iter().map(|i| (i.name.as_str(), i.version)).collect();
    assert_eq!(listed, vec![("main", 9), ("dev", 2)]);
}

#[test]
fn a_sound_dataset_has_no_warnings() {
    let tags = vec![tag("a", None, 4, 0)];
    let r = integrity_report("d", &tags, &texts(&["dev"]), &texts(&["u1"]), &texts(&["u1", "u1"]), 3, 2);
    assert!(r.ok);
    assert!(r.warnings.is_empty());
    assert_eq!(r.on_disk_index_dirs, texts(&["u1"]));
    assert_eq!((r.tagged_versions, r.on_disk_data_files, r.on_disk_manifests), (1, 3, 2));
}

#[test]
fn findings_become_warnings() {
    let one = compact_rebuild_branch_name(1);
    let two = compact_rebuild_branch_name(2);
    let tags = vec![tag("a", Some("gone"), 4, 0), tag("b", Some(&one), 5, 0)];
    let r = integrity_report(
        "d",
        &tags,
        &vec![one.clone(), two.clone()],
        &texts(&["u1", "u2"]),
        &texts(&["u3", "u2"]),
        0,
        0,
    );
    assert!(!r.ok);
    assert_eq!(r.stale_index_dirs, texts(&["u3"]));
    assert_eq!(r.dangling_index_refs, texts(&["u1"]));
    assert_eq!(r.rebuild_branches, vec![one, two.clone()]);
    assert_eq!(r.orphaned_tags, texts(&["commit_a (branch=gone version=4)"]));
    assert_eq!(r.stale_rebuild_branches, vec![two]);
    assert_eq!(
        r.warnings,
        texts(&[
            "1 stale index directories on disk not referenced by any tagged version",
            "1 index UUIDs referenced by tagged manifests have no backing directory on disk (historical FTS may be degraded)",
            "2 rebuild branches exist (expected ≤1 after compaction)",
            "1 tags point to non-existent branches (orphaned tags pin dead data)",
            "1 rebuild branches have no tags (stale — should be deleted)",
        ])
    );
}

#[test]
fn an_absent_dataset_is_sound() {
    let r = absent_dataset_report("d");
    assert!(r.ok);
    assert_eq!(r.domain, "d");
    assert_eq!(r.warnings, texts(&["dataset does not exist on disk"]));
}

#[test]
fn extensions_follow_the_last_dot() {
    let names = texts(&["a.lance", ".lance", "b.c.lance", "lance", "d.manifest", "..lance"]);
    assert_eq!(count_with_extension(&names, "lance"), 3);
    assert_eq!(count_with_extension(&names, "manifest"), 1);
}
