use tdb_search::tasks::{TaskStatus, Tasks, MAX_TASKS, TASK_TTL};

const SECOND: u64 = 1_000_000_000;
const NOW: u64 = 1_000_000 * SECOND;

fn complete(indexed_documents: u64) -> TaskStatus {
    TaskStatus::Complete { indexed_documents, skipped: Vec::new() }
}

fn pending(percentage: f64) -> TaskStatus {
    TaskStatus::Pending { percentage: percentage.to_bits() }
}

fn insert_backdated(tasks: &mut Tasks, id: &str, status: TaskStatus, age: u64) {
    tasks.insert(id, status, NOW - age);
}

#[test]
fn evict_stale_tasks_removes_old_terminal_entries() {
    let mut tasks = Tasks::new();
    insert_backdated(&mut tasks, "old-complete", complete(5), TASK_TTL + 60 * SECOND);
    insert_backdated(
        &mut tasks,
        "old-error",
        TaskStatus::Error { error: "boom".to_owned() },
        TASK_TTL + 30 * SECOND,
    );
    insert_backdated(&mut tasks, "old-pending", pending(50.0), TASK_TTL + 120 * SECOND);
    insert_backdated(&mut tasks, "recent-complete", complete(3), 10 * SECOND);

    tasks.evict_stale_tasks(NOW);

    assert!(tasks.check_task("old-complete").is_none(), "old terminal task should be evicted");
    assert!(tasks.check_task("old-error").is_none(), "old error task should be evicted");
    assert!(tasks.check_task("old-pending").is_some(), "pending task should be retained regardless of age");
    assert!(tasks.check_task("recent-complete").is_some(), "recent terminal task should be retained");
}

#[test]
fn evict_stale_tasks_enforces_max_cap() {
    let mut tasks = Tasks::new();
    for i in 0..(MAX_TASKS + 50) {
        insert_backdated(&mut tasks, &format!("task-{}", i), complete(i as u64), i as u64 * 1_000_000);
    }

    tasks.evict_stale_tasks(NOW);

    assert_eq!(tasks.task_count(), MAX_TASKS, "tasks map should be capped at MAX_TASKS");
    // The oldest ones are those that went.
    assert!(tasks.check_task("task-9999").is_some());
    assert!(tasks.check_task("task-10000").is_none());
}

#[test]
fn evict_stale_tasks_prefers_evicting_oldest_terminal() {
    let mut tasks = Tasks::new();
    insert_backdated(&mut tasks, "oldest", complete(1), 100 * SECOND);
    insert_backdated(&mut tasks, "middle", complete(2), 50 * SECOND);
    insert_backdated(&mut tasks, "newest", complete(3), 10 * SECOND);
    insert_backdated(&mut tasks, "pending", pending(0.0), 5 * SECOND);

    tasks.evict_stale_tasks(NOW);
    assert_eq!(tasks.task_count(), 4, "all tasks within TTL should be retained");
}

#[test]
fn evict_stale_tasks_with_empty_map_is_noop() {
    let mut tasks = Tasks::new();
    tasks.evict_stale_tasks(NOW);
    assert_eq!(tasks.task_count(), 0);
}

#[test]
fn evict_stale_tasks_all_pending_never_evicts_by_ttl() {
    let mut tasks = Tasks::new();
    insert_backdated(&mut tasks, "p1", pending(10.0), TASK_TTL * 10);
    insert_backdated(&mut tasks, "p2", pending(90.0), TASK_TTL * 5);

    tasks.evict_stale_tasks(NOW);
    assert_eq!(tasks.task_count(), 2, "pending tasks should never be evicted by TTL");
}

#[test]
fn a_task_of_exactly_the_time_to_live_stays() {
    let mut tasks = Tasks::new();
    insert_backdated(&mut tasks, "at", complete(1), TASK_TTL);
    insert_backdated(&mut tasks, "past", complete(1), TASK_TTL + 1);
    tasks.evict_stale_tasks(NOW);
    assert!(tasks.check_task("at").is_some());
    assert!(tasks.check_task("past").is_none());
}

#[test]
fn recording_replaces_and_evicts() {
    let mut tasks = Tasks::new();
    tasks.record_task("t", pending(10.0), NOW);
    tasks.record_task("t", complete(7), NOW + 1);
    assert_eq!(tasks.task_count(), 1);
    assert!(matches!(
        tasks.check_task("t"),
        Some(TaskStatus::Complete { indexed_documents: 7, .. })
    ));
    tasks.record_task("u", pending(0.0), NOW + 2 + TASK_TTL);
    assert!(tasks.check_task("t").is_none());
    assert!(tasks.check_task("u").is_some());
}

#[test]
fn pending_tasks_outlive_finished_ones_at_the_cap() {
    let mut tasks = Tasks::new();
    insert_backdated(&mut tasks, "old-pending", pending(1.0), 9 * SECOND);
    for i in 0..MAX_TASKS {
        insert_backdated(&mut tasks, &format!("task-{}", i), complete(0), SECOND + i as u64);
    }
    tasks.evict_stale_tasks(NOW);
    assert_eq!(tasks.task_count(), MAX_TASKS);
    assert!(tasks.check_task("old-pending").is_some());
    assert!(tasks.check_task("task-9999").is_none());
}
