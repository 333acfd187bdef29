//! Status of indexing tasks, with eviction of old and excess entries.

use crate::order;
use crate::order::Ranked;
use vstd::prelude::*;
use vstd::string::*;

verus! {

/// How long a finished task is kept, in nanoseconds: one hour.
pub const TASK_TTL: u64 = 3_600_000_000_000;

/// How many tasks are kept at most.
pub const MAX_TASKS: usize = 10_000;

/// The state of an indexing task. A percentage is held as the bits of its 64-bit float.
#[derive(Debug)]
pub enum TaskStatus {
    Pending { percentage: u64 },
    Complete { indexed_documents: u64, skipped: Vec<String> },
    Error { error: String },
}

impl TaskStatus {
    /// The task has ended, well or badly.
    pub open spec fn terminal(self) -> bool {
        !(self is Pending)
    }

    /// Whether the task has ended, well or badly.
    pub fn is_terminal(&self) -> (r: bool)
        ensures
            r == self.terminal(),
    {
        match self {
            TaskStatus::Pending { .. } => false,
            TaskStatus::Complete { .. } => true,
            TaskStatus::Error { .. } => true,
        }
    }
}

/// A task's id, its status, and the moment of its last record in nanoseconds.
pub type Task = (Seq<char>, TaskStatus, u64);

struct TaskEntry {
    id: String,
    status: TaskStatus,
    at: u64,
}

impl View for TaskEntry {
    type V = Task;

    open(self) spec fn view(&self) -> Task {
        (self.id@, self.status, self.at)
    }
}

/// Each task id occurs once.
pub open spec fn unique_ids(tasks: Seq<Task>) -> bool {
    forall|i: int, j: int|
        #![trigger tasks[i], tasks[j]]
        0 <= i < j < tasks.len() ==> tasks[i].0 != tasks[j].0
}

/// A task with the id is among the tasks.
pub open spec fn is_tracked(tasks: Seq<Task>, id: Seq<char>) -> bool {
    exists|i: int| 0 <= i < tasks.len() && (#[trigger] tasks[i]).0 == id
}

/// A task with the id is among the tasks, in the given state.
pub open spec fn has_status(tasks: Seq<Task>, id: Seq<char>, status: TaskStatus) -> bool {
    exists|i: int| 0 <= i < tasks.len() && (#[trigger] tasks[i]).0 == id && tasks[i].1 == status
}

/// A finished task that is older than the time to live.
pub open spec fn is_expired(task: Task, now: u64) -> bool {
    task.1.terminal() && now - task.2 > TASK_TTL
}

/// The tasks among the first `n` that have not expired.
pub open spec fn fresh(tasks: Seq<Task>, now: u64, n: int) -> Seq<Task>
    decreases n,
{
    if n <= 0 {
        Seq::empty()
    } else if is_expired(tasks[n - 1], now) {
        fresh(tasks, now, n - 1)
    } else {
        fresh(tasks, now, n - 1).push(tasks[n - 1])
    }
}

/// The tasks among the first `n` with another id.
pub open spec fn others(tasks: Seq<Task>, id: Seq<char>, n: int) -> Seq<Task>
    decreases n,
{
    if n <= 0 {
        Seq::empty()
    } else if tasks[n - 1].0 == id {
        others(tasks, id, n - 1)
    } else {
        others(tasks, id, n - 1).push(tasks[n - 1])
    }
}

/// `a` may be evicted before `b`: finished tasks go first, and older ones before newer.
pub open spec fn evicted_first(a: Task, b: Task) -> bool {
    if a.1.terminal() == b.1.terminal() {
        a.2 <= b.2
    } else {
        a.1.terminal()
    }
}

/// Eviction keeps fresh tasks only, as many as the cap allows, and drops none in favour of one that
/// should have gone first.
pub open spec fn evicts(before: Seq<Task>, now: u64, cap: int, after: Seq<Task>) -> bool {
    let all = fresh(before, now, before.len() as int);
    &&& unique_ids(after)
    &&& after.len() == if all.len() <= cap {
        all.len() as int
    } else {
        cap
    }
    &&& forall|i: int| 0 <= i < after.len() ==> all.contains(#[trigger] after[i])
    &&& forall|d: Task, i: int|
        #![trigger all.contains(d), after[i]]
        all.contains(d) && !after.contains(d) && 0 <= i < after.len() ==> evicted_first(d, after[i])
}

struct EvictionKey {
    terminal: bool,
    at: u64,
}

impl Ranked for EvictionKey {
    open(self) spec fn before(a: Self, b: Self) -> bool {
        if a.terminal == b.terminal {
            a.at <= b.at
        } else {
            a.terminal
        }
    }

    proof fn lemma_order(a: Self, b: Self, c: Self) {
    }

    fn is_before(&self, other: &Self) -> (r: bool) {
        if self.terminal == other.terminal {
            self.at <= other.at
        } else {
            self.terminal
        }
    }
}

spec fn views(entries: Seq<TaskEntry>) -> Seq<Task> {
    Seq::new(entries.len(), |i: int| entries[i]@)
}

proof fn lemma_fresh(tasks: Seq<Task>, now: u64, n: int)
    requires
        0 <= n <= tasks.len(),
        unique_ids(tasks),
    ensures
        unique_ids(fresh(tasks, now, n)),
        fresh(tasks, now, n).len() <= n,
        forall|k: int|
            0 <= k < fresh(tasks, now, n).len() ==> tasks.take(n).contains(
                #[trigger] fresh(tasks, now, n)[k],
            ),
        forall|i: int|
            0 <= i < n && !is_expired(#[trigger] tasks[i], now) ==> fresh(tasks, now, n).contains(
                tasks[i],
            ),
    decreases n,
{
    if n > 0 {
        lemma_fresh(tasks, now, n - 1);
        let f = fresh(tasks, now, n);
        let g = fresh(tasks, now, n - 1);
        assert forall|k: int| 0 <= k < f.len() implies tasks.take(n).contains(#[trigger] f[k]) by {
            if k < g.len() {
                assert(f[k] == g[k]);
                let prefix = tasks.take(n - 1);
 let i = choose|i: int| 0 <= i < prefix.len() && prefix[i] == g[k];
                assert(tasks.take(n)[i] == f[k]);
            } else {
                assert(tasks.take(n)[n - 1] == f[k]);
            }
        }
        assert forall|i: int| 0 <= i < n && !is_expired(#[trigger] tasks[i], now) implies f.contains(
            tasks[i],
        ) by {
            if i < n - 1 {
                let k = choose|k: int| 0 <= k < g.len() && g[k] == tasks[i];
                assert(f[k] == tasks[i]);
            } else {
                assert(f[f.len() - 1] == tasks[i]);
            }
        }
        assert forall|x: int, y: int|
            #![trigger f[x], f[y]]
            0 <= x < y < f.len() implies f[x].0 != f[y].0 by {
            assert(f[x] == g[x]);
            if y < g.len() {
                assert(f[y] == g[y]);
            } else {
                let prefix = tasks.take(n - 1);
 let i = choose|i: int| 0 <= i < prefix.len() && prefix[i] == g[x];
                assert(tasks[i].0 != tasks[n - 1].0);
            }
        }
    }
}

/// Keeps the entries that have not expired.
fn drop_expired(entries: Vec<TaskEntry>, now: u64) -> (r: Vec<TaskEntry>)
    ensures
        views(r@) == fresh(views(entries@), now, entries@.len() as int),
{
    let mut entries = entries;
    let ghost m = views(entries@);
    let ghost mut j: int = 0;
    let mut i: usize = 0;
    assert(fresh(m, now, 0) + m.skip(0) =~= views(entries@));
    while i < entries.len()
        invariant
            0 <= j <= m.len(),
            i <= entries.len(),
            i == fresh(m, now, j).len(),
            views(entries@) == fresh(m, now, j) + m.skip(j),
        decreases entries.len() - i,
    {
        let ghost f = fresh(m, now, j);
        let ghost s = entries@;
        assert(views(s)[i as int] == (f + m.skip(j))[i as int]);
        assert(views(s).len() == s.len());
        assert(s.len() == f.len() + m.skip(j).len());
        assert(s[i as int]@ == m[j]);
        let expired = entries[i].status.is_terminal() && entries[i].at <= now && now - entries[i].at
            > TASK_TTL;
        assert(expired == is_expired(m[j], now));
        if expired {
            entries.remove(i);
            assert(views(entries@) =~= fresh(m, now, j + 1) + m.skip(j + 1)) by {
                assert forall|x: int| 0 <= x < entries@.len() implies #[trigger] views(entries@)[x]
                    == (f + m.skip(j + 1))[x] by {
                    if x < i {
                        assert(views(s)[x] == (f + m.skip(j))[x]);
                    } else {
                        assert(views(s)[x + 1] == (f + m.skip(j))[x + 1]);
                    }
                }
            }
        } else {
            i = i + 1;
            assert(views(entries@) =~= fresh(m, now, j + 1) + m.skip(j + 1)) by {
                assert forall|x: int| 0 <= x < s.len() implies #[trigger] views(s)[x] == (f.push(
                    m[j],
                ) + m.skip(j + 1))[x] by {
                    assert(views(s)[x] == (f + m.skip(j))[x]);
                    if x > f.len() {
                        assert(m.skip(j)[x - f.len()] == m.skip(j + 1)[x - f.len() - 1]);
                    }
                }
            }
        }
        proof {
            j = j + 1;
        }
    }
    proof {
        assert(m.skip(j).len() == 0) by {
            assert(views(entries@).len() == fresh(m, now, j).len() + m.skip(j).len());
        }
        assert(views(entries@) =~= fresh(m, now, j));
    }
    entries
}

proof fn lemma_sorted_positions_are_distinct<T: Ranked>(keys: Seq<T>, p: Seq<usize>, i: int, j: int)
    requires
        order::sorts(keys, p),
        0 <= i < j < p.len(),
    ensures
        p[i] != p[j],
{
    let k = keys[p[i] as int];
    T::lemma_order(k, k, k);
    assert(order::precedes(keys, p[i] as int, p[j] as int));
}

/// Keeps the entries that eviction takes last, `cap` of them.
fn drop_excess(entries: Vec<TaskEntry>, cap: usize) -> (r: Vec<TaskEntry>)
    requires
        entries.len() > cap,
        unique_ids(views(entries@)),
    ensures
        r.len() == cap,
        unique_ids(views(r@)),
        forall|i: int| 0 <= i < r.len() ==> views(entries@).contains(#[trigger] views(r@)[i]),
        forall|d: Task, i: int|
            #![trigger views(entries@).contains(d), views(r@)[i]]
            views(entries@).contains(d) && !views(r@).contains(d) && 0 <= i < r.len()
                ==> evicted_first(d, views(r@)[i]),
{
    let ghost m = views(entries@);
    let mut keys: Vec<EvictionKey> = Vec::new();
    let mut i: usize = 0;
    while i < entries.len()
        invariant
            i <= entries.len(),
            keys.len() == i,
            m == views(entries@),
            forall|k: int|
                0 <= k < i ==> (#[trigger] keys@[k]).terminal == m[k].1.terminal() && keys@[k].at
                    == m[k].2,
        decreases entries.len() - i,
    {
        keys.push(EvictionKey { terminal: entries[i].status.is_terminal(), at: entries[i].at });
        i = i + 1;
    }
    let p = order::sorted_positions(&keys);
    let excess = entries.len() - cap;
    let mut slots: Vec<Option<TaskEntry>> = Vec::new();
    let mut entries = entries;
    let ghost whole = entries@;
    while entries.len() > 0
        invariant
            entries@ == whole.take(entries@.len() as int),
            entries@.len() + slots@.len() == whole.len(),
            forall|k: int|
                0 <= k < slots@.len() ==> #[trigger] slots@[k] == Some(whole[whole.len() - 1 - k]),
        decreases entries.len(),
    {
        let e = entries.pop();
        slots.push(e);
    }
    let count = slots.len();
    let mut out: Vec<TaskEntry> = Vec::new();
    let mut k: usize = excess;
    while k < count
        invariant
            excess <= k <= count,
            excess == whole.len() - cap,
            cap < whole.len(),
            count == whole.len(),
            slots@.len() == count,
            keys@.len() == count,
            p@.len() == count,
            order::sorts(keys@, p@),
            out@.len() == k - excess,
            forall|x: int| 0 <= x < out@.len() ==> #[trigger] out@[x] == whole[p@[excess + x] as int],
            forall|y: int|
                k <= y < count ==> slots@[whole.len() - 1 - (#[trigger] p@[y])] == Some(
                    whole[p@[y] as int],
                ),
        decreases count - k,
    {
        let at: usize = count - 1 - p[k];
        let mut taken: Option<TaskEntry> = None;
        assert(slots@[whole.len() - 1 - p@[k as int]] == Some(whole[p@[k as int] as int]));
        let ghost slots_before = slots@;
        slots.set_and_swap(at, &mut taken);
        match taken {
            Some(e) => {
                out.push(e);
            },
            None => {
                assert(false);
            },
        }
        proof {
            assert forall|y: int| k + 1 <= y < count implies slots@[whole.len() - 1 - (
            #[trigger] p@[y])] == Some(whole[p@[y] as int]) by {
                lemma_sorted_positions_are_distinct(keys@, p@, k as int, y);
                assert(slots_before[whole.len() - 1 - p@[y]] == Some(whole[p@[y] as int]));
            }
        }
        k = k + 1;
    }
    proof {
        let r = views(out@);
        assert forall|x: int| 0 <= x < r.len() implies m.contains(#[trigger] r[x]) by {
            assert(out@[x] == whole[p@[excess + x] as int]);
            assert(m[p@[excess + x] as int] == r[x]);
        }
        assert forall|x: int, y: int|
            #![trigger r[x], r[y]]
            0 <= x < y < r.len() implies r[x].0 != r[y].0 by {
            lemma_sorted_positions_are_distinct(keys@, p@, excess + x, excess + y);
            assert(out@[x] == whole[p@[excess + x] as int]);
            assert(out@[y] == whole[p@[excess + y] as int]);
            assert(m[p@[excess + x] as int] == r[x]);
            assert(m[p@[excess + y] as int] == r[y]);
        }
        assert forall|d: Task, x: int|
            #![trigger m.contains(d), r[x]]
            m.contains(d) && !r.contains(d) && 0 <= x < r.len() implies evicted_first(d, r[x]) by {
            let i = choose|i: int| 0 <= i < m.len() && m[i] == d;
            assert(p@.contains(i as usize));
            let y = choose|y: int| 0 <= y < p@.len() && p@[y] == i as usize;
            if y >= excess {
                assert(out@[y - excess] == whole[p@[y] as int]);
                assert(r[y - excess] == d);
            }
            assert(out@[x] == whole[p@[excess + x] as int]);
            assert(order::precedes(keys@, p@[y] as int, p@[excess + x] as int));
        }
    }
    out
}

/// The tracked tasks, by id.
pub struct Tasks {
    entries: Vec<TaskEntry>,
}

impl Tasks {
    #[verifier::type_invariant]
    spec fn well_formed(self) -> bool {
        unique_ids(views(self.entries@))
    }

    /// The tracked tasks, in the order of their last record.
    pub closed spec fn tasks(self) -> Seq<Task> {
        views(self.entries@)
    }

    /// No tasks.
    pub fn new() -> (t: Self)
        ensures
            t.tasks() == Seq::<Task>::empty(),
    {
        let t = Tasks { entries: Vec::new() };
        assert(t.tasks() =~= Seq::<Task>::empty());
        t
    }

    /// Each task id is tracked once.
    pub fn task_count(&self) -> (n: usize)
        ensures
            n == self.tasks().len(),
            unique_ids(self.tasks()),
    {
        proof {
            use_type_invariant(self);
        }
        self.entries.len()
    }

    fn position(&self, id: &str) -> (r: Option<usize>)
        ensures
            match r {
                Some(i) => i < self.tasks().len() && self.tasks()[i as int].0 == id@,
                None => forall|i: int|
                    0 <= i < self.tasks().len() ==> (#[trigger] self.tasks()[i]).0 != id@,
            },
    {
        let wanted = id.to_owned();
        let mut i: usize = 0;
        while i < self.entries.len()
            invariant
                i <= self.entries.len(),
                wanted@ == id@,
                forall|k: int| 0 <= k < i ==> (#[trigger] self.tasks()[k]).0 != id@,
            decreases self.entries.len() - i,
        {
            assert(self.tasks()[i as int] == self.entries@[i as int]@);
            if self.entries[i].id == wanted {
                return Some(i);
            }
            i = i + 1;
        }
        None
    }

    /// The status of a task, if it is tracked.
    pub fn check_task(&self, task_id: &str) -> (r: Option<&TaskStatus>)
        ensures
            match r {
                Some(s) => has_status(self.tasks(), task_id@, *s),
                None => !is_tracked(self.tasks(), task_id@),
            },
    {
        match self.position(task_id) {
            Some(i) => {
                assert(self.tasks()[i as int] == self.entries@[i as int]@);
                Some(&self.entries[i].status)
            },
            None => None,
        }
    }

    /// Tracks a task's status as of a moment, in place of an earlier one.
    pub fn insert(&mut self, task_id: &str, status: TaskStatus, at: u64)
        ensures
            final(self).tasks() == others(
                old(self).tasks(),
                task_id@,
                old(self).tasks().len() as int,
            ).push((task_id@, status, at)),
    {
        proof {
            use_type_invariant(&*self);
        }
        let ghost m = self.tasks();
        let found = self.position(task_id);
        let mut entries: Vec<TaskEntry> = Vec::new();
        std::mem::swap(&mut entries, &mut self.entries);
        let ghost s = entries@;
        match found {
            Some(i) => {
                entries.remove(i);
                proof {
                    lemma_others_one(m, task_id@, i as int, m.len() as int);
                    assert(views(entries@) =~= m.remove(i as int)) by {
                        assert forall|x: int| 0 <= x < entries@.len() implies #[trigger] views(
                            entries@,
                        )[x] == m.remove(i as int)[x] by {
                            assert(m[x] == s[x]@);
                            assert(m[x + 1] == s[x + 1]@);
                        }
                    }
                }
            },
            None => {
                proof {
                    lemma_others_none(m, task_id@, m.len() as int);
                    assert(m.take(m.len() as int) =~= m);
                }
            },
        }
        let ghost rest = entries@;
        assert(views(rest) == others(m, task_id@, m.len() as int));
        entries.push(TaskEntry { id: task_id.to_owned(), status, at });
        proof {
            lemma_others_unique(m, task_id@, m.len() as int);
            assert(views(entries@) =~= views(rest).push((task_id@, status, at)));
        }
        self.entries = entries;
    }

    /// Drops finished tasks that are older than the time to live, then excess tasks: finished ones
    /// first, and older ones before newer.
    pub fn evict_stale_tasks(&mut self, now: u64)
        ensures
            evicts(old(self).tasks(), now, MAX_TASKS as int, final(self).tasks()),
    {
        proof {
            use_type_invariant(&*self);
        }
        let ghost m = self.tasks();
        let mut entries: Vec<TaskEntry> = Vec::new();
        std::mem::swap(&mut entries, &mut self.entries);
        let kept = drop_expired(entries, now);
        let ghost all = fresh(m, now, m.len() as int);
        proof {
            lemma_fresh(m, now, m.len() as int);
        }
        let entries = if kept.len() > MAX_TASKS {
            drop_excess(kept, MAX_TASKS)
        } else {
            kept
        };
        proof {
            if all.len() <= MAX_TASKS {
                assert forall|i: int| 0 <= i < all.len() implies all.contains(#[trigger] all[i]) by {}
            }
        }
        self.entries = entries;
    }

    /// Records a task's status, then evicts.
    pub fn record_task(&mut self, task_id: &str, status: TaskStatus, now: u64)
        ensures
            evicts(
                others(old(self).tasks(), task_id@, old(self).tasks().len() as int).push(
                    (task_id@, status, now),
                ),
                now,
                MAX_TASKS as int,
                final(self).tasks(),
            ),
    {
        self.insert(task_id, status, now);
        self.evict_stale_tasks(now);
    }
}

proof fn lemma_others_none(tasks: Seq<Task>, id: Seq<char>, n: int)
    requires
        0 <= n <= tasks.len(),
        forall|i: int| 0 <= i < n ==> (#[trigger] tasks[i]).0 != id,
    ensures
        others(tasks, id, n) == tasks.take(n),
    decreases n,
{
    if n > 0 {
        lemma_others_none(tasks, id, n - 1);
        assert(tasks.take(n) =~= tasks.take(n - 1).push(tasks[n - 1]));
    } else {
        assert(tasks.take(0) =~= Seq::<Task>::empty());
    }
}

proof fn lemma_others_one(tasks: Seq<Task>, id: Seq<char>, at: int, n: int)
    requires
        unique_ids(tasks),
        0 <= at < n <= tasks.len(),
        tasks[at].0 == id,
    ensures
        others(tasks, id, n) == tasks.take(n).remove(at),
    decreases n,
{
    if n - 1 == at {
        assert forall|i: int| 0 <= i < at implies (#[trigger] tasks[i]).0 != id by {
            assert(tasks[i].0 != tasks[at].0);
        }
        lemma_others_none(tasks, id, at);
        assert(tasks.take(n).remove(at) =~= tasks.take(at));
    } else {
        lemma_others_one(tasks, id, at, n - 1);
        assert(tasks[at].0 != tasks[n - 1].0);
        assert(tasks.take(n).remove(at) =~= tasks.take(n - 1).remove(at).push(tasks[n - 1]));
    }
}

proof fn lemma_others_unique(tasks: Seq<Task>, id: Seq<char>, n: int)
    requires
        unique_ids(tasks),
        0 <= n <= tasks.len(),
    ensures
        unique_ids(others(tasks, id, n)),
        forall|k: int| 0 <= k < others(tasks, id, n).len() ==> (#[trigger] others(tasks, id, n)[k]).0 != id,
        forall|k: int|
            0 <= k < others(tasks, id, n).len() ==> tasks.take(n).contains(
                #[trigger] others(tasks, id, n)[k],
            ),
    decreases n,
{
    if n > 0 {
        lemma_others_unique(tasks, id, n - 1);
        let f = others(tasks, id, n);
        let g = others(tasks, id, n - 1);
        assert forall|k: int| 0 <= k < f.len() implies tasks.take(n).contains(#[trigger] f[k])
            && f[k].0 != id by {
            if k < g.len() {
                assert(f[k] == g[k]);
                let prefix = tasks.take(n - 1);
 let i = choose|i: int| 0 <= i < prefix.len() && prefix[i] == g[k];
                assert(tasks.take(n)[i] == f[k]);
            } else {
                assert(tasks.take(n)[n - 1] == f[k]);
            }
        }
        assert forall|x: int, y: int|
            #![trigger f[x], f[y]]
            0 <= x < y < f.len() implies f[x].0 != f[y].0 by {
            assert(f[x] == g[x]);
            if y < g.len() {
                assert(f[y] == g[y]);
            } else {
                let prefix = tasks.take(n - 1);
 let i = choose|i: int| 0 <= i < prefix.len() && prefix[i] == g[x];
                assert(tasks[i].0 != tasks[n - 1].0);
            }
        }
    }
}

/// A pending task outlives eviction, whatever its age, while the cap is not exceeded.
pub proof fn pending_tasks_do_not_expire(
    before: Seq<Task>,
    now: u64,
    after: Seq<Task>,
    i: int,
)
    requires
        unique_ids(before),
        evicts(before, now, MAX_TASKS as int, after),
        before.len() <= MAX_TASKS,
        0 <= i < before.len(),
        !before[i].1.terminal(),
    ensures
        after.contains(before[i]),
{
    let n = before.len() as int;
    lemma_fresh(before, now, n);
    let all = fresh(before, now, n);
    lemma_contained_equal(all, after);
}

proof fn lemma_contained_equal(all: Seq<Task>, after: Seq<Task>)
    requires
        unique_ids(all),
        unique_ids(after),
        after.len() == all.len(),
        forall|i: int| 0 <= i < after.len() ==> all.contains(#[trigger] after[i]),
    ensures
        forall|d: Task| #[trigger] all.contains(d) ==> after.contains(d),
{
    assert forall|d: Task| #[trigger] all.contains(d) implies after.contains(d) by {
        if !after.contains(d) {
            let s = after.to_set();
            let t = all.to_set();
            assert(after.no_duplicates()) by {
                assert forall|x: int, y: int|
                    0 <= x < after.len() && 0 <= y < after.len() && x != y implies after[x]
                    != after[y] by {
                    if x < y {
                        assert(after[x].0 != after[y].0);
                    } else {
                        assert(after[y].0 != after[x].0);
                    }
                }
            }
            assert(all.no_duplicates()) by {
                assert forall|x: int, y: int|
                    0 <= x < all.len() && 0 <= y < all.len() && x != y implies all[x] != all[y] by {
                    if x < y {
                        assert(all[x].0 != all[y].0);
                    } else {
                        assert(all[y].0 != all[x].0);
                    }
                }
            }
            after.unique_seq_to_set();
            all.unique_seq_to_set();
            vstd::seq_lib::seq_to_set_is_finite(all);
            assert(s.subset_of(t.remove(d))) by {
                assert forall|e: Task| s.contains(e) implies t.remove(d).contains(e) by {
                    let x = choose|x: int| 0 <= x < after.len() && after[x] == e;
                    assert(all.contains(after[x]));
                }
            }
            vstd::set_lib::lemma_len_subset(s, t.remove(d));
        }
    }
}

/// A recorded status is found again, while the cap is not exceeded.
pub proof fn recorded_tasks_are_found(
    before: Seq<Task>,
    id: Seq<char>,
    status: TaskStatus,
    now: u64,
    after: Seq<Task>,
)
    requires
        unique_ids(before),
        before.len() < MAX_TASKS,
        evicts(
            others(before, id, before.len() as int).push((id, status, now)),
            now,
            MAX_TASKS as int,
            after,
        ),
    ensures
        has_status(after, id, status),
{
    let n = before.len() as int;
    lemma_others_unique(before, id, n);
    lemma_others_len(before, id, n);
    let rest = others(before, id, n);
    let with = rest.push((id, status, now));
    assert(unique_ids(with));
    let m = with.len() as int;
    lemma_fresh(with, now, m);
    let all = fresh(with, now, m);
    assert(with[m - 1] == (id, status, now));
    assert(!is_expired(with[m - 1], now));
    assert(all.contains((id, status, now)));
    lemma_contained_equal(all, after);
    assert(after.contains((id, status, now)));
    let i = choose|i: int| 0 <= i < after.len() && after[i] == (id, status, now);
    assert(after[i].0 == id);
}

proof fn lemma_others_len(tasks: Seq<Task>, id: Seq<char>, n: int)
    requires
        0 <= n,
    ensures
        others(tasks, id, n).len() <= n,
    decreases n,
{
    if n > 0 {
        lemma_others_len(tasks, id, n - 1);
    }
}

/// After eviction no finished task is older than the time to live.
pub proof fn no_expired_task_stays(before: Seq<Task>, now: u64, cap: int, after: Seq<Task>, i: int)
    requires
        unique_ids(before),
        evicts(before, now, cap, after),
        0 <= i < after.len(),
    ensures
        !is_expired(after[i], now),
{
    let n = before.len() as int;
    lemma_fresh(before, now, n);
    let all = fresh(before, now, n);
    assert(all.contains(after[i]));
    lemma_fresh_are_fresh(before, now, n);
}

proof fn lemma_fresh_are_fresh(tasks: Seq<Task>, now: u64, n: int)
    requires
        0 <= n <= tasks.len(),
    ensures
        forall|k: int|
            0 <= k < fresh(tasks, now, n).len() ==> !is_expired(
                #[trigger] fresh(tasks, now, n)[k],
                now,
            ),
    decreases n,
{
    if n > 0 {
        lemma_fresh_are_fresh(tasks, now, n - 1);
        let f = fresh(tasks, now, n);
        let g = fresh(tasks, now, n - 1);
        assert forall|k: int| 0 <= k < f.len() implies !is_expired(#[trigger] f[k], now) by {
            if k < g.len() {
                assert(f[k] == g[k]);
            }
        }
    }
}

/// A pending task is dropped only when no finished one is left.
pub proof fn finished_tasks_go_first(
    before: Seq<Task>,
    now: u64,
    cap: int,
    after: Seq<Task>,
    d: int,
    k: int,
)
    requires
        unique_ids(before),
        evicts(before, now, cap, after),
        0 <= d < before.len(),
        !before[d].1.terminal(),
        !after.contains(before[d]),
        0 <= k < after.len(),
    ensures
        !after[k].1.terminal(),
        before[d].2 <= after[k].2,
{
    let n = before.len() as int;
    lemma_fresh(before, now, n);
    assert(fresh(before, now, n).contains(before[d]));
    assert(evicted_first(before[d], after[k]));
}

/// Eviction goes by age and by number. A finished task recorded more than an hour before is gone. Any
/// other is gone only where ten thousand stay, none of which should have gone before it: not a
/// finished one in place of a pending one, nor an older one of the same kind. Nothing is made up.
pub proof fn eviction_goes_by_age_and_number(before: Seq<Task>, now: u64, after: Seq<Task>)
    requires
        unique_ids(before),
        evicts(before, now, MAX_TASKS as int, after),
    ensures
        after.len() <= 10_000,
        after.len() <= before.len(),
        forall|i: int| 0 <= i < after.len() ==> before.contains(#[trigger] after[i]),
        forall|d: int|
            0 <= d < before.len() && !((#[trigger] before[d]).1 is Pending) && now - before[d].2
                > 3_600_000_000_000 ==> !after.contains(before[d]),
        forall|d: int, k: int|
            #![trigger before[d], after[k]]
            0 <= d < before.len() && (before[d].1 is Pending || now - before[d].2
                <= 3_600_000_000_000) && !after.contains(before[d]) && 0 <= k < after.len()
                ==> after.len() == 10_000 && (if before[d].1 is Pending {
                after[k].1 is Pending && before[d].2 <= after[k].2
            } else {
                after[k].1 is Pending || before[d].2 <= after[k].2
            }),
        forall|d: int|
            0 <= d < before.len() && ((#[trigger] before[d]).1 is Pending || now - before[d].2
                <= 3_600_000_000_000) && before.len() <= 10_000 ==> after.contains(before[d]),
{
    let n = before.len() as int;
    let all = fresh(before, now, n);
    lemma_fresh(before, now, n);
    lemma_fresh_are_fresh(before, now, n);
    assert(before.take(n) =~= before);
    assert forall|i: int| 0 <= i < after.len() implies before.contains(#[trigger] after[i]) by {
        assert(all.contains(after[i]));
        let k = choose|k: int| 0 <= k < all.len() && all[k] == after[i];
        assert(before.take(n).contains(all[k]));
    }
    assert forall|d: int|
        0 <= d < before.len() && !((#[trigger] before[d]).1 is Pending) && now - before[d].2
            > 3_600_000_000_000 implies !after.contains(before[d]) by {
        if after.contains(before[d]) {
            let i = choose|i: int| 0 <= i < after.len() && after[i] == before[d];
            assert(all.contains(after[i]));
            let k = choose|k: int| 0 <= k < all.len() && all[k] == after[i];
            assert(!is_expired(all[k], now));
        }
    }
    assert forall|d: int, k: int|
        #![trigger before[d], after[k]]
        0 <= d < before.len() && (before[d].1 is Pending || now - before[d].2
            <= 3_600_000_000_000) && !after.contains(before[d]) && 0 <= k
            < after.len() implies after.len() == 10_000 && (if before[d].1 is Pending {
        after[k].1 is Pending && before[d].2 <= after[k].2
    } else {
        after[k].1 is Pending || before[d].2 <= after[k].2
    }) by {
        assert(!is_expired(before[d], now));
        assert(all.contains(before[d]));
        if all.len() <= MAX_TASKS {
            lemma_contained_equal(all, after);
        }
        assert(evicted_first(before[d], after[k]));
    }
    assert forall|d: int|
        0 <= d < before.len() && ((#[trigger] before[d]).1 is Pending || now - before[d].2
            <= 3_600_000_000_000) && before.len() <= 10_000 implies after.contains(before[d]) by {
        assert(!is_expired(before[d], now));
        assert(all.contains(before[d]));
        lemma_contained_equal(all, after);
    }
}

/// Recording a status replaces the task's earlier one and no other's: the task is listed once, with
/// the new status and moment, and every other task as it was.
pub proof fn recording_replaces_only_its_own(
    before: Seq<Task>,
    id: Seq<char>,
    status: TaskStatus,
    at: u64,
    after: Seq<Task>,
)
    requires
        unique_ids(before),
        after == others(before, id, before.len() as int).push((id, status, at)),
    ensures
        unique_ids(after),
        after.last() == (id, status, at),
        forall|i: int|
            0 <= i < after.len() - 1 ==> (#[trigger] after[i]).0 != id && before.contains(after[i]),
        forall|i: int|
            0 <= i < before.len() && (#[trigger] before[i]).0 != id ==> after.contains(before[i]),
{
    let n = before.len() as int;
    let rest = others(before, id, n);
    lemma_others_unique(before, id, n);
    assert(before.take(n) =~= before);
    assert forall|i: int| 0 <= i < after.len() - 1 implies (#[trigger] after[i]).0 != id
        && before.contains(after[i]) by {
        assert(after[i] == rest[i]);
    }
    assert forall|i: int| 0 <= i < before.len() && (#[trigger] before[i]).0 != id implies after.contains(
        before[i],
    ) by {
        lemma_others_keep(before, id, n, i);
        let k = choose|k: int| 0 <= k < rest.len() && rest[k] == before[i];
        assert(after[k] == before[i]);
    }
}

proof fn lemma_others_keep(tasks: Seq<Task>, id: Seq<char>, n: int, i: int)
    requires
        0 <= i < n <= tasks.len(),
        tasks[i].0 != id,
    ensures
        others(tasks, id, n).contains(tasks[i]),
    decreases n,
{
    let f = others(tasks, id, n);
    if i == n - 1 {
        assert(f[f.len() - 1] == tasks[i]);
    } else {
        lemma_others_keep(tasks, id, n - 1, i);
        let g = others(tasks, id, n - 1);
        let k = choose|k: int| 0 <= k < g.len() && g[k] == tasks[i];
        assert(f[k] == tasks[i]);
    }
}

/// A task has one status: whatever is told of it is what was recorded last.
pub proof fn a_task_has_one_status(tasks: Seq<Task>, id: Seq<char>, a: TaskStatus, b: TaskStatus)
    requires
        unique_ids(tasks),
        has_status(tasks, id, a),
        has_status(tasks, id, b),
    ensures
        a == b,
        is_tracked(tasks, id),
        exists|i: int| 0 <= i < tasks.len() && (#[trigger] tasks[i]).0 == id && tasks[i].1 == a,
{
    let i = choose|i: int| 0 <= i < tasks.len() && (#[trigger] tasks[i]).0 == id && tasks[i].1 == a;
    let j = choose|j: int| 0 <= j < tasks.len() && (#[trigger] tasks[j]).0 == id && tasks[j].1 == b;
    if i < j {
        assert(tasks[i].0 != tasks[j].0);
    }
    if j < i {
        assert(tasks[j].0 != tasks[i].0);
    }
}

} // verus!
