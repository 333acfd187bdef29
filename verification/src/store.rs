//! The store's in-memory state: reservations of commits, the last indexed commit of each branch,
//! counts of index deltas, tasks, the cleanup mode and the index configuration.

use crate::cleanup::CleanupMode;
use crate::config;
use crate::config::VectorIndexConfig;
use crate::schema::StoreError;
use crate::table;
use crate::table::{Key, Table, Triple, TripleSet};
use crate::tags;
use crate::tasks;
use crate::tasks::{Task, TaskStatus, Tasks};
use vstd::prelude::*;
use vstd::string::*;

verus! {

/// The last indexed commit of a branch, with its version.
#[derive(Debug)]
pub struct BranchIndex {
    pub commit: Option<String>,
    pub version: u64,
}

/// A branch of a domain, as what is held per branch is found by it.
#[derive(Debug)]
pub struct BranchKey {
    pub domain: String,
    pub branch: String,
}

/// What is told of a branch's last indexed commit. Without one the version is zero.
#[derive(Debug)]
pub struct LastIndexed {
    pub branch: String,
    pub commit: Option<String>,
    pub version: u64,
}

impl View for BranchIndex {
    type V = (Option<Seq<char>>, u64);

    open spec fn view(&self) -> (Option<Seq<char>>, u64) {
        (tags::opt(self.commit), self.version)
    }
}

/// The in-memory state of a store.
pub struct LanceStore {
    dim: usize,
    vector_index_config: VectorIndexConfig,
    branch_indexes: Table<BranchIndex>,
    inflight_commits: TripleSet,
    index_delta_counts: Table<u64>,
    tasks: Tasks,
    cleanup_mode: CleanupMode,
}

/// The state as mathematical values.
#[verifier::ext_equal]
pub struct StoreModel {
    /// The dimension of the stored vectors.
    pub dim: usize,
    /// How the vector index is built and searched.
    pub config: VectorIndexConfig,
    /// The cached last indexed commits, by domain and branch.
    pub indexes: Map<Key, (Option<Seq<char>>, u64)>,
    /// The commits whose indexing is under way, by domain, branch and commit.
    pub reserved: Set<Triple>,
    /// The number of index deltas since the last compaction, by domain and branch.
    pub deltas: Map<Key, u64>,
    pub tasks: Seq<Task>,
    pub mode: CleanupMode,
}

/// The views of a table's values.
pub open spec fn index_views(m: Map<Key, BranchIndex>) -> Map<Key, (Option<Seq<char>>, u64)> {
    m.map_values(|b: BranchIndex| b@)
}

/// What a reservation is answered: rejected while the commit is under way or once it is indexed,
/// and an error where that could not be found out.
pub open spec fn reserve_answer(
    reserved: Set<Triple>,
    commit: Triple,
    resolved: Result<Option<u64>, StoreError>,
) -> Result<bool, StoreError> {
    if reserved.contains(commit) {
        Ok(false)
    } else {
        match resolved {
            Ok(Some(_)) => Ok(false),
            Ok(None) => Ok(true),
            Err(e) => Err(e),
        }
    }
}

/// The reservations after a request: the commit is reserved if the answer is yes.
pub open spec fn reserve(
    reserved: Set<Triple>,
    commit: Triple,
    resolved: Result<Option<u64>, StoreError>,
) -> Set<Triple> {
    if reserve_answer(reserved, commit, resolved) == Ok::<bool, StoreError>(true) {
        reserved.insert(commit)
    } else {
        reserved
    }
}

/// The number of deltas of a branch; zero where none was counted.
pub open spec fn delta_count(deltas: Map<Key, u64>, k: Key) -> u64 {
    if deltas.contains_key(k) {
        deltas[k]
    } else {
        0
    }
}

/// A key falls under a branch of a domain, or under any of its branches if none is given.
pub open spec fn falls_under(k: Key, domain: Seq<char>, branch: Option<Seq<char>>) -> bool {
    k.0 == domain && (branch is Some ==> k.1 == branch->0)
}

/// The views of branch keys.
pub open spec fn key_views(keys: Seq<BranchKey>) -> Seq<Key> {
    keys.map_values(|k: BranchKey| (k.domain@, k.branch@))
}

/// The keys that fall under a branch of a domain, in order.
pub open spec fn keys_under(keys: Seq<Key>, domain: Seq<char>, branch: Option<Seq<char>>) -> Seq<
    Key,
> {
    keys.filter(|k: Key| falls_under(k, domain, branch))
}

/// The state without anything of a domain.
pub open spec fn purged_domain(m: StoreModel, domain: Seq<char>) -> StoreModel {
    StoreModel {
        indexes: table::without_first(m.indexes, domain),
        reserved: table::without_prefix(m.reserved, domain, None, None),
        deltas: table::without_first(m.deltas, domain),
        ..m
    }
}

/// The state without anything of a branch.
pub open spec fn purged_branch(m: StoreModel, domain: Seq<char>, branch: Seq<char>) -> StoreModel {
    StoreModel {
        indexes: m.indexes.remove((domain, branch)),
        reserved: table::without_prefix(m.reserved, domain, Some(branch), None),
        deltas: m.deltas.remove((domain, branch)),
        ..m
    }
}

fn copy_commit(c: &Option<String>) -> (r: Option<String>)
    ensures
        tags::opt(r) == tags::opt(*c),
{
    match c {
        Some(s) => Some(s.clone()),
        None => None,
    }
}

impl View for LanceStore {
    type V = StoreModel;

    closed spec fn view(&self) -> StoreModel {
        StoreModel {
            dim: self.dim,
            config: self.vector_index_config,
            indexes: index_views(self.branch_indexes.map()),
            reserved: self.inflight_commits.set(),
            deltas: self.index_delta_counts.map(),
            tasks: self.tasks.tasks(),
            mode: self.cleanup_mode,
        }
    }
}

impl LanceStore {
    /// A store with nothing in memory.
    pub fn new(dim: usize) -> (s: Self)
        requires
            dim > 0,
        ensures
            s@ == (StoreModel {
                dim,
                config: config::default_config(),
                indexes: Map::empty(),
                reserved: Set::empty(),
                deltas: Map::empty(),
                tasks: Seq::empty(),
                mode: CleanupMode::CurrentCode,
            }),
    {
        let s = LanceStore {
            dim,
            vector_index_config: VectorIndexConfig::default_for_dim(dim),
            branch_indexes: Table::new(),
            inflight_commits: TripleSet::new(),
            index_delta_counts: Table::new(),
            tasks: Tasks::new(),
            cleanup_mode: CleanupMode::CurrentCode,
        };
        assert(s@.indexes =~= Map::<Key, (Option<Seq<char>>, u64)>::empty());
        s
    }

    /// The dimension of the stored vectors.
    pub fn dim(&self) -> (dim: usize)
        ensures
            dim == self@.dim,
    {
        self.dim
    }

    /// How the vector index is built and searched.
    pub fn vector_index_config(&self) -> (config: &VectorIndexConfig)
        ensures
            *config == self@.config,
    {
        &self.vector_index_config
    }

    /// Sets how the vector index is built and searched.
    pub fn set_vector_index_config(&mut self, config: VectorIndexConfig)
        ensures
            final(self)@ == (StoreModel { config, ..old(self)@ }),
    {
        self.vector_index_config = config;
    }

    /// Sets the cleanup mode.
    pub fn set_cleanup_mode(&mut self, mode: CleanupMode)
        ensures
            final(self)@ == (StoreModel { mode, ..old(self)@ }),
    {
        self.cleanup_mode = mode;
    }

    /// The cleanup mode.
    pub fn cleanup_mode(&self) -> (mode: CleanupMode)
        ensures
            mode == self@.mode,
    {
        self.cleanup_mode
    }

    /// The number of index deltas of a branch since the last compaction.
    pub fn io_get_delta_count(&self, domain: &str, branch: &str) -> (n: u64)
        ensures
            n == delta_count(self@.deltas, (domain@, branch@)),
    {
        match self.index_delta_counts.get(domain, branch) {
            Some(n) => *n,
            None => 0,
        }
    }

    /// Counts one more index delta.
    pub fn io_increment_delta_count(&mut self, domain: &str, branch: &str)
        requires
            delta_count(old(self)@.deltas, (domain@, branch@)) < u64::MAX,
        ensures
            final(self)@ == (StoreModel {
                deltas: old(self)@.deltas.insert(
                    (domain@, branch@),
                    (delta_count(old(self)@.deltas, (domain@, branch@)) + 1) as u64,
                ),
                ..old(self)@
            }),
            delta_count(final(self)@.deltas, (domain@, branch@)) == delta_count(
                old(self)@.deltas,
                (domain@, branch@),
            ) + 1,
            forall|k: Key|
                k != (domain@, branch@) ==> #[trigger] delta_count(final(self)@.deltas, k)
                    == delta_count(old(self)@.deltas, k),
    {
        let n = self.io_get_delta_count(domain, branch);
        self.index_delta_counts.insert(domain, branch, n + 1);
    }

    /// Starts the count of index deltas over.
    pub fn io_reset_delta_count(&mut self, domain: &str, branch: &str)
        ensures
            final(self)@ == (StoreModel {
                deltas: old(self)@.deltas.insert((domain@, branch@), 0),
                ..old(self)@
            }),
            delta_count(final(self)@.deltas, (domain@, branch@)) == 0,
            forall|k: Key|
                k != (domain@, branch@) ==> #[trigger] delta_count(final(self)@.deltas, k)
                    == delta_count(old(self)@.deltas, k),
    {
        self.index_delta_counts.insert(domain, branch, 0);
    }

    /// Whether a commit's indexing is under way.
    pub fn is_reserved(&self, domain: &str, branch: &str, commit: &str) -> (r: bool)
        ensures
            r == self@.reserved.contains((domain@, branch@, commit@)),
    {
        self.inflight_commits.contains(domain, branch, commit)
    }

    /// Reserves a commit for indexing, unless it is under way or indexed. `resolved` is the version
    /// that the commit is indexed at, if any; a failure to find out is passed on.
    pub fn io_try_reserve_commit(
        &mut self,
        domain: &str,
        branch: &str,
        commit: &str,
        resolved: Result<Option<u64>, StoreError>,
    ) -> (r: Result<bool, StoreError>)
        ensures
            r == reserve_answer(old(self)@.reserved, (domain@, branch@, commit@), resolved),
            final(self)@ == (StoreModel {
                reserved: reserve(old(self)@.reserved, (domain@, branch@, commit@), resolved),
                ..old(self)@
            }),
    {
        if self.inflight_commits.contains(domain, branch, commit) {
            return Ok(false);
        }
        match resolved {
            Ok(Some(_)) => Ok(false),
            Ok(None) => {
                self.inflight_commits.insert(domain, branch, commit);
                Ok(true)
            },
            Err(e) => Err(e),
        }
    }

    /// Gives a reservation back, whether indexing went well or not.
    pub fn io_release_commit_reservation(&mut self, domain: &str, branch: &str, commit: &str)
        ensures
            final(self)@ == (StoreModel {
                reserved: old(self)@.reserved.remove((domain@, branch@, commit@)),
                ..old(self)@
            }),
    {
        self.inflight_commits.remove(domain, branch, commit);
    }

    /// Notes a commit as the last indexed one of a branch.
    pub fn cache_last_indexed(&mut self, domain: &str, branch: &str, commit: &str, version: u64)
        ensures
            final(self)@ == (StoreModel {
                indexes: old(self)@.indexes.insert((domain@, branch@), (Some(commit@), version)),
                ..old(self)@
            }),
    {
        let ghost before = self.branch_indexes.map();
        let entry = BranchIndex { commit: Some(commit.to_owned()), version };
        let ghost value = entry@;
        self.branch_indexes.insert(domain, branch, entry);
        assert(self@.indexes =~= index_views(before).insert((domain@, branch@), value));
    }

    /// Notes a commit as the last indexed one of a branch.
    pub fn update_last_indexed(&mut self, domain: &str, branch: &str, commit: &str, version: u64)
        ensures
            final(self)@ == (StoreModel {
                indexes: old(self)@.indexes.insert((domain@, branch@), (Some(commit@), version)),
                ..old(self)@
            }),
    {
        self.cache_last_indexed(domain, branch, commit, version);
    }

    /// The last indexed commit of a branch as far as it is in memory.
    pub fn cached_last_indexed(&self, domain: &str, branch: &str) -> (r: Option<LastIndexed>)
        ensures
            match r {
                Some(l) => self@.indexes.contains_key((domain@, branch@)) && l.branch@ == branch@
                    && (tags::opt(l.commit), l.version) == self@.indexes[(domain@, branch@)],
                None => !self@.indexes.contains_key((domain@, branch@)),
            },
    {
        match self.branch_indexes.get(domain, branch) {
            Some(b) => {
                Some(
                    LastIndexed {
                        branch: branch.to_owned(),
                        commit: copy_commit(&b.commit),
                        version: b.version,
                    },
                )
            },
            None => None,
        }
    }

    /// The last indexed commit of a branch: from memory, or else as derived from the stored tags,
    /// which is then kept in memory. A failure to derive it is passed on.
    pub fn last_indexed(
        &mut self,
        domain: &str,
        branch: &str,
        derived: Result<Option<(String, u64)>, StoreError>,
    ) -> (r: Result<LastIndexed, StoreError>)
        ensures
            ({
                let k = (domain@, branch@);
                let cached = old(self)@.indexes.contains_key(k);
                match r {
                    Ok(l) => l.branch@ == branch@ && (tags::opt(l.commit), l.version) == (if cached {
                        old(self)@.indexes[k]
                    } else {
                        found(derived->Ok_0)
                    }) && (cached || derived is Ok),
                    Err(e) => !cached && derived == Err::<Option<(String, u64)>, StoreError>(e),
                }
            }),
            final(self)@ == (StoreModel {
                indexes: remembered(old(self)@.indexes, (domain@, branch@), derived),
                ..old(self)@
            }),
            !old(self)@.indexes.contains_key((domain@, branch@)) && r is Ok && derived->Ok_0 is None
                ==> r->Ok_0.commit is None && r->Ok_0.version == 0 && final(self)@ == old(self)@,
            !old(self)@.indexes.contains_key((domain@, branch@)) && r is Ok && derived->Ok_0 is Some
                ==> r->Ok_0.commit is Some && r->Ok_0.commit->0@ == (derived->Ok_0->0).0@
                && r->Ok_0.version == (derived->Ok_0->0).1,
    {
        match self.cached_last_indexed(domain, branch) {
            Some(l) => {
                return Ok(l);
            },
            None => {},
        }
        match derived {
            Ok(Some((commit, version))) => {
                self.cache_last_indexed(domain, branch, commit.as_str(), version);
                Ok(LastIndexed { branch: branch.to_owned(), commit: Some(commit), version })
            },
            Ok(None) => {
                Ok(LastIndexed { branch: branch.to_owned(), commit: None, version: 0 })
            },
            Err(e) => Err(e),
        }
    }

    /// Records a task's status as of now, and evicts old and excess tasks.
    pub fn record_task(&mut self, task_id: &str, status: TaskStatus, now: u64)
        ensures
            final(self)@ == (StoreModel { tasks: final(self)@.tasks, ..old(self)@ }),
            tasks::evicts(
                tasks::others(old(self)@.tasks, task_id@, old(self)@.tasks.len() as int).push(
                    (task_id@, status, now),
                ),
                now,
                tasks::MAX_TASKS as int,
                final(self)@.tasks,
            ),
    {
        self.tasks.record_task(task_id, status, now);
    }

    /// The status of a task, if it is tracked.
    pub fn check_task(&self, task_id: &str) -> (r: Option<&TaskStatus>)
        ensures
            match r {
                Some(s) => tasks::has_status(self@.tasks, task_id@, *s),
                None => !tasks::is_tracked(self@.tasks, task_id@),
            },
    {
        self.tasks.check_task(task_id)
    }

    /// The number of tracked tasks.
    pub fn task_count(&self) -> (n: usize)
        ensures
            n == self@.tasks.len(),
    {
        self.tasks.task_count()
    }

    /// The number of branches with a last indexed commit in memory.
    pub fn branch_index_count(&self) -> (n: usize)
        ensures
            n == self@.indexes.dom().len(),
    {
        let n = self.branch_indexes.len();
        assert(self@.indexes.dom() =~= self.branch_indexes.map().dom());
        n
    }

    /// The number of reserved commits.
    pub fn reservation_count(&self) -> (n: usize)
        ensures
            n == self@.reserved.len(),
    {
        self.inflight_commits.len()
    }

    /// The branches with a last indexed commit in memory: domain, branch, and whether a commit is
    /// known.
    pub fn indexed_branches(&self) -> (r: Vec<IndexedBranch>)
        ensures
            r.len() == self@.indexes.dom().len(),
            forall|i: int|
                0 <= i < r.len() ==> self@.indexes.contains_key(
                    ((#[trigger] r@[i]).domain@, r@[i].branch@),
                ) && r@[i].has_commit == self@.indexes[(r@[i].domain@, r@[i].branch@)].0 is Some,
            forall|i: int, j: int|
                #![trigger r@[i], r@[j]]
                0 <= i < j < r.len() ==> (r@[i].domain@, r@[i].branch@) != (
                    r@[j].domain@,
                    r@[j].branch@,
                ),
    {
        let n = self.branch_indexes.len();
        assert(self@.indexes.dom() =~= self.branch_indexes.map().dom());
        let ghost keys = self.branch_indexes.keys();
        let mut out: Vec<IndexedBranch> = Vec::new();
        let mut i: usize = 0;
        while i < n
            invariant
                i <= n,
                n == keys.len(),
                keys == self.branch_indexes.keys(),
                out.len() == i,
                self@.indexes == index_views(self.branch_indexes.map()),
                forall|k: int|
                    0 <= k < i ==> ((#[trigger] out@[k]).domain@, out@[k].branch@) == keys[k]
                        && self@.indexes.contains_key(keys[k]) && out@[k].has_commit
                        == self@.indexes[keys[k]].0 is Some,
            decreases n - i,
        {
            let (domain, branch, index) = self.branch_indexes.entry(i);
            out.push(
                IndexedBranch {
                    domain: domain.clone(),
                    branch: branch.clone(),
                    has_commit: index.commit.is_some(),
                },
            );
            i = i + 1;
        }
        assert forall|x: int, y: int|
            #![trigger out@[x], out@[y]]
            0 <= x < y < out.len() implies (out@[x].domain@, out@[x].branch@) != (
            out@[y].domain@,
            out@[y].branch@,
        ) by {
            assert(keys[x] != keys[y]);
        }
        out
    }

    /// Forgets everything of a domain once its dataset is gone from disk. Where that failed nothing
    /// is forgotten, and the failure is passed on.
    pub fn io_delete_domain(&mut self, domain: &str, removed: Result<(), StoreError>) -> (r: Result<
        (),
        StoreError,
    >)
        ensures
            r == removed,
            final(self)@ == (match removed {
                Ok(_) => purged_domain(old(self)@, domain@),
                Err(_) => old(self)@,
            }),
    {
        if removed.is_ok() {
            let ghost before = self.branch_indexes.map();
            self.branch_indexes.remove_first(domain);
            self.inflight_commits.remove_first(domain);
            self.index_delta_counts.remove_first(domain);
            assert(self@.indexes =~= table::without_first(index_views(before), domain@));
        }
        removed
    }

    /// Forgets everything of a branch once its tags are gone. Where that failed nothing is
    /// forgotten, and the failure is passed on.
    pub fn io_delete_branch_index(
        &mut self,
        domain: &str,
        branch: &str,
        deleted: Result<(), StoreError>,
    ) -> (r: Result<(), StoreError>)
        ensures
            r == deleted,
            final(self)@ == (match deleted {
                Ok(_) => purged_branch(old(self)@, domain@, branch@),
                Err(_) => old(self)@,
            }),
    {
        if deleted.is_ok() {
            let ghost before = self.branch_indexes.map();
            self.branch_indexes.remove(domain, branch);
            self.inflight_commits.remove_pair(domain, branch);
            self.index_delta_counts.remove(domain, branch);
            assert(self@.indexes =~= index_views(before).remove((domain@, branch@)));
        }
        deleted
    }
}

/// The keys of the locks and of the cancellation tokens that go when a branch is deleted, or, if no
/// branch is given, when the whole domain is.
pub fn keys_to_remove(keys: Vec<BranchKey>, domain: &str, branch: Option<&str>) -> (r: Vec<BranchKey>)
    ensures
        key_views(r@) == keys_under(
            key_views(keys@),
            domain@,
            match branch {
                Some(b) => Some(b@),
                None => None,
            },
        ),
{
    let ghost named: Option<Seq<char>> = match branch {
        Some(b) => Some(b@),
        None => None,
    };
    let wanted = domain.to_owned();
    let wanted_branch: Option<String> = match branch {
        Some(b) => Some(b.to_owned()),
        None => None,
    };
    let mut out: Vec<BranchKey> = Vec::new();
    let mut i: usize = 0;
    let ghost views = key_views(keys@);
    let ghost under = |k: Key| falls_under(k, domain@, named);
    reveal(Seq::filter);
    assert(views.take(0).filter(under) =~= key_views(out@));
    while i < keys.len()
        invariant
            i <= keys.len(),
            views == key_views(keys@),
            wanted@ == domain@,
            tags::opt(wanted_branch) == named,
            under == (|k: Key| falls_under(k, domain@, named)),
            key_views(out@) == views.take(i as int).filter(under),
        decreases keys.len() - i,
    {
        let ghost before = out@;
        let in_branch = match &wanted_branch {
            Some(b) => keys[i].branch == *b,
            None => true,
        };
        assert(views.take(i + 1).drop_last() =~= views.take(i as int));
        reveal(Seq::filter);
        if keys[i].domain == wanted && in_branch {
            out.push(
                BranchKey { domain: keys[i].domain.clone(), branch: keys[i].branch.clone() },
            );
            assert(key_views(out@) =~= key_views(before).push(views[i as int]));
        }
        i = i + 1;
    }
    assert(views.take(keys@.len() as int) =~= views);
    out
}

/// A branch with a last indexed commit in memory.
#[derive(Debug)]
pub struct IndexedBranch {
    pub domain: String,
    pub branch: String,
    pub has_commit: bool,
}

/// What was derived of a branch: its last indexed commit with the version, or none with zero.
pub open spec fn found(derived: Option<(String, u64)>) -> (Option<Seq<char>>, u64) {
    match derived {
        Some((commit, version)) => (Some(commit@), version),
        None => (None, 0),
    }
}

/// The remembered commits after one was asked for: a derived one is kept unless there is one.
pub open spec fn remembered(
    indexes: Map<Key, (Option<Seq<char>>, u64)>,
    k: Key,
    derived: Result<Option<(String, u64)>, StoreError>,
) -> Map<Key, (Option<Seq<char>>, u64)> {
    if !indexes.contains_key(k) && derived is Ok && derived->Ok_0 is Some {
        indexes.insert(k, found(derived->Ok_0))
    } else {
        indexes
    }
}

/// Of two requests for one commit, only one is granted, whatever is found of the commit later.
pub proof fn a_commit_is_reserved_once(
    reserved: Set<Triple>,
    commit: Triple,
    first: Result<Option<u64>, StoreError>,
    second: Result<Option<u64>, StoreError>,
)
    requires
        reserve_answer(reserved, commit, first) == Ok::<bool, StoreError>(true),
    ensures
        reserve_answer(reserve(reserved, commit, first), commit, second) == Ok::<bool, StoreError>(
            false,
        ),
        reserve(reserve(reserved, commit, first), commit, second) == reserve(
            reserved,
            commit,
            first,
        ),
{
}

/// A commit that was given back without being indexed can be reserved again.
pub proof fn release_allows_a_retry(reserved: Set<Triple>, commit: Triple)
    ensures
        reserve_answer(reserved.remove(commit), commit, Ok(None)) == Ok::<bool, StoreError>(true),
{
}

/// An indexed commit is never reserved, and neither is one of which nothing could be found out.
pub proof fn only_absent_commits_are_reserved(
    reserved: Set<Triple>,
    commit: Triple,
    resolved: Result<Option<u64>, StoreError>,
)
    requires
        resolved is Err || resolved->Ok_0 is Some,
    ensures
        reserve(reserved, commit, resolved) == reserved,
        reserve_answer(reserved, commit, resolved) != Ok::<bool, StoreError>(true),
{
}

/// Giving a reservation back twice is the same as once, and undoes a granted request.
pub proof fn release_undoes_a_reservation(
    reserved: Set<Triple>,
    commit: Triple,
    resolved: Result<Option<u64>, StoreError>,
)
    requires
        !reserved.contains(commit),
    ensures
        reserve(reserved, commit, resolved).remove(commit) == reserved,
        reserved.remove(commit).remove(commit) == reserved.remove(commit),
{
    assert(reserve(reserved, commit, resolved).remove(commit) =~= reserved);
    assert(reserved.remove(commit).remove(commit) =~= reserved.remove(commit));
}

/// What was derived once is answered from memory afterwards, whatever is derived later.
pub proof fn answers_are_remembered(
    indexes: Map<Key, (Option<Seq<char>>, u64)>,
    k: Key,
    first: Result<Option<(String, u64)>, StoreError>,
    second: Result<Option<(String, u64)>, StoreError>,
)
    requires
        !indexes.contains_key(k),
        first is Ok,
        first->Ok_0 is Some,
    ensures
        remembered(indexes, k, first).contains_key(k),
        remembered(indexes, k, first)[k] == found(first->Ok_0),
        remembered(remembered(indexes, k, first), k, second) == remembered(indexes, k, first),
{
}

/// Forgetting a domain twice is the same as once, and touches no other domain.
pub proof fn purging_a_domain_is_contained(m: StoreModel, domain: Seq<char>, other: Key, t: Triple)
    requires
        other.0 != domain,
        t.0 != domain,
    ensures
        purged_domain(purged_domain(m, domain), domain) == purged_domain(m, domain),
        purged_domain(m, domain).indexes.contains_key(other) == m.indexes.contains_key(other),
        m.indexes.contains_key(other) ==> purged_domain(m, domain).indexes[other]
            == m.indexes[other],
        delta_count(purged_domain(m, domain).deltas, other) == delta_count(m.deltas, other),
        purged_domain(m, domain).reserved.contains(t) == m.reserved.contains(t),
        purged_domain(m, domain).tasks == m.tasks,
{
    let once = purged_domain(m, domain);
    let twice = purged_domain(once, domain);
    assert(twice.indexes =~= once.indexes);
    assert(twice.deltas =~= once.deltas);
    assert(twice.reserved =~= once.reserved);
}

/// Nothing of a forgotten domain is left: each commit can be reserved, nothing is remembered, and
/// the counts of deltas start over.
pub proof fn nothing_is_left_of_a_purged_domain(
    m: StoreModel,
    domain: Seq<char>,
    branch: Seq<char>,
    commit: Seq<char>,
)
    ensures
        reserve_answer(
            purged_domain(m, domain).reserved,
            (domain, branch, commit),
            Ok(None),
        ) == Ok::<bool, StoreError>(true),
        !purged_domain(m, domain).indexes.contains_key((domain, branch)),
        delta_count(purged_domain(m, domain).deltas, (domain, branch)) == 0,
{
}

/// Of what is held per branch, the deletion of a domain takes every key of the domain and none of
/// another; that of a branch takes its key and no other.
pub proof fn deletion_takes_its_own_keys(
    keys: Seq<Key>,
    domain: Seq<char>,
    branch: Seq<char>,
    k: Key,
)
    requires
        keys.contains(k),
    ensures
        keys_under(keys, domain, None).contains(k) <==> k.0 == domain,
        keys_under(keys, domain, Some(branch)).contains(k) <==> k == (domain, branch),
{
    broadcast use vstd::seq_lib::group_filter_ensures;

    let i = choose|i: int| 0 <= i < keys.len() && keys[i] == k;
    let all = keys_under(keys, domain, None);
    let one = keys_under(keys, domain, Some(branch));
    if falls_under(keys[i], domain, None) {
        assert(all.contains(keys[i]));
    }
    if falls_under(keys[i], domain, Some(branch)) {
        assert(one.contains(keys[i]));
    }
    if all.contains(k) {
        let j = choose|j: int| 0 <= j < all.len() && all[j] == k;
        assert(falls_under(all[j], domain, None));
    }
    if one.contains(k) {
        let j = choose|j: int| 0 <= j < one.len() && one[j] == k;
        assert(falls_under(one[j], domain, Some(branch)));
    }
}

/// Forgetting a branch twice is the same as once, and touches no other branch.
pub proof fn purging_a_branch_is_contained(
    m: StoreModel,
    domain: Seq<char>,
    branch: Seq<char>,
    other: Key,
    commit: Seq<char>,
)
    requires
        other != (domain, branch),
    ensures
        purged_branch(purged_branch(m, domain, branch), domain, branch) == purged_branch(
            m,
            domain,
            branch,
        ),
        purged_branch(m, domain, branch).indexes.contains_key(other) == m.indexes.contains_key(
            other,
        ),
        m.indexes.contains_key(other) ==> purged_branch(m, domain, branch).indexes[other]
            == m.indexes[other],
        delta_count(purged_branch(m, domain, branch).deltas, other) == delta_count(
            m.deltas,
            other,
        ),
        purged_branch(m, domain, branch).reserved.contains((other.0, other.1, commit))
            == m.reserved.contains((other.0, other.1, commit)),
        !purged_branch(m, domain, branch).reserved.contains((domain, branch, commit)),
        !purged_branch(m, domain, branch).indexes.contains_key((domain, branch)),
        delta_count(purged_branch(m, domain, branch).deltas, (domain, branch)) == 0,
{
    let once = purged_branch(m, domain, branch);
    let twice = purged_branch(once, domain, branch);
    assert(twice.indexes =~= once.indexes);
    assert(twice.deltas =~= once.deltas);
    assert(twice.reserved =~= once.reserved);
}


/// The keys that go with a branch, or with a whole domain, name it; and each key that names it goes.
pub proof fn removed_keys_name_what_is_deleted(
    keys: Seq<BranchKey>,
    r: Seq<BranchKey>,
    domain: Seq<char>,
    branch: Option<Seq<char>>,
    i: int,
    j: int,
)
    requires
        key_views(r) == keys_under(key_views(keys), domain, branch),
        0 <= i < r.len(),
        0 <= j < keys.len(),
    ensures
        r[i].domain@ == domain,
        branch is Some ==> r[i].branch@ == branch->0,
        keys[j].domain@ == domain && (branch is None || keys[j].branch@ == branch->0) ==> exists|
            k: int,
        | #![trigger r[k]]
            0 <= k < r.len() && r[k].domain@ == keys[j].domain@ && r[k].branch@ == keys[j].branch@,
{
    broadcast use vstd::seq_lib::group_filter_ensures;

    let views = key_views(keys);
    let under = keys_under(views, domain, branch);
    assert(key_views(r)[i] == (r[i].domain@, r[i].branch@));
    assert(falls_under(under[i], domain, branch));
    assert(views[j] == (keys[j].domain@, keys[j].branch@));
    if keys[j].domain@ == domain && (branch is None || keys[j].branch@ == branch->0) {
        assert(falls_under(views[j], domain, branch));
        assert(under.contains(views[j]));
        let k = choose|k: int| 0 <= k < under.len() && under[k] == views[j];
        assert(key_views(r)[k] == (r[k].domain@, r[k].branch@));
        assert(r[k].domain@ == keys[j].domain@);
    }
}

/// Forgetting a domain leaves the dimension, the index configuration, the cleanup mode and the
/// tasks, and so does forgetting a branch.
pub proof fn purging_keeps_the_settings(m: StoreModel, domain: Seq<char>, branch: Seq<char>)
    ensures
        purged_domain(m, domain).dim == m.dim,
        purged_domain(m, domain).config == m.config,
        purged_domain(m, domain).mode == m.mode,
        purged_domain(m, domain).tasks == m.tasks,
        purged_branch(m, domain, branch).dim == m.dim,
        purged_branch(m, domain, branch).config == m.config,
        purged_branch(m, domain, branch).mode == m.mode,
        purged_branch(m, domain, branch).tasks == m.tasks,
{
}

/// A free commit is reserved, and no other commit's reservation changes with it.
pub proof fn requests_touch_only_their_commit(
    reserved: Set<Triple>,
    commit: Triple,
    other: Triple,
    resolved: Result<Option<u64>, StoreError>,
)
    requires
        other != commit,
    ensures
        reserve(reserved, commit, resolved).contains(other) == reserved.contains(other),
        !reserved.contains(commit) && resolved == Ok::<Option<u64>, StoreError>(None)
            ==> reserve_answer(reserved, commit, resolved) == Ok::<bool, StoreError>(true)
            && reserve(reserved, commit, resolved).contains(commit),
        !reserved.contains(commit) && resolved is Err ==> reserve_answer(
            reserved,
            commit,
            resolved,
        ) == Err::<bool, StoreError>(resolved->Err_0),
{
}


/// A derived commit is remembered with its version, and with no other branch's; where none was
/// derived, or deriving failed, nothing is remembered, and the version that is told is zero.
pub proof fn derived_commits_are_remembered_as_they_are(
    indexes: Map<Key, (Option<Seq<char>>, u64)>,
    k: Key,
    other: Key,
    commit: String,
    version: u64,
    e: StoreError,
)
    requires
        !indexes.contains_key(k),
        other != k,
    ensures
        remembered(indexes, k, Ok(Some((commit, version))))[k].0 == Some(commit@),
        remembered(indexes, k, Ok(Some((commit, version))))[k].1 == version,
        remembered(indexes, k, Ok(Some((commit, version)))).contains_key(other)
            == indexes.contains_key(other),
        indexes.contains_key(other) ==> remembered(indexes, k, Ok(Some((commit, version))))[other]
            == indexes[other],
        !remembered(indexes, k, Ok(None)).contains_key(k),
        !remembered(indexes, k, Err(e)).contains_key(k),
        found(None).0 is None,
        found(None).1 == 0,
{
}

} // verus!
