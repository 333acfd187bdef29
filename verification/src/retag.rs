//! Retagging of intermediate commits: base-3 boundary positions, the plan that moves tags to boundary
//! versions, and the two-phase replay of commits on a rebuild branch.

use crate::grouping;
use crate::order;
use crate::order::Ranked;
use crate::rollup;
use crate::schema;
use crate::schema::MAIN_BRANCH;
use crate::tags::CommitVersion;
use vstd::arithmetic::power::*;
use vstd::prelude::*;
use vstd::string::*;

verus! {

/// Position `i` is a base-3 boundary: 0, 3, 9, 27, 81 and so on.
pub open spec fn is_boundary(i: int) -> bool {
    i == 0 || (i > 1 && exists|e: nat| #[trigger] pow(3, e) == i)
}

proof fn lemma_pow3_exponent(n: nat)
    requires
        n > 0,
    ensures
        pow(3, rollup::exponent_of_three(n)) <= n,
        (exists|e: nat| #[trigger] pow(3, e) == n) <==> pow(3, rollup::exponent_of_three(n)) == n,
    decreases n,
{
    lemma_pow0(3);
    let e = rollup::exponent_of_three(n);
    if n % 3 == 0 {
        lemma_pow3_exponent(n / 3);
        let f = rollup::exponent_of_three(n / 3);
        assert(e == f + 1);
        reveal(pow);
        assert(pow(3, e) == 3 * pow(3, f));
        if exists|g: nat| #[trigger] pow(3, g) == n {
            let g = choose|g: nat| #[trigger] pow(3, g) == n;
            if g == 0 {
            } else {
                assert(pow(3, g) == 3 * pow(3, (g - 1) as nat));
                assert(pow(3, (g - 1) as nat) == n / 3);
            }
        }
    } else {
        assert(e == 0);
        if exists|g: nat| #[trigger] pow(3, g) == n {
            let g = choose|g: nat| #[trigger] pow(3, g) == n;
            reveal(pow);
            if g > 0 {
                assert(pow(3, g) == 3 * pow(3, (g - 1) as nat));
            }
        }
    }
}

/// Whether a position is a base-3 boundary.
pub fn is_boundary_position(i: usize) -> (r: bool)
    ensures
        r == is_boundary(i as int),
{
    if i == 0 {
        return true;
    }
    if i == 1 {
        return false;
    }
    let mut n: usize = i;
    let ghost p: int = 1;
    let ghost done: nat = 0;
    proof {
        lemma_pow0(3);
    }
    while n % 3 == 0
        invariant
            i >= 2,
            n >= 1,
            p >= 1,
            p == pow(3, done),
            p * n == i,
            rollup::exponent_of_three(i as nat) == done + rollup::exponent_of_three(n as nat),
        decreases n,
    {
        proof {
            reveal(pow);
            assert(pow(3, done + 1) == 3 * pow(3, done));
            let m = (n / 3) as int;
            assert(n == 3 * m);
            assert((3 * p) * m == p * (3 * m)) by (nonlinear_arith);
            p = 3 * p;
            done = done + 1;
        }
        n = n / 3;
    }
    proof {
        lemma_pow3_exponent(i as nat);
        assert(rollup::exponent_of_three(i as nat) == done);
        assert(p == i <==> n == 1) by (nonlinear_arith)
            requires
                p * n == i,
                n >= 1,
                p >= 1,
                i >= 2,
        {
            if n > 1 {
                assert(p * n >= p * 2);
            }
        }
    }
    n == 1
}

/// The nearest boundary at or below a position.
pub open spec fn boundary_below(i: int) -> int
    decreases i,
{
    if i <= 0 || is_boundary(i) {
        i
    } else {
        boundary_below(i - 1)
    }
}

/// The nearest boundary at or below a position is a boundary, and none lies between.
pub proof fn boundary_below_is_nearest(i: int)
    requires
        i >= 0,
    ensures
        0 <= boundary_below(i) <= i,
        is_boundary(boundary_below(i)),
        forall|j: int| boundary_below(i) < j <= i ==> !is_boundary(j),
    decreases i,
{
    if i > 0 && !is_boundary(i) {
        boundary_below_is_nearest(i - 1);
    }
}

/// Commits in the order of their versions.
pub open spec fn is_by_version(commits: Seq<(Seq<char>, u64)>) -> bool {
    forall|i: int, j: int|
        #![trigger commits[i], commits[j]]
        0 <= i < j < commits.len() ==> commits[i].1 <= commits[j].1
}

/// `sorted` holds the listed commits in the order of their versions; `p` holds the list position of
/// each.
pub open spec fn sorts_commits(
    listed: Seq<(Seq<char>, u64)>,
    p: Seq<int>,
    sorted: Seq<(Seq<char>, u64)>,
) -> bool {
    &&& p.len() == listed.len()
    &&& sorted.len() == listed.len()
    &&& forall|k: int|
        0 <= k < p.len() ==> 0 <= #[trigger] p[k] < listed.len() && sorted[k] == listed[p[k]]
    &&& forall|x: int| 0 <= x < listed.len() ==> #[trigger] p.contains(x)
    &&& forall|j: int, k: int|
        #![trigger p[j], p[k]]
        0 <= j < k < p.len() ==> p[j] != p[k] && listed[p[j]].1 <= listed[p[k]].1
}

/// A version in ascending order.
pub struct VersionKey {
    pub version: u64,
}

impl Ranked for VersionKey {
    open spec fn before(a: Self, b: Self) -> bool {
        a.version <= b.version
    }

    proof fn lemma_order(a: Self, b: Self, c: Self) {
    }

    fn is_before(&self, other: &Self) -> (r: bool) {
        self.version <= other.version
    }
}

/// The commits in the order of their versions.
pub fn sort_commits(commits: &Vec<CommitVersion>) -> (r: Vec<CommitVersion>)
    ensures
        exists|p: Seq<int>| sorts_commits(schema::models(commits@), p, schema::models(r@)),
        is_by_version(schema::models(r@)),
        r.len() == commits.len(),
{
    let mut keys: Vec<VersionKey> = Vec::new();
    let mut i: usize = 0;
    while i < commits.len()
        invariant
            i <= commits.len(),
            keys.len() == i,
            forall|k: int| 0 <= k < i ==> (#[trigger] keys@[k]).version == commits@[k].version,
        decreases commits.len() - i,
    {
        keys.push(VersionKey { version: commits[i].version });
        i = i + 1;
    }
    let order = order::sorted_positions(&keys);
    let mut out: Vec<CommitVersion> = Vec::new();
    let mut k: usize = 0;
    while k < order.len()
        invariant
            k <= order.len(),
            out.len() == k,
            order::sorts(keys@, order@),
            keys.len() == commits.len(),
            forall|j: int| 0 <= j < k ==> (#[trigger] out@[j])@ == commits@[order@[j] as int]@,
        decreases order.len() - k,
    {
        let c = &commits[order[k]];
        out.push(CommitVersion { commit: c.commit.clone(), version: c.version });
        k = k + 1;
    }
    proof {
        let listed = schema::models(commits@);
        let sorted = schema::models(out@);
        let p = order@.map_values(|x: usize| x as int);
        assert(commits.len() <= usize::MAX);
        assert forall|k: int| 0 <= k < p.len() implies 0 <= #[trigger] p[k] < listed.len()
            && sorted[k] == listed[p[k]] by {
            assert(order@[k] < keys@.len());
            assert(out@[k]@ == commits@[order@[k] as int]@);
        }
        assert forall|x: int| 0 <= x < listed.len() implies #[trigger] p.contains(x) by {
            assert(order@.contains(x as usize));
            let k = choose|k: int| 0 <= k < order@.len() && order@[k] == x as usize;
            assert(p[k] == x);
        }
        assert forall|j: int, k: int|
            #![trigger p[j], p[k]]
            0 <= j < k < p.len() implies p[j] != p[k] && listed[p[j]].1 <= listed[p[k]].1 by {
            let x = order@[j] as int;
            let y = order@[k] as int;
            assert(order::precedes(keys@, x, y));
            assert(keys@[x].version == commits@[x].version);
            assert(keys@[y].version == commits@[y].version);
        }
        assert forall|i: int, j: int|
            #![trigger sorted[i], sorted[j]]
            0 <= i < j < sorted.len() implies sorted[i].1 <= sorted[j].1 by {
            assert(p[i] != p[j]);
        }
        assert(sorts_commits(listed, p, sorted));
    }
    out
}

/// A commit whose tag moves from one version to another.
#[derive(Debug)]
pub struct Retag {
    pub commit: String,
    pub old_version: u64,
    pub new_version: u64,
}

impl View for Retag {
    type V = (Seq<char>, u64, u64);

    open spec fn view(&self) -> (Seq<char>, u64, u64) {
        (self.commit@, self.old_version, self.new_version)
    }
}

/// A commit is intermediate: not at a boundary, or the latest one, which is intermediate wherever it
/// stands.
pub open spec fn is_intermediate(i: int, total: int) -> bool {
    !is_boundary(i) || i == total - 1
}

/// The retags of the first `n` of the sorted commits: every intermediate commit moves to the version
/// of the nearest boundary below it.
pub open spec fn boundary_retags(sorted: Seq<(Seq<char>, u64)>, n: int) -> Seq<
    (Seq<char>, u64, u64),
>
    decreases n,
{
    if n <= 0 {
        Seq::empty()
    } else if is_intermediate(n - 1, sorted.len() as int) {
        boundary_retags(sorted, n - 1).push(
            (sorted[n - 1].0, sorted[n - 1].1, sorted[boundary_below(n - 2)].1),
        )
    } else {
        boundary_retags(sorted, n - 1)
    }
}

/// The retags of some commits; up to two commits stay as they are.
pub open spec fn is_retag_plan(
    listed: Seq<(Seq<char>, u64)>,
    sorted: Seq<(Seq<char>, u64)>,
    plan: Seq<(Seq<char>, u64, u64)>,
) -> bool {
    if listed.len() <= 2 {
        plan.len() == 0
    } else {
        (exists|p: Seq<int>| sorts_commits(listed, p, sorted)) && plan == boundary_retags(
            sorted,
            sorted.len() as int,
        )
    }
}

/// The plan that moves the tags of intermediate commits to boundary versions, so that the versions
/// between can be cleaned up. Boundary commits keep their versions, but for the latest commit, which
/// always moves.
pub fn plan_boundary_retags(commits: &Vec<CommitVersion>) -> (plan: Vec<Retag>)
    ensures
        exists|sorted: Seq<(Seq<char>, u64)>| #[trigger]
            is_retag_plan(schema::models(commits@), sorted, schema::models(plan@)),
{
    let mut plan: Vec<Retag> = Vec::new();
    if commits.len() <= 2 {
        proof {
            assert(is_retag_plan(
                schema::models(commits@),
                schema::models(commits@),
                schema::models(plan@),
            ));
        }
        return plan;
    }
    let sorted = sort_commits(commits);
    let ghost s = schema::models(sorted@);
    let total = sorted.len();
    let mut last: u64 = sorted[0].version;
    let mut i: usize = 0;
    assert(schema::models(plan@) =~= Seq::<(Seq<char>, u64, u64)>::empty());
    while i < total
        invariant
            i <= total,
            total == sorted.len(),
            total > 2,
            s == schema::models(sorted@),
            i == 0 ==> last == s[0].1,
            0 < i < total ==> last == s[boundary_below(i - 1)].1,
            schema::models(plan@) == boundary_retags(s, i as int),
        decreases total - i,
    {
        assert(s[i as int] == sorted@[i as int]@);
        if is_boundary_position(i) && i != total - 1 {
            last = sorted[i].version;
        } else {
            let ghost before = plan@;
            plan.push(
                Retag {
                    commit: sorted[i].commit.clone(),
                    old_version: sorted[i].version,
                    new_version: last,
                },
            );
            assert(schema::models(plan@) =~= schema::models(before).push(plan@.last()@));
        }
        i = i + 1;
    }
    proof {
        assert(is_retag_plan(schema::models(commits@), s, schema::models(plan@)));
    }
    plan
}

/// A retag never moves a commit to a newer version, and moves none but intermediate commits, each to
/// the nearest boundary below it.
pub proof fn retags_move_backwards(sorted: Seq<(Seq<char>, u64)>, n: int, k: int) -> (i: int)
    requires
        is_by_version(sorted),
        sorted.len() > 2,
        0 <= n <= sorted.len(),
        0 <= k < boundary_retags(sorted, n).len(),
    ensures
        0 < i < n,
        is_intermediate(i, sorted.len() as int),
        boundary_retags(sorted, n)[k] == (
            sorted[i].0,
            sorted[i].1,
            sorted[boundary_below(i - 1)].1,
        ),
        boundary_retags(sorted, n)[k].2 <= boundary_retags(sorted, n)[k].1,
    decreases n,
{
    let rest = boundary_retags(sorted, n - 1);
    if k < rest.len() {
        retags_move_backwards(sorted, n - 1, k)
    } else {
        boundary_below_is_nearest(n - 2);
        assert(sorted[boundary_below(n - 2)].1 <= sorted[n - 1].1);
        n - 1
    }
}

/// The latest commit is always retagged, last of all and to the nearest boundary strictly below it,
/// even where it stands at a boundary itself. Where versions are distinct its tag leaves its version.
pub proof fn latest_commit_is_retagged(sorted: Seq<(Seq<char>, u64)>)
    requires
        is_by_version(sorted),
        sorted.len() > 2,
    ensures
        ({
            let plan = boundary_retags(sorted, sorted.len() as int);
            let b = boundary_below(sorted.len() - 2);
            &&& plan.len() > 0
            &&& plan.last() == (sorted.last().0, sorted.last().1, sorted[b].1)
            &&& 0 <= b < sorted.len() - 1
            &&& is_boundary(b)
            &&& sorted[b].1 != sorted.last().1 ==> plan.last().2 < plan.last().1
        }),
{
    boundary_below_is_nearest(sorted.len() - 2);
}

/// The commits at positions `1..n` of a replay that are intermediate, or those that are not.
pub open spec fn commits_of_kind(
    commits: Seq<(Seq<char>, u64)>,
    intermediate: bool,
    n: int,
) -> Seq<Seq<char>>
    decreases n,
{
    if n <= 1 {
        Seq::empty()
    } else if is_intermediate(n - 1, commits.len() as int) == intermediate {
        commits_of_kind(commits, intermediate, n - 1).push(commits[n - 1].0)
    } else {
        commits_of_kind(commits, intermediate, n - 1)
    }
}

/// How far a replay has come.
#[derive(Debug, Clone, Copy, PartialEq, Eq, Structural)]
pub enum ForkPhase {
    /// Create the rebuild branch.
    Create,
    /// Replay the commit at a position onto the rebuild branch.
    Replay(usize),
    /// Index the text of the replayed commit at a position.
    Index(usize),
    /// Delete the rebuild branch after a failed replay.
    Abandon,
    /// Move the tag of an intermediate commit.
    Retag(usize),
    /// Look where the tag of a boundary commit lies.
    Inspect(usize),
    /// Move the tag of a boundary commit off an older rebuild branch.
    Migrate(usize),
    /// List the branches.
    List,
    /// Delete an older rebuild branch.
    Delete(usize),
    /// Remove orphaned tags and stale branches.
    Sweep,
    /// Refresh the cached dataset.
    Refresh,
    /// Done.
    Finished,
    /// Given up.
    Failed,
}

/// What to do next in a replay.
#[derive(Debug)]
pub enum ForkAction {
    /// Create the rebuild branch from a version.
    CreateBranch { branch: String, from_version: u64 },
    /// Apply the changes between two commits to the rebuild branch.
    ApplyDelta { from_commit: String, to_commit: String },
    /// Bring the full-text index of the rebuild branch up to date.
    IndexText,
    /// Delete a branch. A refusal to delete it counts as done; a dataset that cannot be opened as a
    /// failure.
    DeleteBranch { branch: String },
    /// Move the tag of a commit to a version of the rebuild branch.
    MoveTag { commit: String, version: u64 },
    /// Tell which branch the tag of a commit records.
    LookUpTag { commit: String },
    /// List the branches of the dataset.
    ListBranches,
    /// Remove orphaned tags and stale rebuild branches, whatever comes of it.
    SweepTags,
    /// Refresh the cached dataset.
    RefreshCache,
    /// Nothing: the replay is over.
    Stop,
}

/// What came of an action.
#[derive(Debug)]
pub enum ForkEvent {
    /// It succeeded.
    Done,
    /// It succeeded and gave a version.
    Version(u64),
    /// The tag records this branch; absent when there is no tag, or it is on the default branch.
    TagBranch(Option<String>),
    /// The branches of the dataset.
    Branches(Vec<String>),
    /// It failed.
    Failed,
}

/// The contents of a [`DeltaFork`].
pub struct ForkModel {
    pub commits: Seq<(Seq<char>, u64)>,
    pub rebuild_branch: Seq<char>,
    pub phase: ForkPhase,
    pub retags: Seq<(Seq<char>, u64)>,
    pub boundaries: Seq<(Seq<char>, u64)>,
    pub older: Seq<Seq<char>>,
    pub retagged: nat,
}

/// A replay of commits on a rebuild branch: first every commit is replayed, then the tags of the
/// intermediate ones are moved, then older rebuild branches go.
#[derive(Debug)]
pub struct DeltaFork {
    commits: Vec<CommitVersion>,
    rebuild_branch: String,
    phase: ForkPhase,
    retags: Vec<CommitVersion>,
    boundaries: Vec<CommitVersion>,
    older: Vec<String>,
    retagged: usize,
}

impl View for DeltaFork {
    type V = ForkModel;

    closed spec fn view(&self) -> ForkModel {
        ForkModel {
            commits: schema::models(self.commits@),
            rebuild_branch: self.rebuild_branch@,
            phase: self.phase,
            retags: schema::models(self.retags@),
            boundaries: schema::models(self.boundaries@),
            older: grouping::views(self.older@),
            retagged: self.retagged as nat,
        }
    }
}

/// The commits of a list.
pub open spec fn commits_in(list: Seq<(Seq<char>, u64)>) -> Seq<Seq<char>> {
    list.map_values(|c: (Seq<char>, u64)| c.0)
}

/// The older rebuild branches among the first `n`.
pub open spec fn older_branches(
    branches: Seq<String>,
    rebuild_branch: Seq<char>,
    n: int,
) -> Seq<Seq<char>>
    decreases n,
{
    if n <= 0 {
        Seq::empty()
    } else if schema::names_rebuild_branch(branches[n - 1]@) && branches[n - 1]@
        != rebuild_branch {
        older_branches(branches, rebuild_branch, n - 1).push(branches[n - 1]@)
    } else {
        older_branches(branches, rebuild_branch, n - 1)
    }
}

/// The number of commits that have been replayed in a phase.
pub open spec fn replayed(m: ForkModel) -> int {
    match m.phase {
        ForkPhase::Create => 1,
        ForkPhase::Replay(i) => i as int,
        ForkPhase::Index(i) => i as int,
        _ => m.commits.len() as int,
    }
}

/// A replay in good order: commits by version, positions in range, and every replayed commit on
/// record as intermediate or boundary.
pub open spec fn in_good_order(m: ForkModel) -> bool {
    &&& m.commits.len() > 2
    &&& is_by_version(m.commits)
    &&& schema::names_rebuild_branch(m.rebuild_branch)
    &&& m.phase is Failed || m.phase is Abandon || (commits_in(m.retags) == commits_of_kind(
        m.commits,
        true,
        replayed(m),
    ) && commits_in(m.boundaries) == commits_of_kind(m.commits, false, replayed(m)))
    &&& match m.phase {
        ForkPhase::Replay(i) => 1 <= i < m.commits.len(),
        ForkPhase::Index(i) => 1 <= i < m.commits.len() && is_intermediate(
            i as int,
            m.commits.len() as int,
        ),
        ForkPhase::Retag(k) => k < m.retags.len(),
        ForkPhase::Inspect(k) => k < m.boundaries.len(),
        ForkPhase::Migrate(k) => k < m.boundaries.len(),
        ForkPhase::Delete(k) => k < m.older.len(),
        _ => true,
    }
    &&& m.retagged == match m.phase {
        ForkPhase::Create => 0,
        ForkPhase::Replay(_) => 0,
        ForkPhase::Index(_) => 0,
        ForkPhase::Retag(k) => k as nat,
        ForkPhase::Abandon => 0,
        ForkPhase::Failed => m.retagged,
        _ => m.retags.len(),
    }
    &&& m.retagged <= m.retags.len()
    &&& forall|k: int|
        0 <= k < m.older.len() ==> schema::names_rebuild_branch(#[trigger] m.older[k]) && m.older[k]
            != m.rebuild_branch
}

/// The phase that follows the replay of position `i`.
pub open spec fn after_replay(m: ForkModel, i: int) -> ForkPhase {
    if i + 1 < m.commits.len() {
        ForkPhase::Replay((i + 1) as usize)
    } else {
        after_retag(m, -1)
    }
}

/// The phase that follows the retag at `k`.
pub open spec fn after_retag(m: ForkModel, k: int) -> ForkPhase {
    if k + 1 < m.retags.len() {
        ForkPhase::Retag((k + 1) as usize)
    } else {
        after_inspect(m, -1)
    }
}

/// The phase that follows the boundary commit at `k`.
pub open spec fn after_inspect(m: ForkModel, k: int) -> ForkPhase {
    if k + 1 < m.boundaries.len() {
        ForkPhase::Inspect((k + 1) as usize)
    } else {
        ForkPhase::List
    }
}

/// The phase that follows the older branch at `k`.
pub open spec fn after_delete(m: ForkModel, k: int) -> ForkPhase {
    if k + 1 < m.older.len() {
        ForkPhase::Delete((k + 1) as usize)
    } else {
        ForkPhase::Sweep
    }
}

/// A tag that lies on a rebuild branch other than the new one must be moved.
pub open spec fn must_migrate(tag_branch: Option<String>, rebuild_branch: Seq<char>) -> bool {
    tag_branch is Some && schema::names_rebuild_branch(tag_branch->0@) && tag_branch->0@
        != rebuild_branch
}

/// A replay in another phase.
pub open spec fn in_phase(m: ForkModel, phase: ForkPhase) -> ForkModel {
    ForkModel { phase, ..m }
}

/// The replay after an event. A failed replay step abandons the branch before any tag is touched;
/// an event that the phase does not expect counts as a failure.
pub open spec fn next(m: ForkModel, e: ForkEvent) -> ForkModel {
    match m.phase {
        ForkPhase::Create => match e {
            ForkEvent::Done => in_phase(m, ForkPhase::Replay(1)),
            _ => in_phase(m, ForkPhase::Failed),
        },
        ForkPhase::Replay(i) => match e {
            ForkEvent::Version(v) => if is_intermediate(i as int, m.commits.len() as int) {
                in_phase(m, ForkPhase::Index(i))
            } else {
                let n = ForkModel { boundaries: m.boundaries.push((m.commits[i as int].0, v)), ..m };
                in_phase(n, after_replay(n, i as int))
            },
            _ => in_phase(m, ForkPhase::Abandon),
        },
        ForkPhase::Index(i) => match e {
            ForkEvent::Version(v) => {
                let n = ForkModel { retags: m.retags.push((m.commits[i as int].0, v)), ..m };
                in_phase(n, after_replay(n, i as int))
            },
            _ => in_phase(m, ForkPhase::Abandon),
        },
        ForkPhase::Abandon => in_phase(m, ForkPhase::Failed),
        ForkPhase::Retag(k) => match e {
            ForkEvent::Done => {
                let n = ForkModel { retagged: m.retagged + 1, ..m };
                in_phase(n, after_retag(n, k as int))
            },
            _ => in_phase(m, ForkPhase::Failed),
        },
        ForkPhase::Inspect(k) => match e {
            ForkEvent::TagBranch(b) => if must_migrate(b, m.rebuild_branch) {
                in_phase(m, ForkPhase::Migrate(k))
            } else {
                in_phase(m, after_inspect(m, k as int))
            },
            _ => in_phase(m, ForkPhase::Failed),
        },
        ForkPhase::Migrate(k) => match e {
            ForkEvent::Done => in_phase(m, after_inspect(m, k as int)),
            _ => in_phase(m, ForkPhase::Failed),
        },
        ForkPhase::List => match e {
            ForkEvent::Branches(list) => {
                let n = ForkModel {
                    older: older_branches(list@, m.rebuild_branch, list@.len() as int),
                    ..m
                };
                in_phase(n, after_delete(n, -1))
            },
            _ => in_phase(m, ForkPhase::Failed),
        },
        ForkPhase::Delete(k) => match e {
            ForkEvent::Done => in_phase(m, after_delete(m, k as int)),
            _ => in_phase(m, ForkPhase::Failed),
        },
        ForkPhase::Sweep => in_phase(m, ForkPhase::Refresh),
        ForkPhase::Refresh => match e {
            ForkEvent::Done => in_phase(m, ForkPhase::Finished),
            _ => in_phase(m, ForkPhase::Failed),
        },
        ForkPhase::Finished => m,
        ForkPhase::Failed => m,
    }
}

/// The action is the one that the phase calls for.
pub open spec fn calls_for(m: ForkModel, a: ForkAction) -> bool {
    match m.phase {
        ForkPhase::Create => a matches ForkAction::CreateBranch { branch, from_version } && branch@
            == m.rebuild_branch && from_version == m.commits[0].1,
        ForkPhase::Replay(i) => a matches ForkAction::ApplyDelta { from_commit, to_commit }
            && from_commit@ == m.commits[i - 1].0 && to_commit@ == m.commits[i as int].0,
        ForkPhase::Index(_) => a is IndexText,
        ForkPhase::Abandon => a matches ForkAction::DeleteBranch { branch } && branch@
            == m.rebuild_branch,
        ForkPhase::Retag(k) => a matches ForkAction::MoveTag { commit, version } && (
        commit@,
        version,
    ) == m.retags[k as int],
        ForkPhase::Inspect(k) => a matches ForkAction::LookUpTag { commit } && commit@
            == m.boundaries[k as int].0,
        ForkPhase::Migrate(k) => a matches ForkAction::MoveTag { commit, version } && (
        commit@,
        version,
    ) == m.boundaries[k as int],
        ForkPhase::List => a is ListBranches,
        ForkPhase::Delete(k) => a matches ForkAction::DeleteBranch { branch } && branch@
            == m.older[k as int],
        ForkPhase::Sweep => a is SweepTags,
        ForkPhase::Refresh => a is RefreshCache,
        ForkPhase::Finished => a is Stop,
        ForkPhase::Failed => a is Stop,
    }
}

/// Every event keeps a replay in good order.
pub proof fn events_keep_good_order(m: ForkModel, e: ForkEvent)
    requires
        in_good_order(m),
        m.commits.len() <= usize::MAX,
        m.retags.len() <= usize::MAX,
        m.boundaries.len() <= usize::MAX,
        e matches ForkEvent::Branches(list) ==> list@.len() <= usize::MAX,
    ensures
        in_good_order(next(m, e)),
        next(m, e).commits == m.commits,
        next(m, e).rebuild_branch == m.rebuild_branch,
{
    let n = next(m, e);
    match m.phase {
        ForkPhase::Create => {
            assert(commits_of_kind(m.commits, true, 1) =~= Seq::<Seq<char>>::empty());
            assert(commits_of_kind(m.commits, false, 1) =~= Seq::<Seq<char>>::empty());
        },
        ForkPhase::Replay(i) => {
            if e is Version && !is_intermediate(i as int, m.commits.len() as int) {
                assert(commits_in(n.boundaries) =~= commits_in(m.boundaries).push(
                    m.commits[i as int].0,
                ));
                assert(commits_in(n.boundaries) == commits_of_kind(m.commits, false, i + 1));
                assert(commits_in(n.retags) == commits_of_kind(m.commits, true, i + 1));
            }
        },
        ForkPhase::Index(i) => {
            if e is Version {
                assert(commits_in(n.retags) =~= commits_in(m.retags).push(m.commits[i as int].0));
                assert(commits_in(n.retags) == commits_of_kind(m.commits, true, i + 1));
                assert(commits_in(n.boundaries) == commits_of_kind(m.commits, false, i + 1));
            }
        },
        ForkPhase::List => {
            match e {
                ForkEvent::Branches(list) => {
                    lemma_older_branches(list@, m.rebuild_branch, list@.len() as int);
                    lemma_older_len(list@, m.rebuild_branch, list@.len() as int);
                },
                _ => {},
            }
        },
        _ => {},
    }
}

proof fn lemma_older_branches(branches: Seq<String>, rebuild_branch: Seq<char>, n: int)
    requires
        0 <= n <= branches.len(),
    ensures
        forall|k: int|
            0 <= k < older_branches(branches, rebuild_branch, n).len()
                ==> schema::names_rebuild_branch(
                #[trigger] older_branches(branches, rebuild_branch, n)[k],
            ) && older_branches(branches, rebuild_branch, n)[k] != rebuild_branch,
    decreases n,
{
    if n > 0 {
        lemma_older_branches(branches, rebuild_branch, n - 1);
        let rest = older_branches(branches, rebuild_branch, n - 1);
        let all = older_branches(branches, rebuild_branch, n);
        assert forall|k: int| 0 <= k < all.len() implies schema::names_rebuild_branch(
            #[trigger] all[k],
        ) && all[k] != rebuild_branch by {
            if k < rest.len() {
                assert(all[k] == rest[k]);
            }
        }
    }
}

proof fn lemma_older_len(branches: Seq<String>, rebuild_branch: Seq<char>, n: int)
    requires
        0 <= n <= branches.len(),
    ensures
        older_branches(branches, rebuild_branch, n).len() <= n,
    decreases n,
{
    if n > 0 {
        lemma_older_len(branches, rebuild_branch, n - 1);
    }
}

/// While commits are being replayed no tag is touched, and a failure leads to the deletion of the
/// rebuild branch and nothing else.
pub proof fn failed_replays_touch_no_tag(m: ForkModel, a: ForkAction, e: ForkEvent)
    requires
        calls_for(m, a),
        m.phase is Create || m.phase is Replay || m.phase is Index || m.phase is Abandon
            || m.phase is Failed,
    ensures
        !(a is MoveTag),
        (m.phase is Replay || m.phase is Index) && e is Failed ==> next(m, e).phase is Abandon,
        m.phase is Abandon ==> next(m, e).phase is Failed,
        m.phase is Failed ==> next(m, e) == m,
        a matches ForkAction::DeleteBranch { branch } ==> branch@ == m.rebuild_branch,
{
}

/// A tag is moved only once every commit has been replayed: all intermediate commits, the latest one
/// among them, have a version on the rebuild branch.
pub proof fn tags_move_after_the_replay(m: ForkModel, a: ForkAction)
    requires
        in_good_order(m),
        calls_for(m, a),
        a is MoveTag,
    ensures
        commits_in(m.retags) == commits_of_kind(m.commits, true, m.commits.len() as int),
        commits_in(m.boundaries) == commits_of_kind(m.commits, false, m.commits.len() as int),
        commits_in(m.retags).last() == m.commits.last().0,
{
    reveal_with_fuel(commits_of_kind, 2);
}

/// A replay never deletes the branch that it has moved tags to, nor the default branch.
pub proof fn new_branch_outlives_the_replay(m: ForkModel, a: ForkAction)
    requires
        in_good_order(m),
        calls_for(m, a),
        a is DeleteBranch,
    ensures
        m.phase is Abandon || a->DeleteBranch_branch@ != m.rebuild_branch,
        a->DeleteBranch_branch@ != MAIN_BRANCH@,
        schema::names_rebuild_branch(a->DeleteBranch_branch@),
{
    schema::main_is_not_reserved();
}

/// One of the commits at positions `1..n` is the given one.
pub open spec fn is_later(commits: Seq<(Seq<char>, u64)>, n: int, commit: Seq<char>) -> bool {
    exists|i: int| 1 <= i < n && (#[trigger] commits[i]).0 == commit
}

/// The oldest commit keeps its tag: only later ones are retagged or looked up.
pub proof fn oldest_commit_is_left_alone(
    commits: Seq<(Seq<char>, u64)>,
    intermediate: bool,
    n: int,
    k: int,
)
    requires
        0 <= n <= commits.len(),
        0 <= k < commits_of_kind(commits, intermediate, n).len(),
    ensures
        is_later(commits, n, commits_of_kind(commits, intermediate, n)[k]),
    decreases n,
{
    let rest = commits_of_kind(commits, intermediate, n - 1);
    let all = commits_of_kind(commits, intermediate, n);
    if k < rest.len() {
        assert(all[k] == rest[k]);
        oldest_commit_is_left_alone(commits, intermediate, n - 1, k);
        let i = choose|i: int| 1 <= i < n - 1 && (#[trigger] commits[i]).0 == rest[k];
        assert(commits[i].0 == all[k]);
    } else {
        assert(commits[n - 1].0 == all[k]);
    }
}

impl DeltaFork {
    /// A replay in good order.
    pub closed spec fn well_formed(&self) -> bool {
        in_good_order(self@)
    }

    /// What a well-formed replay is.
    pub proof fn well_formed_is_good_order(&self)
        ensures
            self.well_formed() <==> in_good_order(self@),
    {
    }

    /// Starts a replay of the indexed commits of a dataset on the rebuild branch of an epoch; `None`
    /// when there are at most two commits.
    pub fn start(commits: &Vec<CommitVersion>, epoch: u64) -> (r: Option<DeltaFork>)
        ensures
            r is None <==> commits@.len() <= 2,
            r matches Some(f) ==> {
                &&& f.well_formed()
                &&& f@.phase == ForkPhase::Create
                &&& f@.rebuild_branch == schema::rebuild_branch_name(epoch as nat)
                &&& exists|p: Seq<int>|
                    sorts_commits(schema::models(commits@), p, f@.commits)
            },
            r matches Some(f) ==> f@.commits.len() == commits@.len() && is_by_version(f@.commits),
    {
        if commits.len() <= 2 {
            return None;
        }
        let sorted = sort_commits(commits);
        let rebuild_branch = schema::compact_rebuild_branch_name(epoch);
        let f = DeltaFork {
            commits: sorted,
            rebuild_branch,
            phase: ForkPhase::Create,
            retags: Vec::new(),
            boundaries: Vec::new(),
            older: Vec::new(),
            retagged: 0,
        };
        proof {
            schema::rebuild_branches_are_reserved(epoch as nat);
            assert(commits_in(f@.retags) =~= commits_of_kind(f@.commits, true, 1));
            assert(commits_in(f@.boundaries) =~= commits_of_kind(f@.commits, false, 1));
            assert(f@.commits == schema::models(sorted@));
        }
        Some(f)
    }

    /// The phase of the replay.
    pub fn phase(&self) -> (r: ForkPhase)
        ensures
            r == self@.phase,
    {
        self.phase
    }

    /// The number of commits, and of those retagged so far.
    pub fn counts(&self) -> (r: (usize, usize))
        ensures
            r.0 == self@.commits.len(),
            r.1 == self@.retagged,
    {
        (self.commits.len(), self.retagged)
    }

    /// What to do next.
    pub fn action(&self) -> (a: ForkAction)
        requires
            self.well_formed(),
        ensures
            calls_for(self@, a),
    {
        proof {
            assert(self@.commits.len() == self.commits@.len());
            assert(self@.retags.len() == self.retags@.len());
            assert(self@.boundaries.len() == self.boundaries@.len());
            assert(self@.older.len() == self.older@.len());
        }
        match self.phase {
            ForkPhase::Create => {
                assert(self@.commits[0] == self.commits@[0]@);
                ForkAction::CreateBranch {
                    branch: self.rebuild_branch.clone(),
                    from_version: self.commits[0].version,
                }
            },
            ForkPhase::Replay(i) => {
                assert(self@.commits[i - 1] == self.commits@[i - 1]@);
                assert(self@.commits[i as int] == self.commits@[i as int]@);
                ForkAction::ApplyDelta {
                    from_commit: self.commits[i - 1].commit.clone(),
                    to_commit: self.commits[i].commit.clone(),
                }
            },
            ForkPhase::Index(_) => ForkAction::IndexText,
            ForkPhase::Abandon => ForkAction::DeleteBranch { branch: self.rebuild_branch.clone() },
            ForkPhase::Retag(k) => {
                assert(self@.retags[k as int] == self.retags@[k as int]@);
                ForkAction::MoveTag {
                    commit: self.retags[k].commit.clone(),
                    version: self.retags[k].version,
                }
            },
            ForkPhase::Inspect(k) => {
                assert(self@.boundaries[k as int] == self.boundaries@[k as int]@);
                ForkAction::LookUpTag { commit: self.boundaries[k].commit.clone() }
            },
            ForkPhase::Migrate(k) => {
                assert(self@.boundaries[k as int] == self.boundaries@[k as int]@);
                ForkAction::MoveTag {
                    commit: self.boundaries[k].commit.clone(),
                    version: self.boundaries[k].version,
                }
            },
            ForkPhase::List => ForkAction::ListBranches,
            ForkPhase::Delete(k) => {
                assert(self@.older[k as int] == self.older@[k as int]@);
                ForkAction::DeleteBranch { branch: self.older[k].clone() }
            },
            ForkPhase::Sweep => ForkAction::SweepTags,
            ForkPhase::Refresh => ForkAction::RefreshCache,
            ForkPhase::Finished => ForkAction::Stop,
            ForkPhase::Failed => ForkAction::Stop,
        }
    }

    fn phase_after_inspect(&self, next_index: usize) -> (r: ForkPhase)
        ensures
            r == after_inspect(self@, next_index - 1),
    {
        assert(self@.boundaries.len() == self.boundaries@.len());
        if next_index < self.boundaries.len() {
            ForkPhase::Inspect(next_index)
        } else {
            ForkPhase::List
        }
    }

    fn phase_after_retag(&self, next_index: usize) -> (r: ForkPhase)
        ensures
            r == after_retag(self@, next_index - 1),
    {
        assert(self@.retags.len() == self.retags@.len());
        if next_index < self.retags.len() {
            ForkPhase::Retag(next_index)
        } else {
            self.phase_after_inspect(0)
        }
    }

    fn phase_after_replay(&self, next_index: usize) -> (r: ForkPhase)
        ensures
            r == after_replay(self@, next_index - 1),
    {
        assert(self@.commits.len() == self.commits@.len());
        if next_index < self.commits.len() {
            ForkPhase::Replay(next_index)
        } else {
            self.phase_after_retag(0)
        }
    }

    fn phase_after_delete(&self, next_index: usize) -> (r: ForkPhase)
        ensures
            r == after_delete(self@, next_index - 1),
    {
        assert(self@.older.len() == self.older@.len());
        if next_index < self.older.len() {
            ForkPhase::Delete(next_index)
        } else {
            ForkPhase::Sweep
        }
    }

    /// Takes in what came of the last action.
    pub fn advance(&mut self, event: ForkEvent)
        requires
            old(self).well_formed(),
        ensures
            final(self)@ == next(old(self)@, event),
            final(self).well_formed(),
    {
        let ghost m = self@;
        proof {
            assert(self@.commits.len() == self.commits@.len());
            assert(self@.retags.len() == self.retags@.len());
            assert(self@.boundaries.len() == self.boundaries@.len());
            assert(self@.older.len() == self.older@.len());
            assert(self.commits.len() <= usize::MAX);
            assert(self.retags.len() <= usize::MAX);
            assert(self.boundaries.len() <= usize::MAX);
            assert(self.older.len() <= usize::MAX);
            match &event {
                ForkEvent::Branches(list) => {
                    assert(list.len() <= usize::MAX);
                },
                _ => {},
            }
            events_keep_good_order(m, event);
        }
        let total = self.commits.len();
        match self.phase {
            ForkPhase::Create => match event {
                ForkEvent::Done => {
                    self.phase = ForkPhase::Replay(1);
                },
                _ => {
                    self.phase = ForkPhase::Failed;
                },
            },
            ForkPhase::Replay(i) => match event {
                ForkEvent::Version(v) => {
                    if !is_boundary_position(i) || i == total - 1 {
                        self.phase = ForkPhase::Index(i);
                    } else {
                        let commit = self.commits[i].commit.clone();
                        let ghost before = self.boundaries@;
                        self.boundaries.push(CommitVersion { commit, version: v });
                        proof {
                            assert(m.commits[i as int] == self.commits@[i as int]@);
                            assert(schema::models(self.boundaries@) =~= schema::models(
                                before,
                            ).push((m.commits[i as int].0, v)));
                        }
                        self.phase = self.phase_after_replay(i + 1);
                    }
                },
                _ => {
                    self.phase = ForkPhase::Abandon;
                },
            },
            ForkPhase::Index(i) => match event {
                ForkEvent::Version(v) => {
                    let commit = self.commits[i].commit.clone();
                    let ghost before = self.retags@;
                    self.retags.push(CommitVersion { commit, version: v });
                    proof {
                        assert(m.commits[i as int] == self.commits@[i as int]@);
                        assert(schema::models(self.retags@) =~= schema::models(before).push(
                            (m.commits[i as int].0, v),
                        ));
                    }
                    self.phase = self.phase_after_replay(i + 1);
                },
                _ => {
                    self.phase = ForkPhase::Abandon;
                },
            },
            ForkPhase::Abandon => {
                self.phase = ForkPhase::Failed;
            },
            ForkPhase::Retag(k) => match event {
                ForkEvent::Done => {
                    self.retagged = self.retagged + 1;
                    self.phase = self.phase_after_retag(k + 1);
                },
                _ => {
                    self.phase = ForkPhase::Failed;
                },
            },
            ForkPhase::Inspect(k) => match event {
                ForkEvent::TagBranch(b) => {
                    let migrate: bool = match &b {
                        Some(name) => schema::is_compact_rebuild_branch(name.as_str()) && !(*name
                            == self.rebuild_branch),
                        None => false,
                    };
                    if migrate {
                        self.phase = ForkPhase::Migrate(k);
                    } else {
                        self.phase = self.phase_after_inspect(k + 1);
                    }
                },
                _ => {
                    self.phase = ForkPhase::Failed;
                },
            },
            ForkPhase::Migrate(k) => match event {
                ForkEvent::Done => {
                    self.phase = self.phase_after_inspect(k + 1);
                },
                _ => {
                    self.phase = ForkPhase::Failed;
                },
            },
            ForkPhase::List => match event {
                ForkEvent::Branches(list) => {
                    self.older = older_rebuild_branches(&list, self.rebuild_branch.as_str());
                    self.phase = self.phase_after_delete(0);
                },
                _ => {
                    self.phase = ForkPhase::Failed;
                },
            },
            ForkPhase::Delete(k) => match event {
                ForkEvent::Done => {
                    self.phase = self.phase_after_delete(k + 1);
                },
                _ => {
                    self.phase = ForkPhase::Failed;
                },
            },
            ForkPhase::Sweep => {
                self.phase = ForkPhase::Refresh;
            },
            ForkPhase::Refresh => match event {
                ForkEvent::Done => {
                    self.phase = ForkPhase::Finished;
                },
                _ => {
                    self.phase = ForkPhase::Failed;
                },
            },
            ForkPhase::Finished => {},
            ForkPhase::Failed => {},
        }
    }
}

/// The rebuild branches other than the given one.
pub fn older_rebuild_branches(branches: &Vec<String>, rebuild_branch: &str) -> (r: Vec<String>)
    ensures
        grouping::views(r@) == older_branches(branches@, rebuild_branch@, branches@.len() as int),
{
    let current = rebuild_branch.to_owned();
    let mut out: Vec<String> = Vec::new();
    let mut i: usize = 0;
    assert(grouping::views(out@) =~= Seq::<Seq<char>>::empty());
    while i < branches.len()
        invariant
            i <= branches.len(),
            current@ == rebuild_branch@,
            grouping::views(out@) == older_branches(branches@, rebuild_branch@, i as int),
        decreases branches.len() - i,
    {
        if schema::is_compact_rebuild_branch(branches[i].as_str()) && !(branches[i] == current) {
            let ghost before = out@;
            out.push(branches[i].clone());
            assert(grouping::views(out@) =~= grouping::views(before).push(branches@[i as int]@));
        }
        i = i + 1;
    }
    out
}

/// Boundaries are 0 and the powers of three from 3 on: tripling a position keeps it on or off a
/// boundary, but for 1, which is none and whose triple is one; and what three does not divide is none.
pub proof fn boundaries_are_powers_of_three(i: int)
    ensures
        is_boundary(0),
        !is_boundary(1),
        is_boundary(3),
        i > 1 ==> (is_boundary(3 * i) <==> is_boundary(i)),
        i > 0 && i % 3 != 0 ==> !is_boundary(i),
        i < 0 ==> !is_boundary(i),
{
    lemma_pow1(3);
    if i > 1 {
        if is_boundary(i) {
            let e = choose|e: nat| #[trigger] pow(3, e) == i;
            reveal(pow);
            assert(pow(3, e + 1) == 3 * pow(3, e));
        }
        if is_boundary(3 * i) {
            let e = choose|e: nat| #[trigger] pow(3, e) == 3 * i;
            lemma_pow0(3);
            assert(e > 0);
            reveal(pow);
            assert(pow(3, e) == 3 * pow(3, (e - 1) as nat));
            assert(pow(3, (e - 1) as nat) == i);
        }
    }
    if i > 1 && i % 3 != 0 && is_boundary(i) {
        let e = choose|e: nat| #[trigger] pow(3, e) == i;
        lemma_pow0(3);
        assert(e > 0);
        reveal(pow);
        assert(pow(3, e) == 3 * pow(3, (e - 1) as nat));
    }
}

/// Every commit off the boundaries, and the latest in any case, is retagged to the version of the
/// nearest boundary in front of it; a boundary commit that is not the latest keeps its version, and
/// so does the oldest.
pub proof fn every_intermediate_commit_is_retagged(
    sorted: Seq<(Seq<char>, u64)>,
    n: int,
    i: int,
    b: int,
)
    requires
        sorted.len() > 2,
        0 <= b < i < n <= sorted.len(),
        !is_boundary(i) || i == sorted.len() - 1,
        is_boundary(b),
        forall|j: int| b < j < i ==> !is_boundary(j),
    ensures
        boundary_retags(sorted, n).contains((sorted[i].0, sorted[i].1, sorted[b].1)),
    decreases n,
{
    let all = boundary_retags(sorted, n);
    if i == n - 1 {
        boundary_below_is_nearest(i - 1);
        assert(boundary_below(i - 1) == b) by {
            if boundary_below(i - 1) < b {
                assert(!is_boundary(b));
            }
        }
        assert(all[all.len() - 1] == (sorted[i].0, sorted[i].1, sorted[b].1));
    } else {
        every_intermediate_commit_is_retagged(sorted, n - 1, i, b);
        let few = boundary_retags(sorted, n - 1);
        let k = choose|k: int|
            0 <= k < few.len() && few[k] == (sorted[i].0, sorted[i].1, sorted[b].1);
        assert(all[k] == few[k]);
    }
}

/// Only commits off the boundaries, and the latest, are retagged.
pub proof fn boundary_commits_keep_their_versions(
    sorted: Seq<(Seq<char>, u64)>,
    n: int,
    r: (Seq<char>, u64, u64),
)
    requires
        sorted.len() > 2,
        0 <= n <= sorted.len(),
        boundary_retags(sorted, n).contains(r),
    ensures
        exists|i: int|
            0 < i < n && (!is_boundary(i) || i == sorted.len() - 1) && (#[trigger] sorted[i]).0
                == r.0 && sorted[i].1 == r.1,
    decreases n,
{
    let all = boundary_retags(sorted, n);
    let k = choose|k: int| 0 <= k < all.len() && all[k] == r;
    let few = boundary_retags(sorted, n - 1);
    if k < few.len() {
        assert(few[k] == r);
        boundary_commits_keep_their_versions(sorted, n - 1, r);
        let i = choose|i: int|
            0 < i < n - 1 && (!is_boundary(i) || i == sorted.len() - 1) && (
            #[trigger] sorted[i]).0 == r.0 && sorted[i].1 == r.1;
        assert(sorted[i].0 == r.0);
    } else {
        assert(sorted[n - 1].0 == r.0);
        assert(is_boundary(0));
    }
}

/// A replay goes through the commits in the order of their versions, one after another: it starts on
/// a branch off the oldest commit's version, brings in each commit by what changed since the one
/// before it, and passes on to the next, or to the tags behind the last; a commit that is off the
/// boundaries has its text indexed before.
pub proof fn a_replay_goes_commit_by_commit(m: ForkModel, a: ForkAction, e: ForkEvent)
    requires
        in_good_order(m),
        m.commits.len() <= usize::MAX,
        calls_for(m, a),
    ensures
        m.phase is Create ==> a is CreateBranch && a->CreateBranch_branch@ == m.rebuild_branch
            && a->from_version == m.commits[0].1,
        m.phase is Create && e is Done ==> next(m, e).phase == ForkPhase::Replay(1),
        m.phase matches ForkPhase::Replay(i) ==> {
            &&& a is ApplyDelta
            &&& a->from_commit@ == m.commits[i - 1].0
            &&& a->to_commit@ == m.commits[i as int].0
            &&& e is Version && (!is_boundary(i as int) || i == m.commits.len() - 1)
                ==> next(m, e).phase == ForkPhase::Index(i)
            &&& e is Version && is_boundary(i as int) && i < m.commits.len() - 1
                ==> next(m, e).phase == ForkPhase::Replay((i + 1) as usize)
        },
        m.phase matches ForkPhase::Index(i) ==> {
            &&& a is IndexText
            &&& e is Version && i < m.commits.len() - 1 ==> next(m, e).phase == ForkPhase::Replay(
                (i + 1) as usize,
            )
            &&& e is Version && i == m.commits.len() - 1 ==> next(m, e).phase == ForkPhase::Retag(0)
        },
        (m.phase is Create || m.phase is Replay || m.phase is Index) && e is Failed
            ==> next(m, e).phase is Failed || next(m, e).phase is Abandon,
{
}

/// A replayed commit is put down with the version that its last step gave: the one that its text was
/// indexed at where it is off the boundaries, else the one that it was replayed at. Nothing else
/// changes what was put down before.
pub proof fn replayed_commits_are_put_down_at_their_version(m: ForkModel, v: u64)
    requires
        in_good_order(m),
        m.commits.len() <= usize::MAX,
    ensures
        m.phase matches ForkPhase::Index(i) ==> next(m, ForkEvent::Version(v)).retags
            == m.retags.push((m.commits[i as int].0, v)) && next(
            m,
            ForkEvent::Version(v),
        ).boundaries == m.boundaries,
        m.phase matches ForkPhase::Replay(i) ==> (if is_boundary(i as int) && i < m.commits.len()
            - 1 {
            next(m, ForkEvent::Version(v)).boundaries == m.boundaries.push(
                (m.commits[i as int].0, v),
            ) && next(m, ForkEvent::Version(v)).retags == m.retags
        } else {
            next(m, ForkEvent::Version(v)).boundaries == m.boundaries && next(
                m,
                ForkEvent::Version(v),
            ).retags == m.retags
        }),
{
}

/// Behind the replay every tag that was put down is seen to, in order and once: each commit off the
/// boundaries is moved to the version put down for it; each boundary commit is looked up, and moved
/// to its own where it lies on another rebuild branch and only there.
pub proof fn every_tag_is_seen_to(m: ForkModel, a: ForkAction, e: ForkEvent)
    requires
        in_good_order(m),
        m.retags.len() <= usize::MAX,
        m.boundaries.len() <= usize::MAX,
        calls_for(m, a),
    ensures
        m.phase matches ForkPhase::Retag(k) ==> {
            &&& a is MoveTag
            &&& a->MoveTag_commit@ == m.retags[k as int].0
            &&& a->version == m.retags[k as int].1
            &&& e is Done && k + 1 < m.retags.len() ==> next(m, e).phase == ForkPhase::Retag(
                (k + 1) as usize,
            )
            &&& e is Done && k + 1 == m.retags.len() && m.boundaries.len() > 0 ==> next(m, e).phase
                == ForkPhase::Inspect(0)
            &&& e is Done ==> next(m, e).retagged == m.retagged + 1
            &&& !(e is Done) ==> next(m, e).phase is Failed
        },
        m.phase matches ForkPhase::Inspect(k) ==> {
            &&& a is LookUpTag
            &&& e matches ForkEvent::TagBranch(b) ==> (next(m, e).phase == ForkPhase::Migrate(k)
                <==> b is Some && ".-compact_rebuild_"@.is_prefix_of(b->0@) && b->0@
                != m.rebuild_branch)
            &&& e is TagBranch && next(m, e).phase != ForkPhase::Migrate(k) && k + 1
                < m.boundaries.len() ==> next(m, e).phase == ForkPhase::Inspect((k + 1) as usize)
        },
        m.phase matches ForkPhase::Migrate(k) ==> {
            &&& a is MoveTag
            &&& a->MoveTag_commit@ == m.boundaries[k as int].0
            &&& a->version == m.boundaries[k as int].1
            &&& e is Done && k + 1 < m.boundaries.len() ==> next(m, e).phase == ForkPhase::Inspect(
                (k + 1) as usize,
            )
        },
{
}

/// Behind the tags the older rebuild branches go, each once; then orphans are swept, the cache is
/// refreshed, and only then is the replay over.
pub proof fn a_replay_ends_with_a_sweep_and_a_refresh(m: ForkModel, a: ForkAction, e: ForkEvent)
    requires
        in_good_order(m),
        m.older.len() <= usize::MAX,
        calls_for(m, a),
    ensures
        m.phase matches ForkPhase::Delete(k) ==> {
            &&& a is DeleteBranch
            &&& a->DeleteBranch_branch@ == m.older[k as int]
            &&& e is Done && k + 1 < m.older.len() ==> next(m, e).phase == ForkPhase::Delete(
                (k + 1) as usize,
            )
            &&& e is Done && k + 1 == m.older.len() ==> next(m, e).phase is Sweep
        },
        m.phase is List ==> a is ListBranches,
        m.phase is Sweep ==> a is SweepTags && next(m, e).phase is Refresh,
        m.phase is Refresh ==> a is RefreshCache && (next(m, e).phase is Finished <==> e is Done),
        next(m, e).phase is Finished && !(m.phase is Finished) ==> m.phase is Refresh,
        next(m, e).phase is Sweep ==> m.phase is List || m.phase is Delete,
        m.phase is Finished || m.phase is Failed ==> a is Stop && next(m, e) == m,
{
}

/// The branches that a replay deletes behind its own are the rebuild branches of the dataset, all but
/// its own.
pub proof fn all_older_rebuild_branches_go(
    branches: Seq<String>,
    rebuild_branch: Seq<char>,
    n: int,
    name: Seq<char>,
)
    requires
        0 <= n <= branches.len(),
    ensures
        older_branches(branches, rebuild_branch, n).contains(name)
            <==> ".-compact_rebuild_"@.is_prefix_of(name) && name != rebuild_branch && exists|
            i: int,
        |
            0 <= i < n && (#[trigger] branches[i])@ == name,
    decreases n,
{
    let all = older_branches(branches, rebuild_branch, n);
    if n > 0 {
        all_older_rebuild_branches_go(branches, rebuild_branch, n - 1, name);
        let few = older_branches(branches, rebuild_branch, n - 1);
        let b = branches[n - 1]@;
        if few.contains(name) {
            let k = choose|k: int| 0 <= k < few.len() && few[k] == name;
            assert(all[k] == name);
        }
        if all.contains(name) {
            let k = choose|k: int| 0 <= k < all.len() && all[k] == name;
            if k < few.len() {
                assert(few[k] == name);
            } else {
                assert(b == name);
            }
        }
        if schema::names_rebuild_branch(b) && b != rebuild_branch {
            assert(all[few.len() as int] == b);
        }
    }
}

} // verus!
