//! Commit tags: resolution of commits to versions, the last indexed commit of a branch, and the tags
//! and branches that cleanup removes.

use crate::filter;
use crate::grouping;
use crate::schema;
use crate::schema::{StoreError, MAIN_BRANCH};
use vstd::prelude::*;
use vstd::string::*;

verus! {

/// A tag of a dataset. `commit` is the commit id that the tag's name stands for, absent when the
/// name is no commit tag; `branch` is absent for the default branch.
#[derive(Debug)]
pub struct TagEntry {
    pub name: String,
    pub commit: Option<String>,
    pub branch: Option<String>,
    pub version: u64,
    pub created_at: i64,
}

/// An optional text and its view.
pub open spec fn opt(s: Option<String>) -> Option<Seq<char>> {
    match s {
        Some(t) => Some(t@),
        None => None,
    }
}

/// Where a commit's snapshot lies: a version, within a branch other than the default one if given.
#[derive(Debug)]
pub struct SnapshotRef {
    pub branch: Option<String>,
    pub version: u64,
}

/// A branch name as a tag records it: absent for the default branch.
pub open spec fn recorded(branch: Seq<char>) -> Option<Seq<char>> {
    if branch == MAIN_BRANCH@ {
        None
    } else {
        Some(branch)
    }
}

/// A tag records the branch, exactly.
pub open spec fn is_on(tag: TagEntry, branch: Seq<char>) -> bool {
    opt(tag.branch) == recorded(branch)
}

/// A commit tag belongs to a branch: it records the branch, or, for the default branch, a rebuild
/// branch, where compaction moves commits of the default branch.
pub open spec fn belongs(tag: TagEntry, branch: Seq<char>) -> bool {
    &&& tag.commit is Some
    &&& is_on(tag, branch) || (branch == MAIN_BRANCH@ && tag.branch is Some
        && schema::names_rebuild_branch(tag.branch->0@))
}

/// Tag order: by creation time, then by version.
pub open spec fn not_newer(a: TagEntry, b: TagEntry) -> bool {
    a.created_at < b.created_at || (a.created_at == b.created_at && a.version <= b.version)
}

fn is_main(branch: &str) -> (r: bool)
    ensures
        r == (branch@ == MAIN_BRANCH@),
{
    branch.to_owned() == MAIN_BRANCH.to_owned()
}

fn same(a: &Option<String>, b: &Option<String>) -> (r: bool)
    ensures
        r == (opt(*a) == opt(*b)),
{
    match (a, b) {
        (None, None) => true,
        (Some(x), Some(y)) => *x == *y,
        _ => false,
    }
}

fn recorded_name(branch: &str) -> (r: Option<String>)
    ensures
        opt(r) == recorded(branch@),
{
    if is_main(branch) {
        None
    } else {
        Some(branch.to_owned())
    }
}

/// Whether a tag records the branch, exactly.
pub fn tag_is_on(tag: &TagEntry, branch: &str) -> (r: bool)
    ensures
        r == is_on(*tag, branch@),
{
    same(&tag.branch, &recorded_name(branch))
}

/// Whether a commit tag belongs to a branch.
pub fn tag_belongs(tag: &TagEntry, branch: &str) -> (r: bool)
    ensures
        r == belongs(*tag, branch@),
{
    if tag.commit.is_none() {
        return false;
    }
    if tag_is_on(tag, branch) {
        return true;
    }
    match &tag.branch {
        Some(b) => is_main(branch) && schema::is_compact_rebuild_branch(b.as_str()),
        None => false,
    }
}

/// Tag `i` is the newest of the tags that belong to a branch.
pub open spec fn is_newest(tags: Seq<TagEntry>, branch: Seq<char>, i: int) -> bool {
    &&& 0 <= i < tags.len()
    &&& belongs(tags[i], branch)
    &&& forall|j: int|
        0 <= j < tags.len() && belongs(#[trigger] tags[j], branch) ==> not_newer(tags[j], tags[i])
}

/// The last indexed commit of a branch and its version, from the dataset's tags: the most recently
/// created tag that belongs to the branch.
pub fn derive_last_indexed(tags: &Vec<TagEntry>, branch: &str) -> (r: Option<(String, u64)>)
    ensures
        r is None <==> forall|i: int|
            0 <= i < tags@.len() ==> !belongs(#[trigger] tags@[i], branch@),
        r matches Some((commit, version)) ==> exists|i: int| #[trigger]
            is_newest(tags@, branch@, i) && tags@[i].commit->0@ == commit@ && tags@[i].version
                == version,
        r matches Some((commit, version)) ==> exists|i: int|
            0 <= i < tags@.len() && (#[trigger] tags@[i]).commit is Some && tags@[i].commit->0@
                == commit@ && tags@[i].version == version,
{
    let mut best: Option<usize> = None;
    let mut i: usize = 0;
    while i < tags.len()
        invariant
            i <= tags.len(),
            match best {
                None => forall|j: int| 0 <= j < i ==> !belongs(#[trigger] tags@[j], branch@),
                Some(b) => b < i && belongs(tags@[b as int], branch@) && forall|j: int|
                    0 <= j < i && belongs(#[trigger] tags@[j], branch@) ==> not_newer(
                        tags@[j],
                        tags@[b as int],
                    ),
            },
        decreases tags.len() - i,
    {
        if tag_belongs(&tags[i], branch) {
            match best {
                None => {
                    best = Some(i);
                },
                Some(b) => {
                    let newer = tags[b].created_at < tags[i].created_at || (tags[b].created_at
                        == tags[i].created_at && tags[b].version <= tags[i].version);
                    if newer {
                        best = Some(i);
                    }
                },
            }
        }
        i = i + 1;
    }
    match best {
        None => None,
        Some(b) => {
            assert(is_newest(tags@, branch@, b as int));
            match &tags[b].commit {
                Some(c) => Some((c.clone(), tags[b].version)),
                None => None,
            }
        },
    }
}

/// The number of tags among the first `n` that belong to a branch.
pub open spec fn count_belonging(tags: Seq<TagEntry>, branch: Seq<char>, n: int) -> nat
    decreases n,
{
    if n <= 0 {
        0
    } else {
        count_belonging(tags, branch, n - 1) + if belongs(tags[n - 1], branch) {
            1nat
        } else {
            0
        }
    }
}

/// The number of indexed commits of a branch.
pub fn count_branch_commits(tags: &Vec<TagEntry>, branch: &str) -> (r: usize)
    ensures
        r == count_belonging(tags@, branch@, tags@.len() as int),
{
    let mut count: usize = 0;
    let mut i: usize = 0;
    while i < tags.len()
        invariant
            i <= tags.len(),
            count <= i,
            count == count_belonging(tags@, branch@, i as int),
        decreases tags.len() - i,
    {
        if tag_belongs(&tags[i], branch) {
            count = count + 1;
        }
        i = i + 1;
    }
    count
}

/// A branch has indexed commits exactly when it has a last indexed one.
pub proof fn last_indexed_iff_commits(tags: Seq<TagEntry>, branch: Seq<char>, n: int)
    requires
        0 <= n <= tags.len(),
    ensures
        count_belonging(tags, branch, n) == 0 <==> forall|i: int|
            0 <= i < n ==> !belongs(#[trigger] tags[i], branch),
    decreases n,
{
    if n > 0 {
        last_indexed_iff_commits(tags, branch, n - 1);
        if belongs(tags[n - 1], branch) {
            assert(!(forall|i: int| 0 <= i < n ==> !belongs(#[trigger] tags[i], branch)));
        }
    }
}

/// Tag `i` is the first with the name.
pub open spec fn is_named(tags: Seq<TagEntry>, name: Seq<char>, i: int) -> bool {
    &&& 0 <= i < tags.len()
    &&& tags[i].name@ == name
    &&& forall|j: int| 0 <= j < i ==> (#[trigger] tags[j]).name@ != name
}

/// No tag has the name.
pub open spec fn is_unnamed(tags: Seq<TagEntry>, name: Seq<char>) -> bool {
    forall|j: int| 0 <= j < tags.len() ==> (#[trigger] tags[j]).name@ != name
}

fn find_tag(tags: &Vec<TagEntry>, name: &str) -> (r: Option<usize>)
    ensures
        match r {
            Some(i) => is_named(tags@, name@, i as int),
            None => is_unnamed(tags@, name@),
        },
{
    let wanted = name.to_owned();
    let mut i: usize = 0;
    while i < tags.len()
        invariant
            i <= tags.len(),
            wanted@ == name@,
            forall|j: int| 0 <= j < i ==> (#[trigger] tags@[j]).name@ != name@,
        decreases tags.len() - i,
    {
        if tags[i].name == wanted {
            return Some(i);
        }
        i = i + 1;
    }
    None
}

/// The name stands for a version: the first tag with the name points at it.
pub open spec fn resolves_to(tags: Seq<TagEntry>, name: Seq<char>, version: u64) -> bool {
    exists|i: int| #[trigger] is_named(tags, name, i) && tags[i].version == version
}

/// The version that a commit's tag points at; `None` when the commit is not indexed.
pub fn resolve_tag(tags: &Vec<TagEntry>, tag: &str) -> (r: Option<u64>)
    ensures
        r is None <==> is_unnamed(tags@, tag@),
        r matches Some(v) ==> resolves_to(tags@, tag@, v),
        r matches Some(v) ==> exists|i: int|
            0 <= i < tags@.len() && (#[trigger] tags@[i]).name@ == tag@ && tags@[i].version == v,
{
    match find_tag(tags, tag) {
        Some(i) => Some(tags[i].version),
        None => None,
    }
}

/// Where the snapshot of a tagged commit lies. An untagged commit is not indexed.
pub fn locate_snapshot(tags: &Vec<TagEntry>, tag: &str) -> (r: Result<SnapshotRef, StoreError>)
    ensures
        r is Ok <==> !is_unnamed(tags@, tag@),
        r matches Ok(s) ==> exists|i: int| #[trigger]
            is_named(tags@, tag@, i) && tags@[i].version == s.version && opt(tags@[i].branch)
                == opt(s.branch),
        r matches Err(e) ==> e.message() == "commit not indexed: tag '"@ + tag@ + "' not found"@,
        r matches Ok(s) ==> resolves_to(tags@, tag@, s.version),
        r matches Ok(s) ==> exists|i: int|
            0 <= i < tags@.len() && (#[trigger] tags@[i]).name@ == tag@ && (tags@[i].branch is Some
                <==> s.branch is Some),
{
    match find_tag(tags, tag) {
        Some(i) => {
            let branch: Option<String> = match &tags[i].branch {
                Some(b) => Some(b.clone()),
                None => None,
            };
            Ok(SnapshotRef { branch, version: tags[i].version })
        },
        None => Err(schema::internal("commit not indexed: tag '", tag, "' not found")),
    }
}

/// A tag that is made later leaves the snapshot of an earlier commit alone: the commit's tag is
/// found where it was, with its version and branch.
pub proof fn later_tags_leave_snapshots_alone(
    tags: Seq<TagEntry>,
    later: TagEntry,
    tag: Seq<char>,
    i: int,
)
    requires
        is_named(tags, tag, i),
    ensures
        is_named(tags.push(later), tag, i),
        tags.push(later)[i] == tags[i],
{
    let all = tags.push(later);
    assert forall|j: int| 0 <= j < i implies (#[trigger] all[j]).name@ != tag by {
        assert(all[j] == tags[j]);
    }
}

/// Wherever the tag of another commit is listed, a commit's tag is still found, and is the same.
pub proof fn other_tags_leave_snapshots_alone(
    tags: Seq<TagEntry>,
    other: TagEntry,
    at: int,
    tag: Seq<char>,
    i: int,
)
    requires
        is_named(tags, tag, i),
        0 <= at <= tags.len(),
        other.name@ != tag,
    ensures
        ({
            let moved = if i < at {
                i
            } else {
                i + 1
            };
            &&& is_named(tags.insert(at, other), tag, moved)
            &&& tags.insert(at, other)[moved] == tags[i]
        }),
{
    let all = tags.insert(at, other);
    let moved = if i < at {
        i
    } else {
        i + 1
    };
    assert(all[moved] == tags[i]);
    assert forall|j: int| 0 <= j < moved implies (#[trigger] all[j]).name@ != tag by {
        if j < at {
            assert(all[j] == tags[j]);
        } else if j > at {
            assert(all[j] == tags[j - 1]);
        }
    }
}

/// A commit without a tag has no snapshot, and gets none from the tags of others.
pub proof fn untagged_commits_have_no_snapshot(
    tags: Seq<TagEntry>,
    other: TagEntry,
    tag: Seq<char>,
)
    requires
        is_unnamed(tags, tag),
        other.name@ != tag,
    ensures
        is_unnamed(tags.push(other), tag),
{
    let all = tags.push(other);
    assert forall|j: int| 0 <= j < all.len() implies (#[trigger] all[j]).name@ != tag by {
        if j < tags.len() {
            assert(all[j] == tags[j]);
        }
    }
}

/// The failure to search a domain without a dataset.
pub fn no_dataset(domain: &str) -> (e: StoreError)
    ensures
        e.message() == "commit not indexed: domain '"@ + domain@ + "' has no dataset"@,
{
    schema::internal("commit not indexed: domain '", domain, "' has no dataset")
}

/// The version that an assignment tags its target with: that of the source commit, which must be
/// indexed.
pub fn assigned_version(source: Option<u64>, source_commit: &str) -> (r: Result<u64, StoreError>)
    ensures
        match r {
            Ok(v) => source == Some(v),
            Err(e) => source is None && e.message() == "cannot assign: source commit '"@
                + source_commit@ + "' is not indexed"@,
        },
        r is Ok <==> source is Some,
        source matches Some(v) ==> r->Ok_0 == v,
{
    match source {
        Some(v) => Ok(v),
        None => Err(
            schema::internal("cannot assign: source commit '", source_commit, "' is not indexed"),
        ),
    }
}

/// A name stands for one version at most.
pub proof fn names_resolve_once(tags: Seq<TagEntry>, name: Seq<char>, v: u64, w: u64)
    requires
        resolves_to(tags, name, v),
        resolves_to(tags, name, w),
    ensures
        v == w,
{
    let i = choose|i: int| #[trigger] is_named(tags, name, i) && tags[i].version == v;
    let j = choose|j: int| #[trigger] is_named(tags, name, j) && tags[j].version == w;
    assert(i == j);
}

/// An assignment is a pointer: wherever the target's tag is listed once it is made at the source's
/// version, source and target stand for that version, and every other commit for what it stood for.
pub proof fn assigned_commits_resolve_alike(
    tags: Seq<TagEntry>,
    target: TagEntry,
    at: int,
    source: Seq<char>,
    other: Seq<char>,
    v: u64,
)
    requires
        resolves_to(tags, source, target.version),
        is_unnamed(tags, target.name@),
        0 <= at <= tags.len(),
        other != target.name@,
    ensures
        resolves_to(tags.insert(at, target), source, target.version),
        resolves_to(tags.insert(at, target), target.name@, target.version),
        resolves_to(tags, other, v) ==> resolves_to(tags.insert(at, target), other, v),
{
    let all = tags.insert(at, target);
    let i = choose|i: int| #[trigger]
        is_named(tags, source, i) && tags[i].version == target.version;
    assert(tags[i].name@ != target.name@);
    other_tags_leave_snapshots_alone(tags, target, at, source, i);
    assert forall|j: int| 0 <= j < at implies (#[trigger] all[j]).name@ != target.name@ by {
        assert(all[j] == tags[j]);
    }
    assert(is_named(all, target.name@, at));
    if resolves_to(tags, other, v) {
        let k = choose|k: int| #[trigger] is_named(tags, other, k) && tags[k].version == v;
        other_tags_leave_snapshots_alone(tags, target, at, other, k);
    }
}

/// The commit tags among the first `n`, with their versions.
pub open spec fn commit_versions_of(tags: Seq<TagEntry>, n: int) -> Seq<(Seq<char>, u64)>
    decreases n,
{
    if n <= 0 {
        Seq::empty()
    } else if tags[n - 1].commit is Some {
        commit_versions_of(tags, n - 1).push((tags[n - 1].commit->0@, tags[n - 1].version))
    } else {
        commit_versions_of(tags, n - 1)
    }
}

/// A commit and the version it is tagged at.
#[derive(Debug)]
pub struct CommitVersion {
    pub commit: String,
    pub version: u64,
}

impl View for CommitVersion {
    type V = (Seq<char>, u64);

    open spec fn view(&self) -> (Seq<char>, u64) {
        (self.commit@, self.version)
    }
}

/// The indexed commits of a dataset with their versions; tags that name no commit are passed over.
pub fn list_commit_versions(tags: &Vec<TagEntry>) -> (r: Vec<CommitVersion>)
    ensures
        schema::models(r@) == commit_versions_of(tags@, tags@.len() as int),
{
    let mut out: Vec<CommitVersion> = Vec::new();
    let mut i: usize = 0;
    assert(schema::models(out@) =~= Seq::<(Seq<char>, u64)>::empty());
    while i < tags.len()
        invariant
            i <= tags.len(),
            schema::models(out@) == commit_versions_of(tags@, i as int),
        decreases tags.len() - i,
    {
        match &tags[i].commit {
            Some(c) => {
                let ghost before = out@;
                out.push(CommitVersion { commit: c.clone(), version: tags[i].version });
                assert(schema::models(out@) =~= schema::models(before).push(out@.last()@));
            },
            None => {},
        }
        i = i + 1;
    }
    out
}

/// A tag is orphaned: it records a branch that does not exist.
pub open spec fn is_orphaned(tag: TagEntry, branches: Seq<String>) -> bool {
    tag.branch is Some && !filter::lists(branches, tag.branch->0@)
}

/// The names of the orphaned tags among the first `n`.
pub open spec fn orphans(tags: Seq<TagEntry>, branches: Seq<String>, n: int) -> Seq<Seq<char>>
    decreases n,
{
    if n <= 0 {
        Seq::empty()
    } else if is_orphaned(tags[n - 1], branches) {
        orphans(tags, branches, n - 1).push(tags[n - 1].name@)
    } else {
        orphans(tags, branches, n - 1)
    }
}

/// Whether a list of strings holds a text.
pub fn list_has(list: &Vec<String>, s: &str) -> (r: bool)
    ensures
        r == filter::lists(list@, s@),
{
    let wanted = s.to_owned();
    let mut i: usize = 0;
    while i < list.len()
        invariant
            i <= list.len(),
            wanted@ == s@,
            forall|j: int| 0 <= j < i ==> (#[trigger] list@[j])@ != s@,
        decreases list.len() - i,
    {
        if list[i] == wanted {
            assert(list@[i as int]@ == s@);
            return true;
        }
        i = i + 1;
    }
    false
}

/// Whether a tag is orphaned.
pub fn tag_is_orphaned(tag: &TagEntry, branches: &Vec<String>) -> (r: bool)
    ensures
        r == is_orphaned(*tag, branches@),
{
    match &tag.branch {
        Some(b) => !list_has(branches, b.as_str()),
        None => false,
    }
}

/// The names of the tags that record a branch that does not exist.
pub fn orphaned_tags(tags: &Vec<TagEntry>, branches: &Vec<String>) -> (r: Vec<String>)
    ensures
        grouping::views(r@) == orphans(tags@, branches@, tags@.len() as int),
{
    let mut out: Vec<String> = Vec::new();
    let mut i: usize = 0;
    assert(grouping::views(out@) =~= Seq::<Seq<char>>::empty());
    while i < tags.len()
        invariant
            i <= tags.len(),
            grouping::views(out@) == orphans(tags@, branches@, i as int),
        decreases tags.len() - i,
    {
        if tag_is_orphaned(&tags[i], branches) {
            let ghost before = out@;
            out.push(tags[i].name.clone());
            assert(grouping::views(out@) =~= grouping::views(before).push(tags@[i as int].name@));
        }
        i = i + 1;
    }
    out
}

/// Some tag records the branch.
pub open spec fn is_tagged(tags: Seq<TagEntry>, branch: Seq<char>) -> bool {
    exists|i: int| 0 <= i < tags.len() && opt((#[trigger] tags[i]).branch) == Some(branch)
}

/// A rebuild branch that no tag records.
pub open spec fn is_stale(branch: Seq<char>, tags: Seq<TagEntry>) -> bool {
    schema::names_rebuild_branch(branch) && !is_tagged(tags, branch)
}

/// The rebuild branches among the first `n` that no tag records.
pub open spec fn stale(branches: Seq<String>, tags: Seq<TagEntry>, n: int) -> Seq<Seq<char>>
    decreases n,
{
    if n <= 0 {
        Seq::empty()
    } else if is_stale(branches[n - 1]@, tags) {
        stale(branches, tags, n - 1).push(branches[n - 1]@)
    } else {
        stale(branches, tags, n - 1)
    }
}

/// Whether some tag records the branch.
pub fn branch_is_tagged(tags: &Vec<TagEntry>, branch: &str) -> (r: bool)
    ensures
        r == is_tagged(tags@, branch@),
{
    let wanted: Option<String> = Some(branch.to_owned());
    let mut i: usize = 0;
    while i < tags.len()
        invariant
            i <= tags.len(),
            opt(wanted) == Some(branch@),
            forall|j: int| 0 <= j < i ==> opt((#[trigger] tags@[j]).branch) != Some(branch@),
        decreases tags.len() - i,
    {
        if same(&tags[i].branch, &wanted) {
            assert(opt(tags@[i as int].branch) == Some(branch@));
            return true;
        }
        i = i + 1;
    }
    false
}

/// The rebuild branches that no tag records.
pub fn stale_rebuild_branches(branches: &Vec<String>, tags: &Vec<TagEntry>) -> (r: Vec<String>)
    ensures
        grouping::views(r@) == stale(branches@, tags@, branches@.len() as int),
{
    let mut out: Vec<String> = Vec::new();
    let mut i: usize = 0;
    assert(grouping::views(out@) =~= Seq::<Seq<char>>::empty());
    while i < branches.len()
        invariant
            i <= branches.len(),
            grouping::views(out@) == stale(branches@, tags@, i as int),
        decreases branches.len() - i,
    {
        let b = branches[i].as_str();
        if schema::is_compact_rebuild_branch(b) && !branch_is_tagged(tags, b) {
            let ghost before = out@;
            out.push(branches[i].clone());
            assert(grouping::views(out@) =~= grouping::views(before).push(branches@[i as int]@));
        }
        i = i + 1;
    }
    out
}

/// Cleanup only ever removes rebuild branches that no tag records; never the default branch.
pub proof fn live_branches_are_kept(branches: Seq<String>, tags: Seq<TagEntry>, n: int, k: int)
    requires
        0 <= n <= branches.len(),
        0 <= k < stale(branches, tags, n).len(),
    ensures
        is_stale(stale(branches, tags, n)[k], tags),
        stale(branches, tags, n)[k] != MAIN_BRANCH@,
    decreases n,
{
    schema::main_is_not_reserved();
    if n > 0 {
        let rest = stale(branches, tags, n - 1);
        if k < rest.len() {
            live_branches_are_kept(branches, tags, n - 1, k);
        }
    }
}

/// Every rebuild branch that no tag records is removed.
pub proof fn stale_branches_are_found(branches: Seq<String>, tags: Seq<TagEntry>, n: int, i: int)
    requires
        0 <= i < n <= branches.len(),
        is_stale(branches[i]@, tags),
    ensures
        stale(branches, tags, n).contains(branches[i]@),
    decreases n,
{
    if i < n - 1 {
        stale_branches_are_found(branches, tags, n - 1, i);
        let rest = stale(branches, tags, n - 1);
        let k = choose|k: int| 0 <= k < rest.len() && rest[k] == branches[i]@;
        assert(stale(branches, tags, n)[k] == branches[i]@);
    } else {
        assert(stale(branches, tags, n).last() == branches[i]@);
    }
}

/// The names of the tags among the first `n` that record a branch, exactly.
pub open spec fn names_on(tags: Seq<TagEntry>, branch: Seq<char>, n: int) -> Seq<Seq<char>>
    decreases n,
{
    if n <= 0 {
        Seq::empty()
    } else if is_on(tags[n - 1], branch) {
        names_on(tags, branch, n - 1).push(tags[n - 1].name@)
    } else {
        names_on(tags, branch, n - 1)
    }
}

/// The names of the tags that go when a branch's index is deleted: those that record the branch.
pub fn tags_of_branch(tags: &Vec<TagEntry>, branch: &str) -> (r: Vec<String>)
    ensures
        grouping::views(r@) == names_on(tags@, branch@, tags@.len() as int),
{
    let mut out: Vec<String> = Vec::new();
    let mut i: usize = 0;
    assert(grouping::views(out@) =~= Seq::<Seq<char>>::empty());
    while i < tags.len()
        invariant
            i <= tags.len(),
            grouping::views(out@) == names_on(tags@, branch@, i as int),
        decreases tags.len() - i,
    {
        if tag_is_on(&tags[i], branch) {
            let ghost before = out@;
            out.push(tags[i].name.clone());
            assert(grouping::views(out@) =~= grouping::views(before).push(tags@[i as int].name@));
        }
        i = i + 1;
    }
    out
}

/// What a cleanup removed, and how it is reported.
#[derive(Debug, Clone, Copy, PartialEq, Eq, Structural)]
pub enum Removed {
    /// An orphaned tag.
    OrphanedTag,
    /// A stale rebuild branch.
    StaleBranch,
}

/// The report of a removal.
pub open spec fn removal_text(kind: Removed, name: Seq<char>) -> Seq<char> {
    match kind {
        Removed::OrphanedTag => "orphaned_tag:"@ + name,
        Removed::StaleBranch => "stale_branch:"@ + name,
    }
}

/// The report of a removal.
pub fn describe_removal(kind: Removed, name: &str) -> (r: String)
    ensures
        r@ == removal_text(kind, name@),
{
    let mut out = match kind {
        Removed::OrphanedTag => "orphaned_tag:".to_owned(),
        Removed::StaleBranch => "stale_branch:".to_owned(),
    };
    out.append(name);
    out
}

/// Where a handle for a branch comes from.
#[derive(Debug, Clone, Copy, PartialEq, Eq, Structural)]
pub enum BranchHandle {
    /// The dataset's own handle, which is on the default branch.
    Default,
    /// A handle checked out to the branch.
    CheckedOut,
}

/// Where a handle for a branch comes from: only other branches than the default one are checked out.
pub fn branch_handle(branch: &str) -> (r: BranchHandle)
    ensures
        r == BranchHandle::Default <==> branch@ == MAIN_BRANCH@,
        r == BranchHandle::CheckedOut <==> branch@ != "main"@,
{
    if is_main(branch) {
        BranchHandle::Default
    } else {
        BranchHandle::CheckedOut
    }
}

/// Admits the creation of a branch: the default branch always exists, and the domain must have a
/// dataset to fork from.
pub fn check_create_branch(domain: &str, branch: &str, dataset_exists: bool) -> (r: Result<
    (),
    StoreError,
>)
    ensures
        r is Ok <==> branch@ != MAIN_BRANCH@ && dataset_exists,
        branch@ == "main"@ ==> r is Err,
        branch@ != "main"@ ==> (r is Err <==> !dataset_exists),
        r matches Err(e) ==> e.message() == if branch@ == MAIN_BRANCH@ {
            "cannot create the default 'main' branch — it always exists"@
        } else {
            "cannot branch domain '"@ + domain@
                + "': dataset does not exist (index the parent first)"@
        },
{
    if is_main(branch) {
        Err(
            StoreError::Internal(
                "cannot create the default 'main' branch — it always exists".to_owned(),
            ),
        )
    } else if !dataset_exists {
        Err(
            schema::internal(
                "cannot branch domain '",
                domain,
                "': dataset does not exist (index the parent first)",
            ),
        )
    } else {
        Ok(())
    }
}

/// A commit tag without a branch is the default branch's and no other's. One on a rebuild branch is
/// that branch's and the default branch's; one on any other branch is that branch's alone. A tag that
/// names no commit is nobody's.
pub proof fn tags_belong_to_their_branch(tag: TagEntry, branch: Seq<char>)
    ensures
        tag.commit is None ==> !belongs(tag, branch),
        tag.commit is Some && tag.branch is None ==> (belongs(tag, branch) <==> branch == "main"@),
        tag.commit is Some && tag.branch is Some && branch != "main"@ ==> (belongs(tag, branch)
            <==> tag.branch->0@ == branch),
        tag.commit is Some && tag.branch is Some && branch == "main"@ ==> (belongs(tag, branch)
            <==> ".-compact_rebuild_"@.is_prefix_of(tag.branch->0@)),
{
}

/// The last indexed commit of a branch is the one of its newest tag: none that belongs to the branch
/// was made later, and none made at the same moment has a higher version.
pub proof fn the_last_indexed_commit_is_the_newest(
    tags: Seq<TagEntry>,
    branch: Seq<char>,
    i: int,
    j: int,
)
    requires
        is_newest(tags, branch, i),
        0 <= j < tags.len(),
        belongs(tags[j], branch),
    ensures
        0 <= i < tags.len(),
        tags[i].commit is Some,
        belongs(tags[i], branch),
        tags[j].created_at <= tags[i].created_at,
        tags[j].created_at == tags[i].created_at ==> tags[j].version <= tags[i].version,
{
}

/// A tag that is made later than all others of its branch becomes the branch's newest.
pub proof fn a_later_tag_is_the_newest(tags: Seq<TagEntry>, later: TagEntry, branch: Seq<char>)
    requires
        belongs(later, branch),
        forall|j: int|
            0 <= j < tags.len() ==> (#[trigger] tags[j]).created_at < later.created_at,
    ensures
        is_newest(tags.push(later), branch, tags.len() as int),
        forall|i: int|
            #[trigger] is_newest(tags.push(later), branch, i) ==> i == tags.len(),
{
    let all = tags.push(later);
    assert forall|j: int| 0 <= j < all.len() && belongs(#[trigger] all[j], branch) implies not_newer(
        all[j],
        all[tags.len() as int],
    ) by {
        if j < tags.len() {
            assert(all[j] == tags[j]);
        }
    }
    assert forall|i: int| #[trigger] is_newest(all, branch, i) implies i == tags.len() by {
        if i < tags.len() {
            assert(all[i] == tags[i]);
            assert(belongs(all[tags.len() as int], branch));
        }
    }
}

/// The number of a branch's commits is the number of positions that hold a tag of it.
pub proof fn commits_are_counted_by_position(tags: Seq<TagEntry>, branch: Seq<char>, n: int)
    requires
        0 <= n <= tags.len(),
    ensures
        Set::new(|i: int| 0 <= i < n && belongs(tags[i], branch)).finite(),
        count_belonging(tags, branch, n) == Set::new(
            |i: int| 0 <= i < n && belongs(tags[i], branch),
        ).len(),
    decreases n,
{
    let all = Set::new(|i: int| 0 <= i < n && belongs(tags[i], branch));
    if n == 0 {
        assert(all =~= Set::<int>::empty());
    } else {
        commits_are_counted_by_position(tags, branch, n - 1);
        let few = Set::new(|i: int| 0 <= i < n - 1 && belongs(tags[i], branch));
        if belongs(tags[n - 1], branch) {
            assert(all =~= few.insert(n - 1));
        } else {
            assert(all =~= few);
        }
    }
}

/// Every commit tag is listed, with its own commit and version, and nothing else is.
pub proof fn every_commit_is_listed_at_its_version(
    tags: Seq<TagEntry>,
    n: int,
    c: (Seq<char>, u64),
)
    requires
        0 <= n <= tags.len(),
    ensures
        commit_versions_of(tags, n).contains(c) <==> exists|i: int|
            0 <= i < n && (#[trigger] tags[i]).commit is Some && tags[i].commit->0@ == c.0
                && tags[i].version == c.1,
    decreases n,
{
    let all = commit_versions_of(tags, n);
    if n > 0 {
        every_commit_is_listed_at_its_version(tags, n - 1, c);
        let few = commit_versions_of(tags, n - 1);
        if few.contains(c) {
            let k = choose|k: int| 0 <= k < few.len() && few[k] == c;
            assert(all[k] == c);
        }
        if all.contains(c) {
            let k = choose|k: int| 0 <= k < all.len() && all[k] == c;
            if k < few.len() {
                assert(few[k] == c);
            } else {
                assert(tags[n - 1].commit->0@ == c.0);
            }
        }
        if tags[n - 1].commit is Some {
            assert(all[few.len() as int] == (tags[n - 1].commit->0@, tags[n - 1].version));
        }
    }
}

/// A tag is reported as orphaned exactly when it records a branch that is not listed; tags of the
/// default branch never are.
pub proof fn orphans_record_unlisted_branches(
    tags: Seq<TagEntry>,
    branches: Seq<String>,
    n: int,
    name: Seq<char>,
)
    requires
        0 <= n <= tags.len(),
    ensures
        orphans(tags, branches, n).contains(name) <==> exists|i: int|
            0 <= i < n && (#[trigger] tags[i]).name@ == name && tags[i].branch is Some && forall|
                j: int,
            |
                0 <= j < branches.len() ==> (#[trigger] branches[j])@ != tags[i].branch->0@,
    decreases n,
{
    let all = orphans(tags, branches, n);
    if n > 0 {
        orphans_record_unlisted_branches(tags, branches, n - 1, name);
        let few = orphans(tags, branches, n - 1);
        let t = tags[n - 1];
        if few.contains(name) {
            let k = choose|k: int| 0 <= k < few.len() && few[k] == name;
            assert(all[k] == name);
        }
        if all.contains(name) {
            let k = choose|k: int| 0 <= k < all.len() && all[k] == name;
            if k < few.len() {
                assert(few[k] == name);
            } else {
                assert(t.name@ == name);
                assert forall|j: int| 0 <= j < branches.len() implies (#[trigger] branches[j])@
                    != t.branch->0@ by {
                    assert(!filter::lists(branches, t.branch->0@));
                }
            }
        }
        if is_orphaned(t, branches) {
            assert(all[few.len() as int] == t.name@);
        } else if t.branch is Some {
            let j = choose|j: int|
                0 <= j < branches.len() && (#[trigger] branches[j])@ == t.branch->0@;
            assert(branches[j]@ == t.branch->0@);
        }
    }
}

/// A branch is stale exactly when it is named as a rebuild branch and no tag records it.
pub proof fn stale_branches_are_untagged_rebuilds(branch: Seq<char>, tags: Seq<TagEntry>)
    ensures
        is_stale(branch, tags) <==> ".-compact_rebuild_"@.is_prefix_of(branch) && forall|i: int|
            0 <= i < tags.len() ==> (#[trigger] tags[i]).branch is None || tags[i].branch->0@
                != branch,
{
    if is_stale(branch, tags) {
        assert forall|i: int| 0 <= i < tags.len() implies (#[trigger] tags[i]).branch is None
            || tags[i].branch->0@ != branch by {
            if tags[i].branch is Some && tags[i].branch->0@ == branch {
                assert(opt(tags[i].branch) == Some(branch));
            }
        }
    }
}

/// The tags that go with a branch are those that record it, the default branch's being those that
/// record none.
pub proof fn tags_go_with_the_branch_they_record(
    tags: Seq<TagEntry>,
    branch: Seq<char>,
    n: int,
    name: Seq<char>,
)
    requires
        0 <= n <= tags.len(),
    ensures
        names_on(tags, branch, n).contains(name) <==> exists|i: int|
            0 <= i < n && (#[trigger] tags[i]).name@ == name && (if branch == "main"@ {
                tags[i].branch is None
            } else {
                tags[i].branch is Some && tags[i].branch->0@ == branch
            }),
    decreases n,
{
    let all = names_on(tags, branch, n);
    if n > 0 {
        tags_go_with_the_branch_they_record(tags, branch, n - 1, name);
        let few = names_on(tags, branch, n - 1);
        let t = tags[n - 1];
        if few.contains(name) {
            let k = choose|k: int| 0 <= k < few.len() && few[k] == name;
            assert(all[k] == name);
        }
        if all.contains(name) {
            let k = choose|k: int| 0 <= k < all.len() && all[k] == name;
            if k < few.len() {
                assert(few[k] == name);
            } else {
                assert(t.name@ == name);
            }
        }
        if is_on(t, branch) {
            assert(all[few.len() as int] == t.name@);
        }
    }
}

/// A commit stands for the version of its own tag: where names are not repeated, each tag's name
/// stands for that tag's version, and a name that no tag has stands for none.
pub proof fn names_stand_for_their_own_tag(tags: Seq<TagEntry>, i: int, name: Seq<char>, v: u64)
    requires
        0 <= i < tags.len(),
        forall|j: int| 0 <= j < i ==> (#[trigger] tags[j]).name@ != tags[i].name@,
    ensures
        resolves_to(tags, tags[i].name@, tags[i].version),
        is_named(tags, tags[i].name@, i),
        resolves_to(tags, name, v) ==> exists|j: int|
            0 <= j < tags.len() && (#[trigger] tags[j]).name@ == name && tags[j].version == v,
        is_unnamed(tags, name) ==> !resolves_to(tags, name, v),
{
    assert(is_named(tags, tags[i].name@, i));
    if resolves_to(tags, name, v) {
        let j = choose|j: int| #[trigger] is_named(tags, name, j) && tags[j].version == v;
        assert(tags[j].name@ == name);
    }
}


/// A report of a removal ends with the name, and tells tags and branches apart.
pub proof fn removals_are_told_apart(a: Seq<char>, b: Seq<char>, kind: Removed)
    ensures
        removal_text(kind, a).skip(13) == a,
        removal_text(Removed::OrphanedTag, a) != removal_text(Removed::StaleBranch, b),
        removal_text(kind, a) == removal_text(kind, b) ==> a == b,
        removal_text(Removed::OrphanedTag, a)[0] == 'o',
        removal_text(Removed::StaleBranch, a)[0] == 's',
{
    reveal_strlit("orphaned_tag:");
    reveal_strlit("stale_branch:");
    assert(removal_text(kind, a).skip(13) =~= a);
    assert(removal_text(kind, b).skip(13) =~= b);
    assert(removal_text(Removed::OrphanedTag, a)[0] == 'o');
    assert(removal_text(Removed::StaleBranch, b)[0] == 's');
}

} // verus!
