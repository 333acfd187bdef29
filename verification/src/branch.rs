//! Branch-out: forking a branch from a parent commit.

use crate::filter;
use crate::schema::{StoreError, MAIN_BRANCH};
use crate::tags;
use vstd::prelude::*;
use vstd::string::*;

verus! {

/// Result of a branch-out attempt.
#[derive(Debug, Clone, Copy, PartialEq, Eq, Structural)]
pub enum BranchOutcome {
    /// The branch already existed; nothing was forked.
    AlreadyExists,
    /// The branch was forked from `parent_version`.
    Created { parent_version: u64 },
}

/// The branch exists: it is the default one, or listed.
pub open spec fn exists_already(branch: Seq<char>, existing: Seq<String>) -> bool {
    branch == MAIN_BRANCH@ || filter::lists(existing, branch)
}

/// What a branch-out comes to: an existing branch is left alone, a missing one is forked from the
/// parent's version, and without one there is nothing to fork from.
pub open spec fn branch_outcome(
    branch: Seq<char>,
    existing: Seq<String>,
    parent_version: Option<u64>,
) -> Option<BranchOutcome> {
    if exists_already(branch, existing) {
        Some(BranchOutcome::AlreadyExists)
    } else {
        match parent_version {
            Some(v) => Some(BranchOutcome::Created { parent_version: v }),
            None => None,
        }
    }
}

/// The message for a parent commit without a version to fork from.
pub open spec fn unindexed_parent(
    domain: Seq<char>,
    branch: Seq<char>,
    parent_commit: Seq<char>,
) -> Seq<char> {
    "cannot branch '"@ + branch + "' in domain '"@ + domain + "': parent commit '"@ + parent_commit
        + "' is not indexed (no tagged version to fork from)"@
}

/// Whether a branch-out has to fork: the default branch and the listed ones exist already.
pub fn needs_fork(branch: &str, existing: &Vec<String>) -> (r: bool)
    ensures
        r == !exists_already(branch@, existing@),
{
    match tags::branch_handle(branch) {
        tags::BranchHandle::Default => false,
        tags::BranchHandle::CheckedOut => !tags::list_has(existing, branch),
    }
}

/// What a branch-out does, given the branches that exist and the version of the parent commit: an
/// existing branch is left alone, a missing one is forked from the parent's version, and a parent
/// that is not indexed is an error.
pub fn plan_branch_out(
    domain: &str,
    branch: &str,
    parent_commit: &str,
    existing: &Vec<String>,
    parent_version: Option<u64>,
) -> (r: Result<BranchOutcome, StoreError>)
    ensures
        match branch_outcome(branch@, existing@, parent_version) {
            Some(outcome) => r == Ok::<BranchOutcome, StoreError>(outcome),
            None => r matches Err(e) && e.message() == unindexed_parent(
                domain@,
                branch@,
                parent_commit@,
            ),
        },
{
    if !needs_fork(branch, existing) {
        return Ok(BranchOutcome::AlreadyExists);
    }
    match parent_version {
        Some(parent_version) => Ok(BranchOutcome::Created { parent_version }),
        None => {
            let mut m = "cannot branch '".to_owned();
            m.append(branch);
            m.append("' in domain '");
            m.append(domain);
            m.append("': parent commit '");
            m.append(parent_commit);
            m.append("' is not indexed (no tagged version to fork from)");
            Err(StoreError::Internal(m))
        },
    }
}

/// A branch-out that follows another one of the same branch finds the branch, and forks nothing.
pub proof fn branching_out_twice_forks_once(
    branch: Seq<char>,
    before: Seq<String>,
    after: Seq<String>,
)
    requires
        exists_already(branch, before) || exists|s: String| after.contains(s) && s@ == branch,
        forall|i: int| 0 <= i < before.len() ==> after.contains(#[trigger] before[i]),
    ensures
        exists_already(branch, after),
{
    if branch != MAIN_BRANCH@ {
        if filter::lists(before, branch) {
            let i = choose|i: int| 0 <= i < before.len() && (#[trigger] before[i])@ == branch;
            assert(after.contains(before[i]));
            let j = choose|j: int| 0 <= j < after.len() && after[j] == before[i];
            assert(after[j]@ == branch);
        } else {
            let s = choose|s: String| after.contains(s) && s@ == branch;
            let j = choose|j: int| 0 <= j < after.len() && after[j] == s;
            assert(after[j]@ == branch);
        }
    }
}

/// The default branch is never forked, nor is a branch that is listed. A branch that is neither is
/// forked from the version that its parent's tag stands for, and from no other.
pub proof fn forks_take_the_version_of_their_parent(
    branch: Seq<char>,
    existing: Seq<String>,
    entries: Seq<tags::TagEntry>,
    parent_tag: Seq<char>,
    version: u64,
    parent_version: Option<u64>,
)
    requires
        tags::resolves_to(entries, parent_tag, version),
        match parent_version {
            Some(v) => tags::resolves_to(entries, parent_tag, v),
            None => tags::is_unnamed(entries, parent_tag),
        },
    ensures
        branch_outcome(MAIN_BRANCH@, existing, parent_version) == Some(
            BranchOutcome::AlreadyExists,
        ),
        filter::lists(existing, branch) ==> branch_outcome(branch, existing, parent_version) == Some(
            BranchOutcome::AlreadyExists,
        ),
        !exists_already(branch, existing) ==> branch_outcome(branch, existing, parent_version)
            == Some(BranchOutcome::Created { parent_version: version }),
{
    match parent_version {
        Some(v) => {
            tags::names_resolve_once(entries, parent_tag, version, v);
        },
        None => {
            let i = choose|i: int| #[trigger]
                tags::is_named(entries, parent_tag, i) && entries[i].version == version;
            assert(entries[i].name@ == parent_tag);
        },
    }
}


/// The default branch is called main and is never forked; any other unlisted branch is forked from
/// the version that it is given, and without one it is not.
pub proof fn only_new_branches_are_forked(
    branch: Seq<char>,
    existing: Seq<String>,
    parent_version: Option<u64>,
)
    ensures
        branch_outcome("main"@, existing, parent_version) == Some(BranchOutcome::AlreadyExists),
        (exists|i: int| 0 <= i < existing.len() && (#[trigger] existing[i])@ == branch)
            ==> branch_outcome(branch, existing, parent_version) == Some(
            BranchOutcome::AlreadyExists,
        ),
        branch != "main"@ && (forall|i: int|
            0 <= i < existing.len() ==> (#[trigger] existing[i])@ != branch) ==> (
        match branch_outcome(branch, existing, parent_version) {
            Some(BranchOutcome::Created { parent_version: v }) => parent_version == Some(v),
            Some(BranchOutcome::AlreadyExists) => false,
            None => parent_version is None,
        }),
{
}

/// The message for a parent commit that is not indexed names the branch first, then the domain,
/// then the commit: for texts of a length no two of them share a message.
pub proof fn unindexed_parents_are_told_apart(
    d: Seq<char>,
    b: Seq<char>,
    c: Seq<char>,
    e: Seq<char>,
    f: Seq<char>,
    g: Seq<char>,
)
    requires
        d.len() == e.len(),
        b.len() == f.len(),
        c.len() == g.len(),
        unindexed_parent(d, b, c) == unindexed_parent(e, f, g),
    ensures
        d == e,
        b == f,
        c == g,
        unindexed_parent(d, b, c).subrange(15, 15 + b.len() as int) == b,
{
    reveal_strlit("cannot branch '");
    reveal_strlit("' in domain '");
    reveal_strlit("': parent commit '");
    let m = unindexed_parent(d, b, c);
    let n = unindexed_parent(e, f, g);
    let at_d = 15 + b.len() as int + 13;
    let at_c = at_d + d.len() + 18;
    assert(m.subrange(15, 15 + b.len() as int) =~= b);
    assert(n.subrange(15, 15 + b.len() as int) =~= f);
    assert(m.subrange(at_d, at_d + d.len()) =~= d);
    assert(n.subrange(at_d, at_d + d.len()) =~= e);
    assert(m.subrange(at_c, at_c + c.len()) =~= c);
    assert(n.subrange(at_c, at_c + c.len()) =~= g);
}

} // verus!
