//! Cleanup of old versions and of index directories that nothing refers to.

use crate::filter;
use crate::grouping;
use crate::schema;
use crate::tags;
use vstd::prelude::*;
use vstd::string::*;

verus! {

/// How version cleanup treats the index files of rebuild branches.
#[derive(Clone, Copy, Debug, PartialEq, Eq, Structural)]
pub enum CleanupMode {
    /// Hide the index directory while rebuild branches exist.
    CurrentCode,
    /// Leave the index directory, and do not clean referenced branches.
    TargetNoPatch,
    /// The same as `TargetNoPatch`.
    TargetWithPatch,
}

impl Default for CleanupMode {
    fn default() -> (m: Self)
        ensures
            m == CleanupMode::CurrentCode,
    {
        CleanupMode::CurrentCode
    }
}

impl CleanupMode {
    /// The index directory is hidden during cleanup.
    pub open spec fn hides(self) -> bool {
        self is CurrentCode
    }

    /// Whether the index directory is hidden during cleanup.
    pub fn hide_indices(self) -> (r: bool)
        ensures
            r == self.hides(),
    {
        matches!(self, CleanupMode::CurrentCode)
    }

    /// Whether referenced branches are left out of cleanup.
    pub fn disable_clean_referenced_branches(self) -> (r: bool)
        ensures
            r == !self.hides(),
    {
        matches!(self, CleanupMode::TargetNoPatch | CleanupMode::TargetWithPatch)
    }

    /// The mode's number.
    pub open spec fn number(self) -> u8 {
        match self {
            CleanupMode::CurrentCode => 0,
            CleanupMode::TargetNoPatch => 1,
            CleanupMode::TargetWithPatch => 2,
        }
    }

    /// The mode of a number; unknown numbers stand for the default.
    pub open spec fn numbered(code: u8) -> CleanupMode {
        if code == 1 {
            CleanupMode::TargetNoPatch
        } else if code == 2 {
            CleanupMode::TargetWithPatch
        } else {
            CleanupMode::CurrentCode
        }
    }

    /// The number that stands for the mode.
    pub fn code(self) -> (r: u8)
        ensures
            r == self.number(),
    {
        match self {
            CleanupMode::CurrentCode => 0,
            CleanupMode::TargetNoPatch => 1,
            CleanupMode::TargetWithPatch => 2,
        }
    }

    /// The mode that a number stands for.
    pub fn from_code(code: u8) -> (r: CleanupMode)
        ensures
            r == CleanupMode::numbered(code),
    {
        match code {
            0 => CleanupMode::CurrentCode,
            1 => CleanupMode::TargetNoPatch,
            2 => CleanupMode::TargetWithPatch,
            _ => CleanupMode::CurrentCode,
        }
    }
}

/// A mode's number stands for the mode.
pub proof fn numbers_read_back(mode: CleanupMode)
    ensures
        CleanupMode::numbered(mode.number()) == mode,
{
}

/// What a version cleanup does.
#[derive(Clone, Copy, Debug, PartialEq, Eq, Structural)]
pub struct CleanupPlan {
    /// Move the index directory away first, and back afterwards.
    pub hide_indices: bool,
    /// How many of the latest versions stay, besides the tagged ones.
    pub retain_versions: usize,
    /// Leave referenced branches alone.
    pub keep_referenced_branches: bool,
}

/// How many versions an ordinary cleanup leaves.
pub const RETAINED_VERSIONS: usize = 3;

/// How many versions an aggressive cleanup leaves.
pub const RETAINED_VERSIONS_AGGRESSIVE: usize = 1;

/// One of the branches is a rebuild branch.
pub open spec fn has_rebuild(branches: Seq<String>) -> bool {
    exists|i: int|
        0 <= i < branches.len() && schema::names_rebuild_branch((#[trigger] branches[i])@)
}

/// Whether one of the branches is a rebuild branch.
pub fn has_rebuild_branches(branches: &Vec<String>) -> (r: bool)
    ensures
        r == has_rebuild(branches@),
{
    let mut i: usize = 0;
    while i < branches.len()
        invariant
            i <= branches.len(),
            forall|k: int|
                0 <= k < i ==> !schema::names_rebuild_branch((#[trigger] branches@[k])@),
        decreases branches.len() - i,
    {
        if schema::is_compact_rebuild_branch(branches[i].as_str()) {
            assert(schema::names_rebuild_branch(branches@[i as int]@));
            return true;
        }
        i = i + 1;
    }
    false
}

/// The plan of a cleanup. `branches` is absent when the branches could not be listed.
pub open spec fn cleanup_plan(
    mode: CleanupMode,
    branches: Option<Seq<String>>,
    indices_exist: bool,
    aggressive: bool,
) -> CleanupPlan {
    CleanupPlan {
        hide_indices: mode.hides() && branches is Some && has_rebuild(branches->0) && indices_exist,
        retain_versions: if aggressive {
            RETAINED_VERSIONS_AGGRESSIVE
        } else {
            RETAINED_VERSIONS
        },
        keep_referenced_branches: !mode.hides(),
    }
}

/// Plans a version cleanup.
pub fn plan_cleanup(
    mode: CleanupMode,
    branches: Option<&Vec<String>>,
    indices_exist: bool,
    aggressive: bool,
) -> (plan: CleanupPlan)
    ensures
        plan == cleanup_plan(
            mode,
            match branches {
                Some(b) => Some(b@),
                None => None,
            },
            indices_exist,
            aggressive,
        ),
{
    let rebuild: bool = match branches {
        Some(b) => has_rebuild_branches(b),
        None => false,
    };
    CleanupPlan {
        hide_indices: mode.hide_indices() && rebuild && indices_exist,
        retain_versions: if aggressive {
            RETAINED_VERSIONS_AGGRESSIVE
        } else {
            RETAINED_VERSIONS
        },
        keep_referenced_branches: mode.disable_clean_referenced_branches(),
    }
}

/// While a rebuild branch exists, no cleanup reaches its index files: either the index directory is
/// hidden, or referenced branches are left alone.
pub proof fn rebuild_indices_are_protected(mode: CleanupMode, branches: Seq<String>, aggressive: bool)
    requires
        has_rebuild(branches),
    ensures
        cleanup_plan(mode, Some(branches), true, aggressive).hide_indices || cleanup_plan(
            mode,
            Some(branches),
            true,
            aggressive,
        ).keep_referenced_branches,
{
}

/// The names among the first `n` that the list lacks.
pub open spec fn absent(names: Seq<String>, list: Seq<String>, n: int) -> Seq<Seq<char>>
    decreases n,
{
    if n <= 0 {
        Seq::empty()
    } else if filter::lists(list, names[n - 1]@) {
        absent(names, list, n - 1)
    } else {
        absent(names, list, n - 1).push(names[n - 1]@)
    }
}

/// The names that a list lacks, in order.
pub fn names_absent_from(names: &Vec<String>, list: &Vec<String>) -> (r: Vec<String>)
    ensures
        grouping::views(r@) == absent(names@, list@, names@.len() as int),
{
    let mut out: Vec<String> = Vec::new();
    let mut i: usize = 0;
    assert(grouping::views(out@) =~= Seq::<Seq<char>>::empty());
    while i < names.len()
        invariant
            i <= names.len(),
            grouping::views(out@) == absent(names@, list@, i as int),
        decreases names.len() - i,
    {
        if !tags::list_has(list, names[i].as_str()) {
            let ghost before = out@;
            out.push(names[i].clone());
            assert(grouping::views(out@) =~= grouping::views(before).push(names@[i as int]@));
        }
        i = i + 1;
    }
    out
}

/// The index directories that nothing refers to.
pub fn stale_index_dirs(dirs: &Vec<String>, live: &Vec<String>) -> (r: Vec<String>)
    ensures
        grouping::views(r@) == absent(dirs@, live@, dirs@.len() as int),
{
    names_absent_from(dirs, live)
}

/// A directory that a live index refers to is never pruned.
pub proof fn live_dirs_are_never_pruned(dirs: Seq<String>, live: Seq<String>, n: int, k: int)
    requires
        0 <= n <= dirs.len(),
        0 <= k < absent(dirs, live, n).len(),
    ensures
        !filter::lists(live, absent(dirs, live, n)[k]),
    decreases n,
{
    if n > 0 {
        if !filter::lists(live, dirs[n - 1]@) && k == absent(dirs, live, n - 1).len() {
        } else {
            live_dirs_are_never_pruned(dirs, live, n - 1, k);
        }
    }
}

/// A directory that nothing refers to is found.
pub proof fn stale_dirs_are_found(dirs: Seq<String>, live: Seq<String>, n: int, i: int)
    requires
        0 <= i < n <= dirs.len(),
        !filter::lists(live, dirs[i]@),
    ensures
        absent(dirs, live, n).contains(dirs[i]@),
    decreases n,
{
    if i == n - 1 {
        assert(absent(dirs, live, n).last() == dirs[i]@);
    } else {
        stale_dirs_are_found(dirs, live, n - 1, i);
        let a = absent(dirs, live, n - 1);
        let k = choose|k: int| 0 <= k < a.len() && a[k] == dirs[i]@;
        assert(absent(dirs, live, n)[k] == dirs[i]@);
    }
}

/// What a file system path leads to.
#[derive(Debug)]
pub enum Node {
    File,
    Dir(Vec<Node>),
    Other,
}

/// A file is found at some depth.
pub open spec fn holds_file(node: Node) -> bool
    decreases node,
{
    match node {
        Node::File => true,
        Node::Dir(entries) => exists|i: int|
            0 <= i < entries@.len() && holds_file(#[trigger] entries@[i]),
        Node::Other => false,
    }
}

/// Whether a file is found at some depth.
pub fn dir_has_files_recursive(node: &Node) -> (r: bool)
    ensures
        r == holds_file(*node),
    decreases *node,
{
    match node {
        Node::File => true,
        Node::Other => false,
        Node::Dir(entries) => {
            let mut i: usize = 0;
            while i < entries.len()
                invariant
                    i <= entries.len(),
                    *node == Node::Dir(*entries),
                    forall|k: int| 0 <= k < i ==> !holds_file(#[trigger] entries@[k]),
                decreases entries.len() - i,
            {
                proof {
                    assert(*entries == node->Dir_0);
                    assert(decreases_to!(*node => node->Dir_0));
                    assert(decreases_to!(*entries => entries@));
                    assert(decreases_to!(entries@ => entries@[i as int]));
                }
                if dir_has_files_recursive(&entries[i]) {
                    proof {
                        reveal_with_fuel(holds_file, 2);
                        assert(holds_file(entries@[i as int]));
                    }
                    return true;
                }
                i = i + 1;
            }
            false
        },
    }
}

/// An index directory with what it holds.
#[derive(Debug)]
pub struct IndexDir {
    pub name: String,
    pub node: Node,
}

/// A directory without any file below it.
pub open spec fn is_empty_dir(dir: IndexDir) -> bool {
    dir.node is Dir && !holds_file(dir.node)
}

/// The names of the empty directories among the first `n`.
pub open spec fn empty_dirs(dirs: Seq<IndexDir>, n: int) -> Seq<Seq<char>>
    decreases n,
{
    if n <= 0 {
        Seq::empty()
    } else if is_empty_dir(dirs[n - 1]) {
        empty_dirs(dirs, n - 1).push(dirs[n - 1].name@)
    } else {
        empty_dirs(dirs, n - 1)
    }
}

/// The index directories that hold no file at any depth.
pub fn empty_index_dirs(dirs: &Vec<IndexDir>) -> (r: Vec<String>)
    ensures
        grouping::views(r@) == empty_dirs(dirs@, dirs@.len() as int),
{
    let mut out: Vec<String> = Vec::new();
    let mut i: usize = 0;
    assert(grouping::views(out@) =~= Seq::<Seq<char>>::empty());
    while i < dirs.len()
        invariant
            i <= dirs.len(),
            grouping::views(out@) == empty_dirs(dirs@, i as int),
        decreases dirs.len() - i,
    {
        let is_dir: bool = match &dirs[i].node {
            Node::Dir(_) => true,
            _ => false,
        };
        if is_dir && !dir_has_files_recursive(&dirs[i].node) {
            let ghost before = out@;
            out.push(dirs[i].name.clone());
            assert(grouping::views(out@) =~= grouping::views(before).push(dirs@[i as int].name@));
        }
        i = i + 1;
    }
    out
}


/// What a cleanup does: an ordinary one leaves three versions, an aggressive one a single version.
/// The index directory is moved away only in the mode that hides it, while there is one and some
/// branch is a rebuild branch; in the other modes referenced branches are left alone instead.
pub proof fn cleanups_keep_what_their_mode_says(
    plan: CleanupPlan,
    mode: CleanupMode,
    branches: Seq<String>,
    indices_exist: bool,
    aggressive: bool,
)
    requires
        plan == cleanup_plan(mode, Some(branches), indices_exist, aggressive),
    ensures
        aggressive ==> plan.retain_versions == 1,
        !aggressive ==> plan.retain_versions == 3,
        plan.hide_indices ==> mode == CleanupMode::CurrentCode && indices_exist,
        plan.hide_indices ==> exists|i: int|
            0 <= i < branches.len() && schema::names_rebuild_branch((#[trigger] branches[i])@),
        mode == CleanupMode::CurrentCode && indices_exist && !plan.hide_indices ==> forall|i: int|
            0 <= i < branches.len() ==> !schema::names_rebuild_branch((#[trigger] branches[i])@),
        plan.keep_referenced_branches <==> mode != CleanupMode::CurrentCode,
        !cleanup_plan(mode, None, indices_exist, aggressive).hide_indices,
{
}

/// Numbers stand for modes: 1 and 2 for the modes that leave the index directory, every other
/// number for the one that hides it, and no two modes share a number.
pub proof fn modes_have_their_numbers(code: u8, a: CleanupMode, b: CleanupMode)
    ensures
        CleanupMode::numbered(code).hides() <==> code != 1 && code != 2,
        code <= 2 ==> CleanupMode::numbered(code).number() == code,
        a.number() == b.number() ==> a == b,
        a.number() <= 2,
        a.hides() <==> a.number() == 0,
{
}

/// Each name that a list lacks comes out at its place: the names before it that are lacking come
/// before it, and those behind it follow.
pub proof fn lacking_names_keep_their_order(names: Seq<String>, list: Seq<String>, n: int)
    requires
        0 <= n < names.len(),
    ensures
        (exists|i: int| 0 <= i < list.len() && (#[trigger] list[i])@ == names[n]@) ==> absent(
            names,
            list,
            n + 1,
        ) == absent(names, list, n),
        (forall|i: int| 0 <= i < list.len() ==> (#[trigger] list[i])@ != names[n]@) ==> absent(
            names,
            list,
            n + 1,
        ) == absent(names, list, n).push(names[n]@),
        absent(names, list, 0).len() == 0,
{
}

/// A walk down from a node, by the positions of entries, ends at a file.
pub open spec fn reaches_file(node: Node, path: Seq<int>) -> bool
    decreases path.len(),
{
    if path.len() == 0 {
        node is File
    } else {
        node matches Node::Dir(entries) && 0 <= path[0] < entries@.len() && reaches_file(
            entries@[path[0]],
            path.skip(1),
        )
    }
}

/// A file at the end of any walk is found.
pub proof fn files_at_any_depth_are_found(node: Node, path: Seq<int>)
    requires
        reaches_file(node, path),
    ensures
        holds_file(node),
    decreases path.len(),
{
    if path.len() > 0 {
        let entries = node->Dir_0;
        files_at_any_depth_are_found(entries@[path[0]], path.skip(1));
        reveal_with_fuel(holds_file, 2);
        assert(holds_file(entries@[path[0]]));
    }
}

/// Where a file is found, a walk leads to it.
pub proof fn found_files_can_be_reached(node: Node) -> (path: Seq<int>)
    requires
        holds_file(node),
    ensures
        reaches_file(node, path),
    decreases node,
{
    match node {
        Node::Dir(entries) => {
            let i = choose|i: int| 0 <= i < entries@.len() && holds_file(#[trigger] entries@[i]);
            assert(decreases_to!(node => node->Dir_0));
            assert(decreases_to!(entries => entries@));
            assert(decreases_to!(entries@ => entries@[i]));
            let rest = found_files_can_be_reached(entries@[i]);
            let path = seq![i] + rest;
            assert(path.skip(1) =~= rest);
            path
        },
        _ => Seq::empty(),
    }
}

/// Of each directory below which no walk reaches a file, the name comes out, and of no other.
pub proof fn directories_without_files_are_named(dirs: Seq<IndexDir>, n: int, path: Seq<int>)
    requires
        0 <= n < dirs.len(),
    ensures
        reaches_file(dirs[n].node, path) ==> empty_dirs(dirs, n + 1) == empty_dirs(dirs, n),
        !(dirs[n].node is Dir) ==> empty_dirs(dirs, n + 1) == empty_dirs(dirs, n),
        dirs[n].node is Dir && (forall|p: Seq<int>| !#[trigger] reaches_file(dirs[n].node, p))
            ==> empty_dirs(dirs, n + 1) == empty_dirs(dirs, n).push(dirs[n].name@),
        empty_dirs(dirs, 0).len() == 0,
{
    if reaches_file(dirs[n].node, path) {
        files_at_any_depth_are_found(dirs[n].node, path);
    }
    if holds_file(dirs[n].node) {
        let p = found_files_can_be_reached(dirs[n].node);
        assert(reaches_file(dirs[n].node, p));
    }
}

} // verus!
