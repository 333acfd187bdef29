//! The sweep of a dataset: orphaned tags, then stale rebuild branches, then what they leave behind.

use crate::grouping;
use crate::schema;
use crate::tags;
use crate::tags::{Removed, TagEntry};
use vstd::prelude::*;
use vstd::string::*;

verus! {

/// Where a sweep stands.
#[derive(Debug, Clone, Copy, PartialEq, Eq, Structural)]
pub enum SweepPhase {
    /// Deletes the orphaned tag at a position.
    Tag(usize),
    /// Lists the tags again.
    Relist,
    /// Deletes the stale rebuild branch at a position.
    Branch(usize),
    /// Cleans up old versions, since something was removed.
    CleanVersions,
    /// Removes index directories that nothing refers to.
    PruneStale,
    /// Removes empty index directories.
    PruneEmpty,
    Finished,
    Failed,
}

/// What a sweep asks for.
#[derive(Debug)]
pub enum SweepAction {
    DeleteTag { name: String },
    ListTags,
    DeleteBranch { branch: String },
    CleanVersions,
    PruneStale,
    PruneEmpty,
    Stop,
}

/// What came of an action.
#[derive(Debug)]
pub enum SweepEvent {
    /// It succeeded.
    Done,
    /// It failed; a sweep passes over that where it can.
    Refused,
    /// The dataset could not be opened, or its tags could not be listed.
    Broken,
    /// The tags as they are now.
    Tags(Vec<TagEntry>),
}

/// A sweep under way.
pub struct Sweep {
    branches: Vec<String>,
    orphans: Vec<String>,
    stale: Vec<String>,
    cleaned: Vec<String>,
    phase: SweepPhase,
}

/// A sweep as mathematical values.
#[verifier::ext_equal]
pub struct SweepModel {
    /// The branches of the dataset.
    pub branches: Seq<Seq<char>>,
    /// The orphaned tags.
    pub orphans: Seq<Seq<char>>,
    /// The stale rebuild branches, once the tags were listed again.
    pub stale: Seq<Seq<char>>,
    /// The reports of what was removed.
    pub cleaned: Seq<Seq<char>>,
    pub phase: SweepPhase,
}

impl View for Sweep {
    type V = SweepModel;

    closed spec fn view(&self) -> SweepModel {
        SweepModel {
            branches: grouping::views(self.branches@),
            orphans: grouping::views(self.orphans@),
            stale: grouping::views(self.stale@),
            cleaned: grouping::views(self.cleaned@),
            phase: self.phase,
        }
    }
}

/// The rebuild branches among the first `n` that no tag records.
pub open spec fn stale_names(branches: Seq<Seq<char>>, tags: Seq<TagEntry>, n: int) -> Seq<Seq<char>>
    decreases n,
{
    if n <= 0 {
        Seq::empty()
    } else if tags::is_stale(branches[n - 1], tags) {
        stale_names(branches, tags, n - 1).push(branches[n - 1])
    } else {
        stale_names(branches, tags, n - 1)
    }
}

/// Positions lie within their lists.
pub open spec fn in_good_order(m: SweepModel) -> bool {
    match m.phase {
        SweepPhase::Tag(i) => i < m.orphans.len(),
        SweepPhase::Branch(i) => i < m.stale.len(),
        _ => true,
    }
}

/// A sweep in another phase.
pub open spec fn in_phase(m: SweepModel, phase: SweepPhase) -> SweepModel {
    SweepModel { phase, ..m }
}

/// The phase that follows the orphaned tag at `i`.
pub open spec fn after_tag(m: SweepModel, i: int) -> SweepPhase {
    if i + 1 < m.orphans.len() {
        SweepPhase::Tag((i + 1) as usize)
    } else {
        SweepPhase::Relist
    }
}

/// The phase that follows the stale branch at `i`.
pub open spec fn after_branch(m: SweepModel, i: int) -> SweepPhase {
    if i + 1 < m.stale.len() {
        SweepPhase::Branch((i + 1) as usize)
    } else if m.cleaned.len() > 0 {
        SweepPhase::CleanVersions
    } else {
        SweepPhase::PruneStale
    }
}

/// A sweep that has reported a removal, if there was one.
pub open spec fn reported(m: SweepModel, e: SweepEvent, line: Seq<char>) -> SweepModel {
    if e is Done {
        SweepModel { cleaned: m.cleaned.push(line), ..m }
    } else {
        m
    }
}

/// The sweep after an event. Removals that are refused are passed over; a dataset that cannot be
/// read ends the sweep, as does an answer to another question.
pub open spec fn next(m: SweepModel, e: SweepEvent) -> SweepModel {
    match m.phase {
        SweepPhase::Tag(i) => if e is Done || e is Refused {
            let n = reported(m, e, tags::removal_text(Removed::OrphanedTag, m.orphans[i as int]));
            in_phase(n, after_tag(n, i as int))
        } else {
            in_phase(m, SweepPhase::Failed)
        },
        SweepPhase::Relist => match e {
            SweepEvent::Tags(list) => {
                let n = SweepModel {
                    stale: stale_names(m.branches, list@, m.branches.len() as int),
                    ..m
                };
                in_phase(n, after_branch(n, -1))
            },
            _ => in_phase(m, SweepPhase::Failed),
        },
        SweepPhase::Branch(i) => if e is Done || e is Refused {
            let n = reported(m, e, tags::removal_text(Removed::StaleBranch, m.stale[i as int]));
            in_phase(n, after_branch(n, i as int))
        } else {
            in_phase(m, SweepPhase::Failed)
        },
        SweepPhase::CleanVersions => in_phase(m, SweepPhase::PruneStale),
        SweepPhase::PruneStale => in_phase(m, SweepPhase::PruneEmpty),
        SweepPhase::PruneEmpty => in_phase(m, SweepPhase::Finished),
        SweepPhase::Finished => m,
        SweepPhase::Failed => m,
    }
}

/// The action is the one that the phase calls for.
pub open spec fn calls_for(m: SweepModel, a: SweepAction) -> bool {
    match m.phase {
        SweepPhase::Tag(i) => a matches SweepAction::DeleteTag { name } && name@
            == m.orphans[i as int],
        SweepPhase::Relist => a is ListTags,
        SweepPhase::Branch(i) => a matches SweepAction::DeleteBranch { branch } && branch@
            == m.stale[i as int],
        SweepPhase::CleanVersions => a is CleanVersions,
        SweepPhase::PruneStale => a is PruneStale,
        SweepPhase::PruneEmpty => a is PruneEmpty,
        SweepPhase::Finished => a is Stop,
        SweepPhase::Failed => a is Stop,
    }
}

/// The first phase of a sweep.
pub open spec fn started(branches: Seq<Seq<char>>, orphans: Seq<Seq<char>>) -> SweepModel {
    let m = SweepModel {
        branches,
        orphans,
        stale: Seq::empty(),
        cleaned: Seq::empty(),
        phase: SweepPhase::Relist,
    };
    in_phase(m, after_tag(m, -1))
}

proof fn lemma_same_stale(branches: Seq<String>, tags: Seq<TagEntry>, n: int)
    requires
        0 <= n <= branches.len(),
    ensures
        tags::stale(branches, tags, n) == stale_names(grouping::views(branches), tags, n),
    decreases n,
{
    if n > 0 {
        lemma_same_stale(branches, tags, n - 1);
    }
}

impl Sweep {
    #[verifier::type_invariant]
    spec fn well_formed(self) -> bool {
        in_good_order(self@)
    }

    /// Starts a sweep of a dataset with the given branches and tags.
    pub fn start(branches: Vec<String>, tags: &Vec<TagEntry>) -> (s: Sweep)
        ensures
            s@ == started(
                grouping::views(branches@),
                tags::orphans(tags@, branches@, tags@.len() as int),
            ),
    {
        let orphans = tags::orphaned_tags(tags, &branches);
        let phase = if orphans.len() > 0 {
            SweepPhase::Tag(0)
        } else {
            SweepPhase::Relist
        };
        let s = Sweep { branches, orphans, stale: Vec::new(), cleaned: Vec::new(), phase };
        assert(s@ =~= started(
            grouping::views(branches@),
            tags::orphans(tags@, branches@, tags@.len() as int),
        ));
        s
    }

    /// The phase of the sweep.
    pub fn phase(&self) -> (r: SweepPhase)
        ensures
            r == self@.phase,
    {
        self.phase
    }

    /// The reports of what was removed so far.
    pub fn cleaned(&self) -> (r: &Vec<String>)
        ensures
            grouping::views(r@) == self@.cleaned,
    {
        &self.cleaned
    }

    /// What is to be done next.
    pub fn action(&self) -> (a: SweepAction)
        ensures
            calls_for(self@, a),
            in_good_order(self@),
    {
        proof {
            use_type_invariant(self);
        }
        match self.phase {
            SweepPhase::Tag(i) => SweepAction::DeleteTag { name: self.orphans[i].clone() },
            SweepPhase::Relist => SweepAction::ListTags,
            SweepPhase::Branch(i) => SweepAction::DeleteBranch { branch: self.stale[i].clone() },
            SweepPhase::CleanVersions => SweepAction::CleanVersions,
            SweepPhase::PruneStale => SweepAction::PruneStale,
            SweepPhase::PruneEmpty => SweepAction::PruneEmpty,
            SweepPhase::Finished => SweepAction::Stop,
            SweepPhase::Failed => SweepAction::Stop,
        }
    }

    fn phase_after_branch(stale: &Vec<String>, cleaned: &Vec<String>, i: usize) -> (p: SweepPhase)
        requires
            i <= stale.len(),
        ensures
            p == if i < stale.len() {
                SweepPhase::Branch(i)
            } else if cleaned@.len() > 0 {
                SweepPhase::CleanVersions
            } else {
                SweepPhase::PruneStale
            },
    {
        if i < stale.len() {
            SweepPhase::Branch(i)
        } else if cleaned.len() > 0 {
            SweepPhase::CleanVersions
        } else {
            SweepPhase::PruneStale
        }
    }

    /// Takes note of what came of the action.
    pub fn advance(self, event: SweepEvent) -> (s: Sweep)
        ensures
            s@ == next(self@, event),
    {
        proof {
            use_type_invariant(&self);
        }
        let ghost m = self@;
        let Sweep { branches, orphans, stale, cleaned, phase } = self;
        let mut stale = stale;
        let mut cleaned = cleaned;
        let ghost cleaned_before = cleaned@;
        assert(orphans.len() <= usize::MAX && orphans.len() == m.orphans.len());
        assert(stale.len() <= usize::MAX && stale.len() == m.stale.len());
        let done: bool = match &event {
            SweepEvent::Done => true,
            _ => false,
        };
        let settled: bool = match &event {
            SweepEvent::Done => true,
            SweepEvent::Refused => true,
            _ => false,
        };
        let after: SweepPhase = match phase {
            SweepPhase::Tag(i) => {
                if settled {
                    if done {
                        cleaned.push(
                            tags::describe_removal(Removed::OrphanedTag, orphans[i].as_str()),
                        );
                        proof {
                            assert(grouping::views(cleaned@) =~= grouping::views(
                                cleaned_before,
                            ).push(tags::removal_text(Removed::OrphanedTag, m.orphans[i as int])));
                        }
                    }
                    if i + 1 < orphans.len() {
                        SweepPhase::Tag(i + 1)
                    } else {
                        SweepPhase::Relist
                    }
                } else {
                    SweepPhase::Failed
                }
            },
            SweepPhase::Relist => {
                match &event {
                    SweepEvent::Tags(list) => {
                        stale = tags::stale_rebuild_branches(&branches, list);
                        proof {
                            lemma_same_stale(branches@, list@, branches@.len() as int);
                        }
                        Self::phase_after_branch(&stale, &cleaned, 0)
                    },
                    _ => SweepPhase::Failed,
                }
            },
            SweepPhase::Branch(i) => {
                if settled {
                    if done {
                        cleaned.push(
                            tags::describe_removal(Removed::StaleBranch, stale[i].as_str()),
                        );
                        proof {
                            assert(grouping::views(cleaned@) =~= grouping::views(
                                cleaned_before,
                            ).push(tags::removal_text(Removed::StaleBranch, m.stale[i as int])));
                        }
                    }
                    Self::phase_after_branch(&stale, &cleaned, i + 1)
                } else {
                    SweepPhase::Failed
                }
            },
            SweepPhase::CleanVersions => SweepPhase::PruneStale,
            SweepPhase::PruneStale => SweepPhase::PruneEmpty,
            SweepPhase::PruneEmpty => SweepPhase::Finished,
            SweepPhase::Finished => SweepPhase::Finished,
            SweepPhase::Failed => SweepPhase::Failed,
        };
        let s = Sweep { branches, orphans, stale, cleaned, phase: after };
        assert(s@ =~= next(m, event));
        s
    }
}

proof fn lemma_stale_names(branches: Seq<Seq<char>>, tags: Seq<TagEntry>, n: int, k: int)
    requires
        0 <= n <= branches.len(),
        0 <= k < stale_names(branches, tags, n).len(),
    ensures
        tags::is_stale(stale_names(branches, tags, n)[k], tags),
    decreases n,
{
    if n > 0 {
        let rest = stale_names(branches, tags, n - 1);
        if k < rest.len() {
            assert(stale_names(branches, tags, n)[k] == rest[k]);
            lemma_stale_names(branches, tags, n - 1, k);
        }
    }
}

/// A branch that a tag records when the tags are listed again is spared, as is every branch that is
/// no rebuild branch, the default branch among them.
pub proof fn live_branches_are_spared(m: SweepModel, list: Vec<TagEntry>, k: int)
    requires
        m.phase is Relist,
        0 <= k < next(m, SweepEvent::Tags(list)).stale.len(),
    ensures
        ({
            let b = next(m, SweepEvent::Tags(list)).stale[k];
            &&& schema::names_rebuild_branch(b)
            &&& !tags::is_tagged(list@, b)
            &&& b != schema::MAIN_BRANCH@
        }),
{
    lemma_stale_names(m.branches, list@, m.branches.len() as int, k);
    schema::main_is_not_reserved();
    let b = next(m, SweepEvent::Tags(list)).stale[k];
    schema::rebuild_names_are_reserved_names(b);
}

/// Once the stale branches are dealt with, old versions are cleaned up exactly if something was
/// removed, and the index directories are pruned in any case.
pub proof fn pruning_always_follows(m: SweepModel, i: int)
    requires
        i + 1 >= m.stale.len(),
    ensures
        after_branch(m, i) == SweepPhase::CleanVersions <==> m.cleaned.len() > 0,
        after_branch(m, i) == SweepPhase::PruneStale <==> m.cleaned.len() == 0,
        forall|e: SweepEvent|
            m.phase is CleanVersions ==> (#[trigger] next(m, e)).phase == SweepPhase::PruneStale,
        forall|e: SweepEvent|
            m.phase is PruneStale ==> (#[trigger] next(m, e)).phase == SweepPhase::PruneEmpty,
        forall|e: SweepEvent|
            m.phase is PruneEmpty ==> (#[trigger] next(m, e)).phase == SweepPhase::Finished,
{
}

/// A refused removal is not reported, and does not stop the sweep.
pub proof fn refusals_are_passed_over(m: SweepModel)
    requires
        m.phase is Tag || m.phase is Branch,
    ensures
        next(m, SweepEvent::Refused).cleaned == m.cleaned,
        !(next(m, SweepEvent::Refused).phase is Failed),
{
}


/// A branch is stale where it is named as a rebuild branch and no tag records it, and the stale
/// branches keep the order of the branches.
pub proof fn stale_branches_keep_their_order(
    branches: Seq<Seq<char>>,
    tags: Seq<TagEntry>,
    n: int,
)
    requires
        0 <= n < branches.len(),
    ensures
        (".-compact_rebuild_"@.is_prefix_of(branches[n]) && forall|i: int|
            0 <= i < tags.len() ==> (#[trigger] tags[i]).branch is None || tags[i].branch->0@
                != branches[n]) ==> stale_names(branches, tags, n + 1) == stale_names(
            branches,
            tags,
            n,
        ).push(branches[n]),
        !".-compact_rebuild_"@.is_prefix_of(branches[n]) ==> stale_names(branches, tags, n + 1)
            == stale_names(branches, tags, n),
        (exists|i: int|
            0 <= i < tags.len() && (#[trigger] tags[i]).branch is Some && tags[i].branch->0@
                == branches[n]) ==> stale_names(branches, tags, n + 1) == stale_names(
            branches,
            tags,
            n,
        ),
        stale_names(branches, tags, 0).len() == 0,
{
    tags::stale_branches_are_untagged_rebuilds(branches[n], tags);
}

/// A sweep begins with the first orphaned tag, or without one by listing the tags, and with nothing
/// reported.
pub proof fn sweeps_begin_with_the_orphans(branches: Seq<Seq<char>>, orphans: Seq<Seq<char>>)
    requires
        orphans.len() <= usize::MAX,
    ensures
        started(branches, orphans).cleaned.len() == 0,
        started(branches, orphans).branches == branches,
        started(branches, orphans).orphans == orphans,
        orphans.len() > 0 ==> started(branches, orphans).phase == SweepPhase::Tag(0),
        orphans.len() == 0 ==> started(branches, orphans).phase == SweepPhase::Relist,
{
}

/// Each orphaned tag is deleted by its name; a deletion is reported, and the next tag follows, or
/// after the last one the tags are listed again.
pub proof fn each_orphan_is_deleted_in_turn(m: SweepModel, i: usize, a: SweepAction)
    requires
        m.phase == SweepPhase::Tag(i),
        in_good_order(m),
        m.orphans.len() <= usize::MAX,
        calls_for(m, a),
    ensures
        a is DeleteTag && a->name@ == m.orphans[i as int],
        next(m, SweepEvent::Done).cleaned.len() == m.cleaned.len() + 1,
        next(m, SweepEvent::Done).cleaned.drop_last() == m.cleaned,
        next(m, SweepEvent::Done).cleaned.last() == "orphaned_tag:"@ + m.orphans[i as int],
        i + 1 < m.orphans.len() ==> next(m, SweepEvent::Done).phase == SweepPhase::Tag(
            (i + 1) as usize,
        ) && next(m, SweepEvent::Refused).phase == SweepPhase::Tag((i + 1) as usize),
        i + 1 == m.orphans.len() ==> next(m, SweepEvent::Done).phase == SweepPhase::Relist && next(
            m,
            SweepEvent::Refused,
        ).phase == SweepPhase::Relist,
        next(m, SweepEvent::Broken).phase == SweepPhase::Failed,
        next(m, SweepEvent::Broken).cleaned == m.cleaned,
        next(m, SweepEvent::Done).orphans == m.orphans,
        next(m, SweepEvent::Done).branches == m.branches,
{
    assert(m.cleaned.push("orphaned_tag:"@ + m.orphans[i as int]).drop_last() =~= m.cleaned);
}

/// Each stale branch is deleted by its name; a deletion is reported, and the next branch follows.
/// After the last one old versions are cleaned up if anything was reported.
pub proof fn each_stale_branch_is_deleted_in_turn(m: SweepModel, i: usize, a: SweepAction)
    requires
        m.phase == SweepPhase::Branch(i),
        in_good_order(m),
        m.stale.len() <= usize::MAX,
        calls_for(m, a),
    ensures
        a is DeleteBranch && a->branch@ == m.stale[i as int],
        next(m, SweepEvent::Done).cleaned.len() == m.cleaned.len() + 1,
        next(m, SweepEvent::Done).cleaned.drop_last() == m.cleaned,
        next(m, SweepEvent::Done).cleaned.last() == "stale_branch:"@ + m.stale[i as int],
        i + 1 < m.stale.len() ==> next(m, SweepEvent::Done).phase == SweepPhase::Branch(
            (i + 1) as usize,
        ) && next(m, SweepEvent::Refused).phase == SweepPhase::Branch((i + 1) as usize),
        i + 1 == m.stale.len() ==> next(m, SweepEvent::Done).phase == SweepPhase::CleanVersions,
        i + 1 == m.stale.len() && m.cleaned.len() == 0 ==> next(m, SweepEvent::Refused).phase
            == SweepPhase::PruneStale,
        i + 1 == m.stale.len() && m.cleaned.len() > 0 ==> next(m, SweepEvent::Refused).phase
            == SweepPhase::CleanVersions,
        next(m, SweepEvent::Broken).phase == SweepPhase::Failed,
        next(m, SweepEvent::Done).stale == m.stale,
{
    assert(m.cleaned.push("stale_branch:"@ + m.stale[i as int]).drop_last() =~= m.cleaned);
}

/// The tags are listed again before any branch goes: the listed tags decide which branches are
/// stale, and any other answer ends the sweep. A sweep that is over asks for nothing more.
pub proof fn branches_go_by_the_tags_as_they_are(
    m: SweepModel,
    list: Vec<TagEntry>,
    e: SweepEvent,
    a: SweepAction,
)
    requires
        m.phase == SweepPhase::Relist,
        calls_for(m, a),
    ensures
        a is ListTags,
        !(e is Tags) ==> next(m, e).phase == SweepPhase::Failed && next(m, e).cleaned == m.cleaned,
        ({
            let n = next(m, SweepEvent::Tags(list));
            &&& n.cleaned == m.cleaned
            &&& n.stale == stale_names(m.branches, list@, m.branches.len() as int)
            &&& n.stale.len() > 0 ==> n.phase == SweepPhase::Branch(0)
            &&& n.stale.len() == 0 && m.cleaned.len() > 0 ==> n.phase == SweepPhase::CleanVersions
            &&& n.stale.len() == 0 && m.cleaned.len() == 0 ==> n.phase == SweepPhase::PruneStale
        }),
{
}

/// What each of the last phases asks for, and that a sweep that is over stays as it is.
pub proof fn the_last_phases_ask_for_their_work(m: SweepModel, e: SweepEvent, a: SweepAction)
    requires
        calls_for(m, a),
    ensures
        m.phase is CleanVersions ==> a is CleanVersions,
        m.phase is PruneStale ==> a is PruneStale,
        m.phase is PruneEmpty ==> a is PruneEmpty,
        m.phase is Finished || m.phase is Failed ==> a is Stop && next(m, e) == m,
        a is Stop ==> m.phase is Finished || m.phase is Failed,
{
}

} // verus!
