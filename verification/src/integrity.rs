//! Integrity of a domain's dataset: what lies on disk against what tags and branches refer to.

use crate::cleanup;
use crate::filter;
use crate::grouping;
use crate::order;
use crate::order::Ranked;
use crate::schema;
use crate::schema::{StoreError, MAIN_BRANCH};
use crate::tags;
use crate::tags::TagEntry;
use crate::text;
use vstd::prelude::*;
use vstd::string::*;

verus! {

/// The result of an integrity check of a domain.
#[derive(Debug)]
pub struct IntegrityReport {
    pub domain: String,
    pub branches: Vec<BranchInfo>,
    pub tagged_versions: usize,
    pub on_disk_index_dirs: Vec<String>,
    pub referenced_index_uuids: Vec<String>,
    pub stale_index_dirs: Vec<String>,
    pub dangling_index_refs: Vec<String>,
    pub on_disk_data_files: usize,
    pub on_disk_manifests: usize,
    pub rebuild_branches: Vec<String>,
    pub orphaned_tags: Vec<String>,
    pub stale_rebuild_branches: Vec<String>,
    pub ok: bool,
    pub warnings: Vec<String>,
}

/// A branch that tags record, with its newest tagged version.
#[derive(Debug)]
pub struct BranchInfo {
    pub name: String,
    pub version: u64,
}

/// The branch that a tag stands on.
pub open spec fn branch_of(tag: TagEntry) -> Seq<char> {
    match tag.branch {
        Some(b) => b@,
        None => MAIN_BRANCH@,
    }
}

/// The branches that the tags stand on.
pub open spec fn branches_of(tags: Seq<TagEntry>) -> Seq<Seq<char>> {
    Seq::new(tags.len(), |i: int| branch_of(tags[i]))
}

/// Each branch with a tag is listed once, with the newest version that is tagged on it.
pub open spec fn lists_branches(tags: Seq<TagEntry>, infos: Seq<BranchInfo>) -> bool {
    &&& forall|i: int, j: int|
        #![trigger infos[i], infos[j]]
        0 <= i < j < infos.len() ==> infos[i].name@ != infos[j].name@
    &&& forall|k: int| 0 <= k < infos.len() ==> is_newest_version(tags, #[trigger] infos[k])
    &&& forall|i: int|
        0 <= i < tags.len() ==> is_branch_listed(infos, branch_of(#[trigger] tags[i]))
}

/// The version is one that is tagged on the branch, and no newer one is.
pub open spec fn is_newest_version(tags: Seq<TagEntry>, info: BranchInfo) -> bool {
    &&& exists|i: int|
        0 <= i < tags.len() && branch_of(#[trigger] tags[i]) == info.name@ && tags[i].version
            == info.version
    &&& forall|i: int|
        0 <= i < tags.len() && branch_of(#[trigger] tags[i]) == info.name@ ==> tags[i].version
            <= info.version
}

/// The list names the branch.
pub open spec fn is_branch_listed(infos: Seq<BranchInfo>, name: Seq<char>) -> bool {
    exists|k: int| 0 <= k < infos.len() && (#[trigger] infos[k]).name@ == name
}

fn branch_names(tags: &Vec<TagEntry>) -> (r: Vec<String>)
    ensures
        r.len() == tags.len(),
        grouping::views(r@) == branches_of(tags@),
{
    let mut out: Vec<String> = Vec::new();
    let mut i: usize = 0;
    while i < tags.len()
        invariant
            i <= tags.len(),
            out.len() == i,
            forall|k: int| 0 <= k < i ==> (#[trigger] out@[k])@ == branch_of(tags@[k]),
        decreases tags.len() - i,
    {
        let name: String = match &tags[i].branch {
            Some(b) => b.clone(),
            None => MAIN_BRANCH.to_owned(),
        };
        out.push(name);
        i = i + 1;
    }
    assert(grouping::views(out@) =~= branches_of(tags@));
    out
}

/// The branches that tags stand on, with their newest tagged versions.
pub fn branch_infos(tags: &Vec<TagEntry>) -> (infos: Vec<BranchInfo>)
    ensures
        lists_branches(tags@, infos@),
{
    let names = branch_names(tags);
    let ghost keys = branches_of(tags@);
    let groups = grouping::positions_by_key(&names);
    let mut infos: Vec<BranchInfo> = Vec::new();
    let mut g: usize = 0;
    while g < groups.len()
        invariant
            g <= groups.len(),
            names.len() == tags.len(),
            keys == branches_of(tags@),
            keys == grouping::views(names@),
            grouping::lists_positions(keys, groups@),
            infos.len() == g,
            forall|k: int|
                0 <= k < g ==> (#[trigger] infos@[k]).name@ == keys[groups@[k]@[0] as int]
                    && is_newest_version(tags@, infos@[k]),
        decreases groups.len() - g,
    {
        let group = &groups[g];
        let first = group[0];
        assert(names@[first as int]@ == keys[first as int]);
        let mut newest: u64 = tags[first].version;
        let ghost mut at: int = first as int;
        let mut i: usize = 0;
        while i < group.len()
            invariant
                i <= group.len(),
                g < groups.len(),
                *group == groups@[g as int],
                group@.len() > 0,
                first == group@[0],
                keys == branches_of(tags@),
                grouping::lists_positions(keys, groups@),
                0 <= at < tags@.len(),
                keys[at] == keys[first as int],
                tags@[at].version == newest,
                forall|a: int|
                    0 <= a < i ==> tags@[(#[trigger] group@[a]) as int].version <= newest,
            decreases group.len() - i,
        {
            let p = group[i];
            assert(groups@[g as int]@[i as int] == p);
            assert(p < tags@.len() && keys[p as int] == keys[first as int]);
            if tags[p].version > newest {
                newest = tags[p].version;
                proof {
                    at = p as int;
                }
            }
            i = i + 1;
        }
        let info = BranchInfo { name: names[first].clone(), version: newest };
        proof {
            assert(branch_of(tags@[at]) == info.name@);
            assert forall|t: int|
                0 <= t < tags@.len() && branch_of(#[trigger] tags@[t])
                    == info.name@ implies tags@[t].version <= info.version by {
                assert(tags.len() <= usize::MAX);
                assert(grouping::is_listed(groups@, t as usize));
                let h = choose|h: int|
                    0 <= h < groups@.len() && (#[trigger] groups@[h])@.contains(t as usize);
                let a = choose|a: int| 0 <= a < groups@[h]@.len() && groups@[h]@[a] == t as usize;
                assert(keys[t] == keys[groups@[h]@[0] as int]);
                assert(h == g);
                assert(group@[a] == t as usize);
            }
            assert(is_newest_version(tags@, info));
        }
        infos.push(info);
        g = g + 1;
    }
    proof {
        assert forall|i: int| 0 <= i < tags@.len() implies is_branch_listed(
            infos@,
            branch_of(#[trigger] tags@[i]),
        ) by {
            assert(tags.len() <= usize::MAX);
            assert(grouping::is_listed(groups@, i as usize));
            let h = choose|h: int|
                0 <= h < groups@.len() && (#[trigger] groups@[h])@.contains(i as usize);
            let a = choose|a: int| 0 <= a < groups@[h]@.len() && groups@[h]@[a] == i as usize;
            assert(keys[i] == keys[groups@[h]@[0] as int]);
            assert(infos@[h].name@ == branch_of(tags@[i]));
        }
    }
    infos
}

/// Where index ids are read from.
#[derive(Debug)]
pub enum IndexSource {
    /// The head of the default branch.
    MainHead,
    /// The head of a listed branch.
    BranchHead(String),
    /// Versions that are tagged on a branch.
    Tagged { branch: String, versions: Vec<u64> },
}

/// The source is the head of the branch.
pub open spec fn is_head_of(source: IndexSource, name: Seq<char>) -> bool {
    source matches IndexSource::BranchHead(b) && b@ == name
}

/// The source is a list of versions that are tagged on its branch.
pub open spec fn is_tagged_source(source: IndexSource, tags: Seq<TagEntry>) -> bool {
    source matches IndexSource::Tagged { branch, versions } && (forall|v: int|
        0 <= v < versions@.len() ==> is_tagged_version(tags, branch@, #[trigger] versions@[v]))
}

/// The source lists the tag's version, on the tag's branch.
pub open spec fn has_tag(source: IndexSource, tag: TagEntry) -> bool {
    source matches IndexSource::Tagged { branch, versions } && branch@ == branch_of(tag)
        && versions@.contains(tag.version)
}

/// Every source of index ids is planned: the head of the default branch, the heads of all branches
/// in their order, and every tagged version, with its branch.
pub open spec fn covers_sources(
    branches: Seq<String>,
    tags: Seq<TagEntry>,
    plan: Seq<IndexSource>,
) -> bool {
    &&& plan.len() > branches.len()
    &&& plan[0] == IndexSource::MainHead
    &&& forall|k: int|
        1 <= k <= branches.len() ==> is_head_of(#[trigger] plan[k], branches[k - 1]@)
    &&& forall|k: int|
        branches.len() < k < plan.len() ==> is_tagged_source(#[trigger] plan[k], tags)
    &&& forall|i: int| 0 <= i < tags.len() ==> is_planned(plan, #[trigger] tags[i])
}

/// The version is tagged on the branch.
pub open spec fn is_tagged_version(tags: Seq<TagEntry>, branch: Seq<char>, version: u64) -> bool {
    exists|i: int|
        0 <= i < tags.len() && branch_of(#[trigger] tags[i]) == branch && tags[i].version == version
}

/// A tag's version is planned with the tag's branch.
pub open spec fn is_planned(plan: Seq<IndexSource>, tag: TagEntry) -> bool {
    exists|k: int| 0 <= k < plan.len() && has_tag(#[trigger] plan[k], tag)
}

/// Plans from where to read the ids of all live indexes.
pub fn plan_index_sources(branches: &Vec<String>, tags: &Vec<TagEntry>) -> (plan: Vec<IndexSource>)
    ensures
        covers_sources(branches@, tags@, plan@),
{
    let names = branch_names(tags);
    let ghost keys = branches_of(tags@);
    let groups = grouping::positions_by_key(&names);
    let mut plan: Vec<IndexSource> = Vec::new();
    plan.push(IndexSource::MainHead);
    let mut i: usize = 0;
    while i < branches.len()
        invariant
            i <= branches.len(),
            plan.len() == i + 1,
            plan@[0] == IndexSource::MainHead,
            forall|k: int| 1 <= k <= i ==> is_head_of(#[trigger] plan@[k], branches@[k - 1]@),
        decreases branches.len() - i,
    {
        plan.push(IndexSource::BranchHead(branches[i].clone()));
        i = i + 1;
    }
    let mut g: usize = 0;
    while g < groups.len()
        invariant
            g <= groups.len(),
            names.len() == tags.len(),
            keys == branches_of(tags@),
            keys == grouping::views(names@),
            grouping::lists_positions(keys, groups@),
            plan.len() == branches.len() + 1 + g,
            plan@[0] == IndexSource::MainHead,
            forall|k: int|
                1 <= k <= branches.len() ==> is_head_of(#[trigger] plan@[k], branches@[k - 1]@),
            forall|k: int|
                branches.len() < k < plan.len() ==> is_tagged_source(#[trigger] plan@[k], tags@),
            forall|h: int, a: int|
                #![trigger groups@[h]@[a]]
                0 <= h < g && 0 <= a < groups@[h]@.len() ==> is_planned(
                    plan@,
                    tags@[groups@[h]@[a] as int],
                ),
        decreases groups.len() - g,
    {
        let group = &groups[g];
        let first = group[0];
        let mut versions: Vec<u64> = Vec::new();
        let mut a: usize = 0;
        while a < group.len()
            invariant
                a <= group.len(),
                g < groups.len(),
                *group == groups@[g as int],
                group@.len() > 0,
                first == group@[0],
                keys == branches_of(tags@),
                grouping::lists_positions(keys, groups@),
                versions.len() == a,
                forall|v: int|
                    0 <= v < a ==> #[trigger] versions@[v] == tags@[group@[v] as int].version,
            decreases group.len() - a,
        {
            let p = group[a];
            assert(groups@[g as int]@[a as int] == p);
            assert(p < tags@.len());
            versions.push(tags[p].version);
            a = a + 1;
        }
        assert(names@[first as int]@ == keys[first as int]);
        let branch = names[first].clone();
        let ghost before = plan@;
        let ghost vs = versions@;
        plan.push(IndexSource::Tagged { branch, versions });
        proof {
            let added = plan@[before.len() as int];
            assert forall|v: int| 0 <= v < vs.len() implies is_tagged_version(
                tags@,
                branch@,
                #[trigger] vs[v],
            ) by {
                let p = groups@[g as int]@[v];
                assert(keys[p as int] == keys[first as int]);
                assert(branch_of(tags@[p as int]) == branch@);
            }
            assert forall|h: int, a: int|
                #![trigger groups@[h]@[a]]
                0 <= h < g + 1 && 0 <= a < groups@[h]@.len() implies is_planned(
                plan@,
                tags@[groups@[h]@[a] as int],
            ) by {
                let tag = tags@[groups@[h]@[a] as int];
                if h < g {
                    assert(is_planned(before, tag));
                    let k = choose|k: int|
                        0 <= k < before.len() && has_tag(#[trigger] before[k], tag);
                    assert(plan@[k] == before[k]);
                } else {
                    let p = groups@[h]@[a];
                    assert(keys[p as int] == keys[first as int]);
                    assert(vs[a] == tag.version);
                    assert(vs.contains(tag.version));
                    assert(branch_of(tag) == branch@);
                    assert(has_tag(plan@[before.len() as int], tag));
                }
            }
            assert(is_tagged_source(added, tags@));
            assert forall|k: int| 1 <= k <= branches.len() implies is_head_of(
                #[trigger] plan@[k],
                branches@[k - 1]@,
            ) by {
                assert(plan@[k] == before[k]);
            }
            assert forall|k: int| branches.len() < k < plan.len() implies is_tagged_source(
                #[trigger] plan@[k],
                tags@,
            ) by {
                if k < before.len() {
                    assert(plan@[k] == before[k]);
                }
            }
        }
        g = g + 1;
    }
    proof {
        assert forall|i: int| 0 <= i < tags@.len() implies is_planned(plan@, #[trigger] tags@[i]) by {
            assert(tags.len() <= usize::MAX);
            assert(grouping::is_listed(groups@, i as usize));
            let h = choose|h: int|
                0 <= h < groups@.len() && (#[trigger] groups@[h])@.contains(i as usize);
            let a = choose|a: int| 0 <= a < groups@[h]@.len() && groups@[h]@[a] == i as usize;
            assert(is_planned(plan@, tags@[groups@[h]@[a] as int]));
        }
    }
    plan
}

/// The place of one reading of index ids.
#[derive(Debug)]
pub enum ReadPlace {
    MainHead,
    BranchHead(String),
    TaggedBranch(String),
    TaggedVersion { branch: String, version: u64 },
}

/// What a reading of index ids gave: the ids, or why there are none. A tagged branch that cannot be
/// opened is one reading; a failure holds the reason.
#[derive(Debug)]
pub enum ReadOutcome {
    Ids(Vec<String>),
    /// The branch, or the tagged version, could not be opened.
    Unavailable(String),
    /// The indexes could not be loaded.
    LoadFailed(String),
}

/// One reading of index ids.
#[derive(Debug)]
pub struct IndexRead {
    pub place: ReadPlace,
    pub outcome: ReadOutcome,
}

/// The reading gave no ids.
pub open spec fn has_failed(read: IndexRead) -> bool {
    !(read.outcome is Ids)
}

/// The reason of a failure.
pub open spec fn reason(outcome: ReadOutcome) -> Seq<char> {
    match outcome {
        ReadOutcome::Ids(_) => Seq::empty(),
        ReadOutcome::Unavailable(e) => e@,
        ReadOutcome::LoadFailed(e) => e@,
    }
}

/// The message of a failed reading.
pub open spec fn failure_text(read: IndexRead) -> Seq<char> {
    let load = read.outcome is LoadFailed;
    let e = reason(read.outcome);
    "collect UUIDs (strict): "@ + match read.place {
        ReadPlace::MainHead => "load_indices failed for HEAD on main: "@ + e,
        ReadPlace::BranchHead(b) => if load {
            "load_indices failed for HEAD on branch '"@ + b@ + "': "@ + e
        } else {
            "checkout_branch '"@ + b@ + "' failed: "@ + e
        },
        ReadPlace::TaggedBranch(b) => "checkout_branch '"@ + b@
            + "' for tagged versions failed: "@ + e,
        ReadPlace::TaggedVersion { branch, version } => if load {
            "load_indices failed for version "@ + text::decimal(version as nat)
                + " on branch '"@ + branch@ + "': "@ + e
        } else {
            "checkout version "@ + text::decimal(version as nat) + " on branch '"@ + branch@
                + "' failed: "@ + e
        },
    }
}

/// Describes a failed reading.
pub fn describe_failure(read: &IndexRead) -> (r: String)
    ensures
        r@ == failure_text(*read),
{
    let mut out = "collect UUIDs (strict): ".to_owned();
    let load: bool = match &read.outcome {
        ReadOutcome::LoadFailed(_) => true,
        _ => false,
    };
    match &read.place {
        ReadPlace::MainHead => {
            out.append("load_indices failed for HEAD on main: ");
        },
        ReadPlace::BranchHead(b) => {
            if load {
                out.append("load_indices failed for HEAD on branch '");
                out.append(b.as_str());
                out.append("': ");
            } else {
                out.append("checkout_branch '");
                out.append(b.as_str());
                out.append("' failed: ");
            }
        },
        ReadPlace::TaggedBranch(b) => {
            out.append("checkout_branch '");
            out.append(b.as_str());
            out.append("' for tagged versions failed: ");
        },
        ReadPlace::TaggedVersion { branch, version } => {
            if load {
                out.append("load_indices failed for version ");
                text::push_decimal(&mut out, *version);
                out.append(" on branch '");
                out.append(branch.as_str());
                out.append("': ");
            } else {
                out.append("checkout version ");
                text::push_decimal(&mut out, *version);
                out.append(" on branch '");
                out.append(branch.as_str());
                out.append("' failed: ");
            }
        },
    }
    match &read.outcome {
        ReadOutcome::Ids(_) => {},
        ReadOutcome::Unavailable(e) => {
            out.append(e.as_str());
        },
        ReadOutcome::LoadFailed(e) => {
            out.append(e.as_str());
        },
    }
    assert(out@ =~= failure_text(*read));
    out
}

/// A reading gave the id.
pub open spec fn gave(read: IndexRead, id: Seq<char>) -> bool {
    read.outcome matches ReadOutcome::Ids(ids) && filter::lists(ids@, id)
}

/// One of the first `n` readings gave the id.
pub open spec fn some_gave(reads: Seq<IndexRead>, id: Seq<char>, n: int) -> bool {
    exists|i: int| 0 <= i < n && gave(#[trigger] reads[i], id)
}

/// The reading is the first that failed.
pub open spec fn is_first_failure(reads: Seq<IndexRead>, i: int) -> bool {
    &&& 0 <= i < reads.len()
    &&& has_failed(reads[i])
    &&& forall|k: int| 0 <= k < i ==> !has_failed(#[trigger] reads[k])
}

/// Some reading failed with the message, and none before it.
pub open spec fn fails_first_with(reads: Seq<IndexRead>, message: Seq<char>) -> bool {
    exists|i: int| #[trigger] is_first_failure(reads, i) && message == failure_text(reads[i])
}

/// The ids of the live indexes, each once. Strictly, the first failed reading is an error; otherwise
/// failed readings are passed over.
pub fn collect_live_index_uuids(reads: &Vec<IndexRead>, strict: bool) -> (r: Result<
    Vec<String>,
    StoreError,
>)
    ensures
        match r {
            Ok(live) => {
                &&& strict ==> forall|i: int|
                    0 <= i < reads.len() ==> !has_failed(#[trigger] reads@[i])
                &&& forall|id: Seq<char>| #[trigger]
                    filter::lists(live@, id) <==> some_gave(reads@, id, reads@.len() as int)
                &&& grouping::views(live@).no_duplicates()
            },
            Err(e) => strict && fails_first_with(reads@, e.message()),
        },
{
    let mut live: Vec<String> = Vec::new();
    let mut i: usize = 0;
    while i < reads.len()
        invariant
            i <= reads.len(),
            strict ==> forall|k: int| 0 <= k < i ==> !has_failed(#[trigger] reads@[k]),
            forall|id: Seq<char>| #[trigger]
                filter::lists(live@, id) <==> some_gave(reads@, id, i as int),
            grouping::views(live@).no_duplicates(),
        decreases reads.len() - i,
    {
        match &reads[i].outcome {
            ReadOutcome::Ids(ids) => {
                let ghost before = live@;
                let mut j: usize = 0;
                while j < ids.len()
                    invariant
                        j <= ids.len(),
                        i < reads.len(),
                        reads@[i as int].outcome == ReadOutcome::Ids(*ids),
                        forall|id: Seq<char>| #[trigger]
                            filter::lists(live@, id) <==> filter::lists(before, id)
                                || filter::lists(ids@.take(j as int), id),
                        grouping::views(live@).no_duplicates(),
                    decreases ids.len() - j,
                {
                    let ghost s = live@;
                    let id = &ids[j];
                    if !tags::list_has(&live, id.as_str()) {
                        live.push(id.clone());
                        proof {
                            let v = grouping::views(live@);
                            let u = grouping::views(s);
                            assert(v =~= u.push(id@));
                            assert forall|x: int, y: int|
                                0 <= x < v.len() && 0 <= y < v.len() && x != y implies v[x]
                                != v[y] by {
                                if x < u.len() && y < u.len() {
                                    assert(u[x] != u[y]);
                                } else if x < u.len() {
                                    assert(s[x]@ == u[x]);
                                } else {
                                    assert(s[y]@ == u[y]);
                                }
                            }
                        }
                    }
                    proof {
                        lemma_lists_next(ids@, j as int);
                        assert forall|t: Seq<char>| #[trigger]
                            filter::lists(live@, t) <==> filter::lists(s, t) || t == id@ by {
                            if filter::lists(s, t) {
                                let k = choose|k: int|
                                    0 <= k < s.len() && (#[trigger] s[k])@ == t;
                                assert(live@[k]@ == t);
                            }
                            if t == id@ && !filter::lists(s, t) {
                                assert(live@[s.len() as int]@ == t);
                            }
                        }
                    }
                    j = j + 1;
                }
                proof {
                    assert(ids@.take(j as int) =~= ids@);
                    assert forall|id: Seq<char>| #[trigger]
                        filter::lists(live@, id) <==> some_gave(reads@, id, i + 1) by {
                        lemma_some_gave_next(reads@, id, i as int);
                        assert(gave(reads@[i as int], id) == filter::lists(ids@, id));
                        assert(filter::lists(before, id) == some_gave(reads@, id, i as int));
                    }
                }
            },
            _ => {
                if strict {
                    assert(is_first_failure(reads@, i as int));
                    return Err(StoreError::Internal(describe_failure(&reads[i])));
                }
                proof {
                    assert forall|id: Seq<char>| #[trigger]
                        filter::lists(live@, id) <==> some_gave(reads@, id, i + 1) by {
                        lemma_some_gave_next(reads@, id, i as int);
                        assert(!gave(reads@[i as int], id));
                    }
                }
            },
        }
        i = i + 1;
    }
    Ok(live)
}

proof fn lemma_lists_next(list: Seq<String>, j: int)
    requires
        0 <= j < list.len(),
    ensures
        forall|t: Seq<char>| #[trigger]
            filter::lists(list.take(j + 1), t) <==> filter::lists(list.take(j), t) || t == list[j]@,
{
    let a = list.take(j);
    let b = list.take(j + 1);
    assert forall|t: Seq<char>| #[trigger] filter::lists(b, t) <==> filter::lists(a, t) || t
        == list[j]@ by {
        if filter::lists(b, t) {
            let k = choose|k: int| 0 <= k < b.len() && (#[trigger] b[k])@ == t;
            if k < j {
                assert(a[k]@ == t);
            }
        }
        if filter::lists(a, t) {
            let k = choose|k: int| 0 <= k < a.len() && (#[trigger] a[k])@ == t;
            assert(b[k]@ == t);
        }
        if t == list[j]@ {
            assert(b[j]@ == t);
        }
    }
}

proof fn lemma_some_gave_next(reads: Seq<IndexRead>, id: Seq<char>, n: int)
    requires
        0 <= n < reads.len(),
    ensures
        some_gave(reads, id, n + 1) == (some_gave(reads, id, n) || gave(reads[n], id)),
{
    if some_gave(reads, id, n) {
        let i = choose|i: int| 0 <= i < n && gave(#[trigger] reads[i], id);
        assert(gave(reads[i], id));
    }
}

/// Index ids that any reading gave survive pruning: a strict collection holds them all, so their
/// directories are not stale.
pub proof fn live_indexes_survive_pruning(
    reads: Seq<IndexRead>,
    live: Seq<String>,
    dirs: Seq<String>,
    i: int,
    id: Seq<char>,
)
    requires
        forall|t: Seq<char>| #[trigger]
            filter::lists(live, t) <==> some_gave(reads, t, reads.len() as int),
        0 <= i < reads.len(),
        gave(reads[i], id),
    ensures
        !cleanup::absent(dirs, live, dirs.len() as int).contains(id),
{
    assert(some_gave(reads, id, reads.len() as int));
    let a = cleanup::absent(dirs, live, dirs.len() as int);
    if a.contains(id) {
        let k = choose|k: int| 0 <= k < a.len() && a[k] == id;
        cleanup::live_dirs_are_never_pruned(dirs, live, dirs.len() as int, k);
    }
}

struct TextKey {
    s: String,
}

impl Ranked for TextKey {
    open(self) spec fn before(a: Self, b: Self) -> bool {
        text::text_le(a.s@, b.s@)
    }

    proof fn lemma_order(a: Self, b: Self, c: Self) {
        text::text_le_is_a_linear_order(a.s@, b.s@, c.s@);
    }

    fn is_before(&self, other: &Self) -> (r: bool) {
        text::str_le(self.s.as_str(), other.s.as_str())
    }
}

/// Texts in strictly ascending order.
pub open spec fn ascending(list: Seq<String>) -> bool {
    forall|i: int, j: int|
        #![trigger list[i], list[j]]
        0 <= i < j < list.len() ==> text::text_le(list[i]@, list[j]@) && list[i]@ != list[j]@
}

/// Sorts texts and drops repeats.
pub fn sorted_names(names: &Vec<String>) -> (r: Vec<String>)
    ensures
        ascending(r@),
        forall|s: Seq<char>| #[trigger] filter::lists(r@, s) <==> filter::lists(names@, s),
{
    let mut keys: Vec<TextKey> = Vec::new();
    let mut i: usize = 0;
    while i < names.len()
        invariant
            i <= names.len(),
            keys.len() == i,
            forall|k: int| 0 <= k < i ==> (#[trigger] keys@[k]).s@ == names@[k]@,
        decreases names.len() - i,
    {
        keys.push(TextKey { s: names[i].clone() });
        i = i + 1;
    }
    let p = order::sorted_positions(&keys);
    let mut out: Vec<String> = Vec::new();
    let mut i: usize = 0;
    while i < p.len()
        invariant
            i <= p.len(),
            p.len() == names.len(),
            keys.len() == names.len(),
            order::sorts(keys@, p@),
            forall|k: int| 0 <= k < keys.len() ==> (#[trigger] keys@[k]).s@ == names@[k]@,
            ascending(out@),
            out.len() == 0 <==> i == 0,
            i > 0 ==> out@.last()@ == names@[p@[i - 1] as int]@,
            forall|k: int| 0 <= k < out.len() ==> filter::lists(names@, (#[trigger] out@[k])@),
            forall|a: int|
                0 <= a < i ==> filter::lists(out@, names@[(#[trigger] p@[a]) as int]@),
        decreases p.len() - i,
    {
        let name = &names[p[i]];
        let repeated: bool = out.len() > 0 && out[out.len() - 1] == *name;
        let ghost before = out@;
        proof {
            if i > 0 {
                assert(order::precedes(keys@, p@[i - 1] as int, p@[i as int] as int));
                assert(text::text_le(names@[p@[i - 1] as int]@, name@));
            }
        }
        if !repeated {
            out.push(name.clone());
            proof {
                assert forall|x: int, y: int|
                    #![trigger out@[x], out@[y]]
                    0 <= x < y < out.len() implies text::text_le(out@[x]@, out@[y]@) && out@[x]@
                    != out@[y]@ by {
                    if y < before.len() {
                        assert(out@[x] == before[x] && out@[y] == before[y]);
                    } else {
                        let last = before.last();
                        assert(out@[x] == before[x]);
                        if x < before.len() - 1 {
                            assert(text::text_le(before[x]@, before[before.len() - 1]@));
                            text::text_le_is_a_linear_order(before[x]@, last@, name@);
                            if before[x]@ == name@ {
                                text::text_le_is_a_linear_order(last@, name@, last@);
                            }
                        }
                    }
                }
                assert(filter::lists(names@, name@)) by {
                    assert(names@[p@[i as int] as int]@ == name@);
                }
            }
        }
        proof {
            assert(out@.last()@ == name@);
            assert(out@[out.len() - 1]@ == name@);
            assert forall|a: int| 0 <= a < i + 1 implies filter::lists(
                out@,
                names@[(#[trigger] p@[a]) as int]@,
            ) by {
                if a < i {
                    let t = names@[p@[a] as int]@;
                    assert(filter::lists(before, t));
                    let k = choose|k: int| 0 <= k < before.len() && (#[trigger] before[k])@ == t;
                    assert(out@[k]@ == t);
                }
            }
        }
        i = i + 1;
    }
    proof {
        assert(names.len() <= usize::MAX);
        assert forall|s: Seq<char>| #[trigger] filter::lists(out@, s) <==> filter::lists(
            names@,
            s,
        ) by {
            if filter::lists(out@, s) {
                let k = choose|k: int| 0 <= k < out@.len() && (#[trigger] out@[k])@ == s;
                assert(filter::lists(names@, out@[k]@));
            }
            if filter::lists(names@, s) {
                let j = choose|j: int| 0 <= j < names@.len() && (#[trigger] names@[j])@ == s;
                assert(p@.contains(j as usize));
                let a = choose|a: int| 0 <= a < p@.len() && p@[a] == j as usize;
                assert(filter::lists(out@, names@[p@[a] as int]@));
            }
        }
    }
    out
}

/// The rebuild branches among the first `n`.
pub open spec fn rebuilds(branches: Seq<String>, n: int) -> Seq<Seq<char>>
    decreases n,
{
    if n <= 0 {
        Seq::empty()
    } else if schema::names_rebuild_branch(branches[n - 1]@) {
        rebuilds(branches, n - 1).push(branches[n - 1]@)
    } else {
        rebuilds(branches, n - 1)
    }
}

fn rebuild_branches(branches: &Vec<String>) -> (r: Vec<String>)
    ensures
        grouping::views(r@) == rebuilds(branches@, branches@.len() as int),
{
    let mut out: Vec<String> = Vec::new();
    let mut i: usize = 0;
    assert(grouping::views(out@) =~= Seq::<Seq<char>>::empty());
    while i < branches.len()
        invariant
            i <= branches.len(),
            grouping::views(out@) == rebuilds(branches@, i as int),
        decreases branches.len() - i,
    {
        if schema::is_compact_rebuild_branch(branches[i].as_str()) {
            let ghost before = out@;
            out.push(branches[i].clone());
            assert(grouping::views(out@) =~= grouping::views(before).push(branches@[i as int]@));
        }
        i = i + 1;
    }
    out
}

/// How an orphaned tag is reported.
pub open spec fn orphan_text(tag: TagEntry) -> Seq<char> {
    tag.name@ + " (branch="@ + tag.branch->0@ + " version="@ + text::decimal(tag.version as nat)
        + ")"@
}

/// The reports of the orphaned tags among the first `n`.
pub open spec fn orphan_texts(tags: Seq<TagEntry>, branches: Seq<String>, n: int) -> Seq<Seq<char>>
    decreases n,
{
    if n <= 0 {
        Seq::empty()
    } else if tags::is_orphaned(tags[n - 1], branches) {
        orphan_texts(tags, branches, n - 1).push(orphan_text(tags[n - 1]))
    } else {
        orphan_texts(tags, branches, n - 1)
    }
}

fn describe_orphans(tags: &Vec<TagEntry>, branches: &Vec<String>) -> (r: Vec<String>)
    ensures
        grouping::views(r@) == orphan_texts(tags@, branches@, tags@.len() as int),
{
    let mut out: Vec<String> = Vec::new();
    let mut i: usize = 0;
    assert(grouping::views(out@) =~= Seq::<Seq<char>>::empty());
    while i < tags.len()
        invariant
            i <= tags.len(),
            grouping::views(out@) == orphan_texts(tags@, branches@, i as int),
        decreases tags.len() - i,
    {
        match &tags[i].branch {
            Some(b) => {
                if !tags::list_has(branches, b.as_str()) {
                    let ghost before = out@;
                    let mut line = tags[i].name.clone();
                    line.append(" (branch=");
                    line.append(b.as_str());
                    line.append(" version=");
                    text::push_decimal(&mut line, tags[i].version);
                    line.append(")");
                    assert(line@ =~= orphan_text(tags@[i as int]));
                    out.push(line);
                    assert(grouping::views(out@) =~= grouping::views(before).push(
                        orphan_text(tags@[i as int]),
                    ));
                }
            },
            None => {},
        }
        i = i + 1;
    }
    out
}

/// A finding: a number, and what it counts.
pub open spec fn finding(n: nat, rest: Seq<char>) -> Seq<char> {
    text::decimal(n) + rest
}

/// The findings of a check as warnings, in order.
pub open spec fn warning_texts(
    stale_dirs: nat,
    dangling: nat,
    rebuilds: nat,
    orphans: nat,
    stale_branches: nat,
) -> Seq<Seq<char>> {
    let none = Seq::<Seq<char>>::empty();
    (if stale_dirs > 0 {
        none.push(
            finding(
                stale_dirs,
                " stale index directories on disk not referenced by any tagged version"@,
            ),
        )
    } else {
        none
    }) + (if dangling > 0 {
        none.push(
            finding(
                dangling,
                " index UUIDs referenced by tagged manifests have no backing directory on disk (historical FTS may be degraded)"@,
            ),
        )
    } else {
        none
    }) + (if rebuilds > 1 {
        none.push(finding(rebuilds, " rebuild branches exist (expected ≤1 after compaction)"@))
    } else {
        none
    }) + (if orphans > 0 {
        none.push(
            finding(
                orphans,
                " tags point to non-existent branches (orphaned tags pin dead data)"@,
            ),
        )
    } else {
        none
    }) + (if stale_branches > 0 {
        none.push(
            finding(stale_branches, " rebuild branches have no tags (stale — should be deleted)"@),
        )
    } else {
        none
    })
}

fn push_finding(out: &mut Vec<String>, n: usize, rest: &str)
    ensures
        grouping::views(final(out)@) == grouping::views(old(out)@).push(finding(n as nat, rest@)),
{
    let mut line = String::new();
    text::push_decimal(&mut line, n as u64);
    line.append(rest);
    assert(line@ =~= finding(n as nat, rest@));
    out.push(line);
    assert(grouping::views(out@) =~= grouping::views(old(out)@).push(finding(n as nat, rest@)));
}

fn warnings_of(
    stale_dirs: usize,
    dangling: usize,
    rebuilds: usize,
    orphans: usize,
    stale_branches: usize,
) -> (r: Vec<String>)
    ensures
        grouping::views(r@) == warning_texts(
            stale_dirs as nat,
            dangling as nat,
            rebuilds as nat,
            orphans as nat,
            stale_branches as nat,
        ),
{
    let mut out: Vec<String> = Vec::new();
    if stale_dirs > 0 {
        push_finding(
            &mut out,
            stale_dirs,
            " stale index directories on disk not referenced by any tagged version",
        );
    }
    if dangling > 0 {
        push_finding(
            &mut out,
            dangling,
            " index UUIDs referenced by tagged manifests have no backing directory on disk (historical FTS may be degraded)",
        );
    }
    if rebuilds > 1 {
        push_finding(
            &mut out,
            rebuilds,
            " rebuild branches exist (expected ≤1 after compaction)",
        );
    }
    if orphans > 0 {
        push_finding(
            &mut out,
            orphans,
            " tags point to non-existent branches (orphaned tags pin dead data)",
        );
    }
    if stale_branches > 0 {
        push_finding(
            &mut out,
            stale_branches,
            " rebuild branches have no tags (stale — should be deleted)",
        );
    }
    assert(grouping::views(out@) =~= warning_texts(
        stale_dirs as nat,
        dangling as nat,
        rebuilds as nat,
        orphans as nat,
        stale_branches as nat,
    ));
    out
}

/// A check finds nothing wrong.
pub open spec fn is_clean(r: IntegrityReport) -> bool {
    &&& r.stale_index_dirs@.len() == 0
    &&& r.dangling_index_refs@.len() == 0
    &&& r.rebuild_branches@.len() <= 1
    &&& r.orphaned_tags@.len() == 0
    &&& r.stale_rebuild_branches@.len() == 0
}

/// The report compares the readings as it should.
pub open spec fn reports(
    r: IntegrityReport,
    tags: Seq<TagEntry>,
    branches: Seq<String>,
    live: Seq<String>,
    dirs: Seq<String>,
) -> bool {
    let n = branches.len() as int;
    &&& lists_branches(tags, r.branches@)
    &&& r.tagged_versions == tags.len()
    &&& ascending(r.on_disk_index_dirs@)
    &&& forall|s: Seq<char>| #[trigger]
        filter::lists(r.on_disk_index_dirs@, s) <==> filter::lists(dirs, s)
    &&& grouping::views(r.referenced_index_uuids@) == grouping::views(live)
    &&& grouping::views(r.stale_index_dirs@) == cleanup::absent(
        r.on_disk_index_dirs@,
        live,
        r.on_disk_index_dirs@.len() as int,
    )
    &&& grouping::views(r.dangling_index_refs@) == cleanup::absent(
        live,
        r.on_disk_index_dirs@,
        live.len() as int,
    )
    &&& grouping::views(r.rebuild_branches@) == rebuilds(branches, n)
    &&& grouping::views(r.orphaned_tags@) == orphan_texts(tags, branches, tags.len() as int)
    &&& grouping::views(r.stale_rebuild_branches@) == tags::stale(branches, tags, n)
    &&& r.ok == is_clean(r)
    &&& grouping::views(r.warnings@) == warning_texts(
        r.stale_index_dirs@.len(),
        r.dangling_index_refs@.len(),
        r.rebuild_branches@.len(),
        r.orphaned_tags@.len(),
        r.stale_rebuild_branches@.len(),
    )
}

/// The report of a domain without a dataset.
pub fn absent_dataset_report(domain: &str) -> (r: IntegrityReport)
    ensures
        r.domain@ == domain@,
        r.branches@.len() == 0,
        r.tagged_versions == 0,
        r.on_disk_index_dirs@.len() == 0,
        r.referenced_index_uuids@.len() == 0,
        is_clean(r),
        r.rebuild_branches@.len() == 0,
        r.on_disk_data_files == 0,
        r.on_disk_manifests == 0,
        r.ok,
        grouping::views(r.warnings@) == seq!["dataset does not exist on disk"@],
{
    let mut warnings: Vec<String> = Vec::new();
    warnings.push("dataset does not exist on disk".to_owned());
    assert(grouping::views(warnings@) =~= seq!["dataset does not exist on disk"@]);
    IntegrityReport {
        domain: domain.to_owned(),
        branches: Vec::new(),
        tagged_versions: 0,
        on_disk_index_dirs: Vec::new(),
        referenced_index_uuids: Vec::new(),
        stale_index_dirs: Vec::new(),
        dangling_index_refs: Vec::new(),
        on_disk_data_files: 0,
        on_disk_manifests: 0,
        rebuild_branches: Vec::new(),
        orphaned_tags: Vec::new(),
        stale_rebuild_branches: Vec::new(),
        ok: true,
        warnings,
    }
}

/// Reports on a domain's dataset, from its tags and branches, the ids of its live indexes, the names
/// of the index directories on disk, and the numbers of data files and manifests.
pub fn integrity_report(
    domain: &str,
    tags: &Vec<TagEntry>,
    branches: &Vec<String>,
    live: &Vec<String>,
    dirs: &Vec<String>,
    data_files: usize,
    manifests: usize,
) -> (r: IntegrityReport)
    ensures
        r.domain@ == domain@,
        r.on_disk_data_files == data_files,
        r.on_disk_manifests == manifests,
        reports(r, tags@, branches@, live@, dirs@),
{
    let infos = branch_infos(tags);
    let on_disk = sorted_names(dirs);
    let stale_dirs = cleanup::names_absent_from(&on_disk, live);
    let dangling = cleanup::names_absent_from(live, &on_disk);
    let rebuild = rebuild_branches(branches);
    let orphaned = describe_orphans(tags, branches);
    let stale = tags::stale_rebuild_branches(branches, tags);
    let warnings = warnings_of(
        stale_dirs.len(),
        dangling.len(),
        rebuild.len(),
        orphaned.len(),
        stale.len(),
    );
    let ok = stale_dirs.len() == 0 && dangling.len() == 0 && rebuild.len() <= 1 && orphaned.len()
        == 0 && stale.len() == 0;
    let referenced = filter::copy_strings(live);
    assert(grouping::views(referenced@) =~= grouping::views(live@));
    IntegrityReport {
        domain: domain.to_owned(),
        branches: infos,
        tagged_versions: tags.len(),
        on_disk_index_dirs: on_disk,
        referenced_index_uuids: referenced,
        stale_index_dirs: stale_dirs,
        dangling_index_refs: dangling,
        on_disk_data_files: data_files,
        on_disk_manifests: manifests,
        rebuild_branches: rebuild,
        orphaned_tags: orphaned,
        stale_rebuild_branches: stale,
        ok,
        warnings,
    }
}

/// A dataset is reported as sound exactly when there is nothing to warn of.
pub proof fn sound_iff_no_warnings(
    r: IntegrityReport,
    tags: Seq<TagEntry>,
    branches: Seq<String>,
    live: Seq<String>,
    dirs: Seq<String>,
)
    requires
        reports(r, tags, branches, live, dirs),
    ensures
        r.ok <==> r.warnings@.len() == 0,
{
    assert(grouping::views(r.warnings@).len() == r.warnings@.len());
}

/// A file name has the extension: the part behind the last dot, where something stands in front of
/// the dot.
pub open spec fn has_extension(name: Seq<char>, extension: Seq<char>) -> bool {
    exists|stem: Seq<char>|
        stem.len() > 0 && name == #[trigger] (stem + seq!['.'] + extension)
}

/// The number of names among the first `n` with the extension.
pub open spec fn with_extension(names: Seq<String>, extension: Seq<char>, n: int) -> nat
    decreases n,
{
    if n <= 0 {
        0
    } else if has_extension(names[n - 1]@, extension) {
        with_extension(names, extension, n - 1) + 1
    } else {
        with_extension(names, extension, n - 1)
    }
}

fn name_has_extension(name: &str, extension: &str) -> (r: bool)
    ensures
        r == has_extension(name@, extension@),
{
    let x = text::chars_of(name);
    let e = text::chars_of(extension);
    if x.len() < 2 || x.len() - 2 < e.len() {
        proof {
            if has_extension(name@, extension@) {
                let stem = choose|stem: Seq<char>|
                    stem.len() > 0 && name@ == #[trigger] (stem + seq!['.'] + extension@);
                assert(name@.len() == stem.len() + 1 + extension@.len());
            }
        }
        return false;
    }
    let at = x.len() - e.len();
    if x[at - 1] != '.' {
        proof {
            if has_extension(name@, extension@) {
                let stem = choose|stem: Seq<char>|
                    stem.len() > 0 && name@ == #[trigger] (stem + seq!['.'] + extension@);
                assert((stem + seq!['.'] + extension@)[stem.len() as int] == '.');
                assert(stem.len() == at - 1);
            }
        }
        return false;
    }
    let mut i: usize = 0;
    while i < e.len()
        invariant
            i <= e.len(),
            at + e.len() == x.len(),
            at >= 2,
            x@ == name@,
            e@ == extension@,
            x@[at - 1] == '.',
            forall|k: int| 0 <= k < i ==> x@[at + k] == #[trigger] e@[k],
        decreases e.len() - i,
    {
        if x[at + i] != e[i] {
            proof {
                if has_extension(name@, extension@) {
                    let stem = choose|stem: Seq<char>|
                        stem.len() > 0 && name@ == #[trigger] (stem + seq!['.'] + extension@);
                    assert(name@.len() == stem.len() + 1 + extension@.len());
                    assert((stem + seq!['.'] + extension@)[at + i] == extension@[i as int]);
                }
            }
            return false;
        }
        i = i + 1;
    }
    proof {
        let stem = x@.take(at - 1);
        assert(name@ =~= stem + seq!['.'] + extension@);
    }
    true
}

/// Counts the file names with an extension.
pub fn count_with_extension(names: &Vec<String>, extension: &str) -> (r: usize)
    ensures
        r == with_extension(names@, extension@, names@.len() as int),
{
    let mut count: usize = 0;
    let mut i: usize = 0;
    while i < names.len()
        invariant
            i <= names.len(),
            count <= i,
            count == with_extension(names@, extension@, i as int),
        decreases names.len() - i,
    {
        if name_has_extension(names[i].as_str(), extension) {
            count = count + 1;
        }
        i = i + 1;
    }
    count
}


/// A tag stands on the branch that it records, and without one on the branch called main. Each
/// tag's branch is listed with a version that is no older than the tag's.
pub proof fn branches_are_listed_with_their_newest_version(
    tags: Seq<TagEntry>,
    infos: Seq<BranchInfo>,
    i: int,
) -> (k: int)
    requires
        lists_branches(tags, infos),
        0 <= i < tags.len(),
    ensures
        0 <= k < infos.len(),
        tags[i].branch is Some ==> infos[k].name@ == tags[i].branch->0@,
        tags[i].branch is None ==> infos[k].name@ == "main"@,
        infos[k].version >= tags[i].version,
{
    assert(is_branch_listed(infos, branch_of(tags[i])));
    let k = choose|k: int| 0 <= k < infos.len() && (#[trigger] infos[k]).name@ == branch_of(
        tags[i],
    );
    assert(is_newest_version(tags, infos[k]));
    k
}

/// Each listed version is the version of a tag on the listed branch, and no branch is listed twice.
pub proof fn listed_versions_are_tagged(
    tags: Seq<TagEntry>,
    infos: Seq<BranchInfo>,
    k: int,
    l: int,
) -> (i: int)
    requires
        lists_branches(tags, infos),
        0 <= k < infos.len(),
        0 <= l < infos.len(),
    ensures
        0 <= i < tags.len(),
        tags[i].version == infos[k].version,
        tags[i].branch is Some ==> infos[k].name@ == tags[i].branch->0@,
        tags[i].branch is None ==> infos[k].name@ == "main"@,
        k != l ==> infos[k].name@ != infos[l].name@,
{
    assert(is_newest_version(tags, infos[k]));
    choose|i: int|
        0 <= i < tags.len() && branch_of(#[trigger] tags[i]) == infos[k].name@ && tags[i].version
            == infos[k].version
}

/// Every tagged version is read, on the branch that its tag records, the one called main where it
/// records none.
pub proof fn every_tagged_version_is_read(
    branches: Seq<String>,
    tags: Seq<TagEntry>,
    plan: Seq<IndexSource>,
    i: int,
) -> (k: int)
    requires
        covers_sources(branches, tags, plan),
        0 <= i < tags.len(),
    ensures
        branches.len() < k < plan.len(),
        plan[k] is Tagged,
        plan[k]->versions@.contains(tags[i].version),
        tags[i].branch is Some ==> plan[k]->branch@ == tags[i].branch->0@,
        tags[i].branch is None ==> plan[k]->branch@ == "main"@,
{
    assert(is_planned(plan, tags[i]));
    let k = choose|k: int| 0 <= k < plan.len() && has_tag(#[trigger] plan[k], tags[i]);
    if 1 <= k <= branches.len() {
        assert(is_head_of(plan[k], branches[k - 1]@));
    }
    k
}

/// The heads of the default branch and of all listed branches are read, each at its place, and
/// behind them only versions that are tagged on the branch that they are read on.
pub proof fn every_head_is_read(
    branches: Seq<String>,
    tags: Seq<TagEntry>,
    plan: Seq<IndexSource>,
    k: int,
    v: int,
)
    requires
        covers_sources(branches, tags, plan),
        0 <= k < plan.len(),
    ensures
        k == 0 ==> plan[k] is MainHead,
        1 <= k <= branches.len() ==> plan[k] is BranchHead && plan[k]->BranchHead_0@
            == branches[k - 1]@,
        k > branches.len() ==> plan[k] is Tagged,
        k > branches.len() && 0 <= v < plan[k]->versions@.len() ==> exists|i: int|
            0 <= i < tags.len() && (#[trigger] tags[i]).version == plan[k]->versions@[v] && (
            match tags[i].branch {
                Some(b) => plan[k]->branch@ == b@,
                None => plan[k]->branch@ == "main"@,
            }),
{
    if 1 <= k <= branches.len() {
        assert(is_head_of(plan[k], branches[k - 1]@));
    }
    if k > branches.len() {
        assert(is_tagged_source(plan[k], tags));
        if 0 <= v < plan[k]->versions@.len() {
            assert(is_tagged_version(tags, plan[k]->branch@, plan[k]->versions@[v]));
            let i = choose|i: int|
                0 <= i < tags.len() && branch_of(#[trigger] tags[i]) == plan[k]->branch@
                    && tags[i].version == plan[k]->versions@[v];
            assert(tags[i].version == plan[k]->versions@[v]);
        }
    }
}

/// A collection fails only strictly and only where a reading failed; what it fails with ends with
/// the reason of that reading.
pub proof fn failures_end_with_their_reason(read: IndexRead, e: Seq<char>)
    requires
        match read.outcome {
            ReadOutcome::Ids(_) => false,
            ReadOutcome::Unavailable(t) => t@ == e,
            ReadOutcome::LoadFailed(t) => t@ == e,
        },
    ensures
        has_failed(read),
        failure_text(read).len() >= e.len(),
        failure_text(read).skip(failure_text(read).len() - e.len()) == e,
{
    let t = failure_text(read);
    assert(t.skip(t.len() - e.len()) =~= e);
}

/// A reading that gave ids did not fail, and gave exactly the ids that it lists.
pub proof fn readings_give_their_ids(read: IndexRead, ids: Seq<String>, id: Seq<char>)
    requires
        read.outcome matches ReadOutcome::Ids(v) && v@ == ids,
    ensures
        !has_failed(read),
        gave(read, id) <==> exists|i: int| 0 <= i < ids.len() && (#[trigger] ids[i])@ == id,
{
}

/// A branch is reported as a rebuild branch exactly when it has the prefix of one, in the order of
/// the branches.
pub proof fn rebuild_branches_keep_their_order(branches: Seq<String>, n: int)
    requires
        0 <= n < branches.len(),
    ensures
        ".-compact_rebuild_"@.is_prefix_of(branches[n]@) ==> rebuilds(branches, n + 1) == rebuilds(
            branches,
            n,
        ).push(branches[n]@),
        !".-compact_rebuild_"@.is_prefix_of(branches[n]@) ==> rebuilds(branches, n + 1) == rebuilds(
            branches,
            n,
        ),
        rebuilds(branches, 0).len() == 0,
{
}

/// A tag is reported exactly when it records a branch that is not listed; the report begins with
/// the tag's name, and names the branch behind it.
pub proof fn orphaned_tags_are_reported_by_name(
    tags: Seq<TagEntry>,
    branches: Seq<String>,
    n: int,
)
    requires
        0 <= n < tags.len(),
    ensures
        tags[n].branch is None ==> orphan_texts(tags, branches, n + 1) == orphan_texts(
            tags,
            branches,
            n,
        ),
        tags[n].branch is Some && (exists|j: int|
            0 <= j < branches.len() && (#[trigger] branches[j])@ == tags[n].branch->0@)
            ==> orphan_texts(tags, branches, n + 1) == orphan_texts(tags, branches, n),
        tags[n].branch is Some && (forall|j: int|
            0 <= j < branches.len() ==> (#[trigger] branches[j])@ != tags[n].branch->0@) ==> ({
            let all = orphan_texts(tags, branches, n + 1);
            let named = tags[n].name@;
            let branch = tags[n].branch->0@;
            let at = named.len() as int + 9;
            &&& all.len() == orphan_texts(tags, branches, n).len() + 1
            &&& all.drop_last() == orphan_texts(tags, branches, n)
            &&& all.last().take(named.len() as int) == named
            &&& all.last().subrange(at, at + branch.len()) == branch
            &&& all.last().skip(at + branch.len()) == " version="@ + text::decimal(
                tags[n].version as nat,
            ) + ")"@
        }),
        orphan_texts(tags, branches, 0).len() == 0,
{
    reveal_strlit(" (branch=");
    if tags[n].branch is Some {
        let line = orphan_text(tags[n]);
        let named = tags[n].name@;
        let branch = tags[n].branch->0@;
        let at = named.len() as int + 9;
        assert(line.take(named.len() as int) =~= named);
        assert(line.subrange(at, at + branch.len()) =~= branch);
        assert(line.skip(at + branch.len()) =~= " version="@ + text::decimal(
            tags[n].version as nat,
        ) + ")"@);
        assert(orphan_texts(tags, branches, n).push(line).drop_last() =~= orphan_texts(
            tags,
            branches,
            n,
        ));
    }
}

/// The number of kinds of findings there are.
pub open spec fn kinds_found(
    stale_dirs: nat,
    dangling: nat,
    rebuilds: nat,
    orphans: nat,
    stale_branches: nat,
) -> int {
    (if stale_dirs > 0 { 1int } else { 0 }) + (if dangling > 0 { 1int } else { 0 }) + (
    if rebuilds >= 2 { 1int } else { 0 }) + (if orphans > 0 { 1int } else { 0 }) + (
    if stale_branches > 0 { 1int } else { 0 })
}

/// There is one warning for each kind of finding; a single rebuild branch is none. Each begins with
/// its own number: stale directories come first and stale branches last.
pub proof fn each_kind_of_finding_is_warned_of_once(
    stale_dirs: nat,
    dangling: nat,
    rebuilds: nat,
    orphans: nat,
    stale_branches: nat,
)
    ensures
        ({
            let w = warning_texts(stale_dirs, dangling, rebuilds, orphans, stale_branches);
            let begins = |i: int, n: nat| text::decimal(n).is_prefix_of(w[i]);
            &&& w.len() == kinds_found(stale_dirs, dangling, rebuilds, orphans, stale_branches)
            &&& stale_dirs > 0 ==> begins(0, stale_dirs)
            &&& dangling > 0 ==> begins(kinds_found(stale_dirs, 0, 0, 0, 0), dangling)
            &&& rebuilds >= 2 ==> begins(kinds_found(stale_dirs, dangling, 0, 0, 0), rebuilds)
            &&& orphans > 0 ==> begins(kinds_found(stale_dirs, dangling, rebuilds, 0, 0), orphans)
            &&& stale_branches > 0 ==> begins(w.len() - 1, stale_branches)
        }),
{
    let w = warning_texts(stale_dirs, dangling, rebuilds, orphans, stale_branches);
    assert forall|n: nat, rest: Seq<char>| #[trigger] text::decimal(n).is_prefix_of(
        finding(n, rest),
    ) by {
        assert(finding(n, rest).subrange(0, text::decimal(n).len() as int) =~= text::decimal(n));
    }
}

/// An index directory on disk is reported as stale exactly when no live index has its name, and a
/// live index as dangling exactly when no directory has its name. The directories on disk are
/// reported as they are.
pub proof fn disk_and_tags_are_compared_both_ways(
    r: IntegrityReport,
    tags: Seq<TagEntry>,
    branches: Seq<String>,
    live: Seq<String>,
    dirs: Seq<String>,
    id: Seq<char>,
)
    requires
        reports(r, tags, branches, live, dirs),
    ensures
        filter::lists(r.on_disk_index_dirs@, id) <==> filter::lists(dirs, id),
        filter::lists(r.referenced_index_uuids@, id) <==> filter::lists(live, id),
        filter::lists(r.stale_index_dirs@, id) <==> filter::lists(dirs, id) && !filter::lists(
            live,
            id,
        ),
        filter::lists(r.dangling_index_refs@, id) <==> filter::lists(live, id) && !filter::lists(
            dirs,
            id,
        ),
        r.tagged_versions == tags.len(),
{
    let on_disk = r.on_disk_index_dirs@;
    lemma_views_list(r.stale_index_dirs@, id);
    lemma_views_list(r.dangling_index_refs@, id);
    lemma_views_list(r.referenced_index_uuids@, id);
    lemma_views_list(live, id);
    lemma_absent(on_disk, live, on_disk.len() as int, id);
    lemma_absent(live, on_disk, live.len() as int, id);
    lemma_views_list(on_disk, id);
    assert(on_disk.take(on_disk.len() as int) =~= on_disk);
    assert(live.take(live.len() as int) =~= live);
}

proof fn lemma_views_list(list: Seq<String>, id: Seq<char>)
    ensures
        filter::lists(list, id) == grouping::views(list).contains(id),
{
    let v = grouping::views(list);
    if filter::lists(list, id) {
        let i = choose|i: int| 0 <= i < list.len() && (#[trigger] list[i])@ == id;
        assert(v[i] == id);
    }
    if v.contains(id) {
        let i = choose|i: int| 0 <= i < v.len() && v[i] == id;
        assert(list[i]@ == id);
    }
}

proof fn lemma_absent(names: Seq<String>, list: Seq<String>, n: int, id: Seq<char>)
    requires
        0 <= n <= names.len(),
    ensures
        cleanup::absent(names, list, n).contains(id) <==> filter::lists(names.take(n), id)
            && !filter::lists(list, id),
    decreases n,
{
    let a = cleanup::absent(names, list, n);
    if n > 0 {
        lemma_absent(names, list, n - 1, id);
        lemma_lists_next(names, n - 1);
        assert(filter::lists(names.take(n - 1 + 1), id) == (filter::lists(names.take(n - 1), id)
            || id == names[n - 1]@));
        let b = cleanup::absent(names, list, n - 1);
        if a.contains(id) {
            let k = choose|k: int| 0 <= k < a.len() && a[k] == id;
            cleanup::live_dirs_are_never_pruned(names, list, n, k);
            if k < b.len() {
                assert(b[k] == id);
            }
        }
        if b.contains(id) {
            let k = choose|k: int| 0 <= k < b.len() && b[k] == id;
            assert(a[k] == id);
        }
        if names[n - 1]@ == id && !filter::lists(list, id) {
            assert(a[b.len() as int] == id);
        }
    }
}

/// The name has the extension where something, a dot and the extension make it up, and each name
/// with it is counted once.
pub proof fn names_count_by_what_follows_the_dot(
    names: Seq<String>,
    stem: Seq<char>,
    extension: Seq<char>,
    n: int,
)
    requires
        0 <= n < names.len(),
    ensures
        stem.len() > 0 && names[n]@ == stem + seq!['.'] + extension ==> with_extension(
            names,
            extension,
            n + 1,
        ) == with_extension(names, extension, n) + 1,
        with_extension(names, extension, n + 1) > with_extension(names, extension, n)
            ==> names[n]@.len() >= extension.len() + 2 && names[n]@.skip(
            names[n]@.len() - extension.len(),
        ) == extension && names[n]@[names[n]@.len() - extension.len() - 1] == '.',
        with_extension(names, extension, n + 1) <= with_extension(names, extension, n) + 1,
        with_extension(names, extension, 0) == 0,
{
    let name = names[n]@;
    if has_extension(name, extension) {
        let s = choose|s: Seq<char>| s.len() > 0 && name == #[trigger] (s + seq!['.'] + extension);
        assert(name.skip(name.len() - extension.len()) =~= extension);
        assert(name[s.len() as int] == '.');
    }
}

} // verus!
