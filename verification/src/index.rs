//! Index maintenance and opening of datasets: the decisions around each.

use crate::filter;
use crate::rollup;
use crate::tags;
use vstd::arithmetic::power::*;
use vstd::prelude::*;
use vstd::string::*;

verus! {

/// The name of the full-text index.
pub const FTS_INDEX: &'static str = "content_fts";

/// Fragments up to which a dataset is left alone by compaction.
pub const COMPACT_FRAGMENT_THRESHOLD: usize = 16;

/// The base of the index hierarchy.
pub const ROLLUP_BASE: usize = 3;

/// What to do with the full-text index.
#[derive(Debug, Clone, Copy, PartialEq, Eq, Structural)]
pub enum FtsStep {
    /// Create it over all fragments.
    Create,
    /// Index the fragments that it does not cover yet.
    Append,
    /// Leave it.
    Nothing,
}

/// Makes sure that the full-text index exists: it is created unless one of the indexes is it.
pub fn ensure_fts_created(index_names: &Vec<String>) -> (step: FtsStep)
    ensures
        step != FtsStep::Append,
        step == FtsStep::Create <==> forall|i: int|
            0 <= i < index_names@.len() ==> (#[trigger] index_names@[i])@ != "content_fts"@,
        step == if filter::lists(index_names@, FTS_INDEX@) {
            FtsStep::Nothing
        } else {
            FtsStep::Create
        },
{
    if tags::list_has(index_names, FTS_INDEX) {
        FtsStep::Nothing
    } else {
        FtsStep::Create
    }
}

/// Makes sure that the full-text index covers everything: it is created, or else appended to.
pub fn ensure_fts_covers(index_names: &Vec<String>) -> (step: FtsStep)
    ensures
        step != FtsStep::Nothing,
        step == FtsStep::Create <==> forall|i: int|
            0 <= i < index_names@.len() ==> (#[trigger] index_names@[i])@ != "content_fts"@,
        step == if filter::lists(index_names@, FTS_INDEX@) {
            FtsStep::Append
        } else {
            FtsStep::Create
        },
{
    if tags::list_has(index_names, FTS_INDEX) {
        FtsStep::Append
    } else {
        FtsStep::Create
    }
}

/// Whether data is compacted: on demand, or when there are many fragments.
pub fn needs_compaction(fragments: usize, force: bool) -> (r: bool)
    ensures
        r == (force || fragments > COMPACT_FRAGMENT_THRESHOLD),
        !force ==> (r <==> fragments >= 17),
{
    force || fragments > COMPACT_FRAGMENT_THRESHOLD
}

/// How many of the most recent indexes each merge of a roll-up takes: the sizes of the partitions,
/// smallest first.
pub open spec fn merge_sizes(indexes: int, base: int) -> Seq<int> {
    rollup::partition_sizes(indexes, base).reverse()
}

/// Plans a roll-up of the indexes in groups of powers of a base.
pub fn plan_rollup(indexes: usize, base: usize) -> (sizes: Vec<usize>)
    requires
        base >= 2 || base > indexes,
    ensures
        sizes@.map_values(|s: usize| s as int) == merge_sizes(indexes as int, base as int),
{
    let partitions = rollup::rollup_partitions(indexes, base);
    let ghost parts = rollup::partition_sizes(indexes as int, base as int);
    let mut sizes: Vec<usize> = Vec::new();
    let mut i: usize = partitions.len();
    while i > 0
        invariant
            i <= partitions.len(),
            sizes.len() == partitions.len() - i,
            rollup::tiles(partitions@, parts, 0),
            parts == rollup::partition_sizes(indexes as int, base as int),
            base >= 2 || base > indexes,
            forall|k: int|
                0 <= k < sizes.len() ==> (#[trigger] sizes@[k]) == parts[parts.len() - 1 - k],
        decreases i,
    {
        i = i - 1;
        proof {
            assert(base >= 2);
            rollup::partitions_cover_all_but_a_remainder(indexes as int, base as int);
            assert(base <= parts[i as int]);
            assert(partitions@[i as int].1 + 1 - partitions@[i as int].0 == parts[i as int]);
        }
        let (start, end) = partitions[i];
        sizes.push(end - start + 1);
    }
    assert(sizes@.map_values(|s: usize| s as int) =~= parts.reverse());
    sizes
}

/// Plans the merge of index deltas at the head.
pub fn plan_merge_indices(indexes: usize) -> (sizes: Vec<usize>)
    ensures
        sizes@.map_values(|s: usize| s as int) == merge_sizes(
            indexes as int,
            ROLLUP_BASE as int,
        ),
        sizes@.map_values(|s: usize| s as int) == merge_sizes(indexes as int, 3),
{
    plan_rollup(indexes, ROLLUP_BASE)
}

/// The merges of a roll-up grow: each takes at least as many indexes as the one before.
pub proof fn merges_grow(indexes: int, base: int, j: int, k: int)
    requires
        base >= 2,
        indexes >= 0,
        0 <= j <= k < merge_sizes(indexes, base).len(),
    ensures
        merge_sizes(indexes, base)[j] <= merge_sizes(indexes, base)[k],
{
    let n = merge_sizes(indexes, base).len();
    rollup::partitions_are_ordered_by_size(indexes, base, n - 1 - k, n - 1 - j);
}

/// The merging of index deltas after a push, one merge at a time.
pub struct Cascade {
    needed: usize,
    done: usize,
}

/// What the cascade does next.
#[derive(Debug, Clone, Copy, PartialEq, Eq, Structural)]
pub enum CascadeStep {
    /// Merge the three most recent indexes.
    Merge,
    /// Nothing is left to merge.
    Stop,
}

impl Cascade {
    /// The number of merges that the count of deltas asks for.
    pub closed spec fn asked(self) -> nat {
        self.needed as nat
    }

    /// The number of merges so far.
    pub closed spec fn merged(self) -> nat {
        self.done as nat
    }

    #[verifier::type_invariant]
    spec fn well_formed(self) -> bool {
        self.done <= self.needed
    }

    /// A cascade for a number of deltas.
    pub fn start(delta_count: u64) -> (c: Cascade)
        ensures
            c.asked() == rollup::exponent_of_three(delta_count as nat),
            c.merged() == 0,
            c.asked() > 0 <==> delta_count > 0 && delta_count % 3 == 0,
    {
        Cascade { needed: rollup::merges_needed(delta_count), done: 0 }
    }

    /// The next step, given the number of indexes there are now: a merge while one is owed and there
    /// are enough indexes.
    pub fn next(&mut self, indexes: usize) -> (step: CascadeStep)
        ensures
            final(self).asked() == old(self).asked(),
            step == if old(self).merged() < old(self).asked() && indexes >= ROLLUP_BASE {
                CascadeStep::Merge
            } else {
                CascadeStep::Stop
            },
            final(self).merged() == old(self).merged() + if step == CascadeStep::Merge {
                1nat
            } else {
                0nat
            },
            final(self).merged() <= final(self).asked(),
            indexes < 3 ==> step == CascadeStep::Stop,
            indexes >= 3 ==> (step == CascadeStep::Stop <==> old(self).merged()
                == old(self).asked()),
    {
        proof {
            use_type_invariant(&*self);
        }
        if self.done < self.needed && indexes >= ROLLUP_BASE {
            self.done = self.done + 1;
            CascadeStep::Merge
        } else {
            CascadeStep::Stop
        }
    }
}

/// How a dataset's handle is obtained.
#[derive(Debug, Clone, Copy, PartialEq, Eq, Structural)]
pub enum OpenStep {
    /// Use the handle in memory.
    Reuse,
    /// Open the dataset on disk.
    Open,
    /// Create an empty dataset.
    Create,
    /// There is no dataset.
    Absent,
}

/// How a dataset is opened.
pub open spec fn opening(cached: bool, on_disk: bool, may_create: bool) -> OpenStep {
    if cached {
        OpenStep::Reuse
    } else if on_disk {
        OpenStep::Open
    } else if may_create {
        OpenStep::Create
    } else {
        OpenStep::Absent
    }
}

/// Plans the opening of a dataset for writing, which creates it where it is absent.
pub fn plan_open(cached: bool, on_disk: bool) -> (step: OpenStep)
    ensures
        step == opening(cached, on_disk, true),
{
    if cached {
        OpenStep::Reuse
    } else if on_disk {
        OpenStep::Open
    } else {
        OpenStep::Create
    }
}

/// Plans the opening of a dataset for reading, which never creates it.
pub fn plan_open_readonly(cached: bool, on_disk: bool) -> (step: OpenStep)
    ensures
        step == opening(cached, on_disk, false),
{
    if cached {
        OpenStep::Reuse
    } else if on_disk {
        OpenStep::Open
    } else {
        OpenStep::Absent
    }
}

/// Reading never brings a dataset into being, and writing never finds one absent.
pub proof fn reads_never_create(cached: bool, on_disk: bool)
    ensures
        opening(cached, on_disk, false) != OpenStep::Create,
        opening(cached, on_disk, false) == OpenStep::Absent <==> !cached && !on_disk,
        opening(cached, on_disk, true) != OpenStep::Absent,
{
}


/// Each merge of a roll-up takes a power of the base, at least the base itself, and together the
/// merges leave fewer indexes than the base.
pub proof fn merges_take_powers_of_the_base(sizes: Seq<usize>, indexes: int, base: int)
    requires
        base >= 2,
        indexes >= 0,
        sizes.map_values(|s: usize| s as int) == merge_sizes(indexes, base),
    ensures
        forall|k: int| #![trigger sizes[k]]
            0 <= k < sizes.len() ==> base <= sizes[k] <= indexes && is_power(sizes[k] as int, base),
        0 <= indexes - rollup::sum(sizes.map_values(|s: usize| s as int)) < base,
        forall|j: int, k: int|
            #![trigger sizes[j], sizes[k]]
            0 <= j <= k < sizes.len() ==> sizes[j] <= sizes[k],
{
    let taken = sizes.map_values(|s: usize| s as int);
    let parts = rollup::partition_sizes(indexes, base);
    rollup::partitions_cover_all_but_a_remainder(indexes, base);
    lemma_sum_of_reverse(parts);
    assert forall|k: int| #![trigger sizes[k]] 0 <= k < sizes.len() implies base <= sizes[k]
        <= indexes && is_power(sizes[k] as int, base) by {
        assert(taken[k] == sizes[k]);
        assert(taken[k] == parts[parts.len() - 1 - k]);
        let e = choose|e: nat| #[trigger] pow(base, e) == parts[parts.len() - 1 - k];
        assert(pow(base, e) == sizes[k]);
    }
    assert forall|j: int, k: int|
        #![trigger sizes[j], sizes[k]]
        0 <= j <= k < sizes.len() implies sizes[j] <= sizes[k] by {
        assert(taken[j] == sizes[j]);
        assert(taken[k] == sizes[k]);
        merges_grow(indexes, base, j, k);
    }
}

/// The number is a power of the base.
pub open spec fn is_power(n: int, base: int) -> bool {
    exists|e: nat| #[trigger] pow(base, e) == n
}

proof fn lemma_sum_of_push(s: Seq<int>, x: int)
    ensures
        rollup::sum(s.push(x)) == rollup::sum(s) + x,
{
    assert(s.push(x).drop_last() =~= s);
}

proof fn lemma_sum_from_the_front(s: Seq<int>)
    requires
        s.len() > 0,
    ensures
        rollup::sum(s) == s[0] + rollup::sum(s.skip(1)),
    decreases s.len(),
{
    if s.len() == 1 {
        assert(s.drop_last() =~= Seq::<int>::empty());
        assert(s.skip(1) =~= Seq::<int>::empty());
    } else {
        lemma_sum_from_the_front(s.drop_last());
        assert(s.drop_last().skip(1) =~= s.skip(1).drop_last());
    }
}

proof fn lemma_sum_of_reverse(s: Seq<int>)
    ensures
        rollup::sum(s.reverse()) == rollup::sum(s),
    decreases s.len(),
{
    if s.len() > 0 {
        lemma_sum_of_reverse(s.skip(1));
        assert(s.reverse() =~= s.skip(1).reverse().push(s[0]));
        lemma_sum_of_push(s.skip(1).reverse(), s[0]);
        lemma_sum_from_the_front(s);
    } else {
        assert(s.reverse() =~= s);
    }
}

/// A handle in memory is always used, a dataset on disk is opened only without one, and only a
/// writer's absent dataset is created.
pub proof fn handles_come_before_datasets(cached: bool, on_disk: bool, may_create: bool)
    ensures
        opening(cached, on_disk, may_create) == OpenStep::Reuse <==> cached,
        opening(cached, on_disk, may_create) == OpenStep::Open <==> on_disk && !cached,
        opening(cached, on_disk, may_create) == OpenStep::Create <==> may_create && !on_disk
            && !cached,
        opening(cached, on_disk, may_create) == OpenStep::Absent <==> !(cached || on_disk
            || may_create),
{
}

} // verus!
