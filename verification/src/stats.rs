//! Statistics over datasets and branches.

use crate::grouping;
use crate::store::{IndexedBranch, LanceStore};
use vstd::prelude::*;
use vstd::string::*;

verus! {

/// Counts over the store, or over one domain.
#[derive(Debug)]
pub struct Statistics {
    pub domains: u64,
    pub branches: u64,
    pub indexed_commits: u64,
    pub documents: u64,
    pub chunks: u64,
    pub pending_index_fragments: u64,
    pub pending_index_documents: u64,
    pub store_clustering: Option<bool>,
}

/// A fragment's row counts, as far as its metadata tells them.
#[derive(Debug, Clone, Copy)]
pub struct Fragment {
    pub physical_rows: Option<u64>,
    pub deletions: Option<u64>,
}

/// A dataset that is open in memory: its fragments, and the fragments and rows that no index covers
/// yet where they could be counted.
#[derive(Debug)]
pub struct OpenDataset {
    pub domain: String,
    pub fragments: Vec<Fragment>,
    pub unindexed: Option<(u64, u64)>,
}

/// What was read of a dataset that was not open in memory.
#[derive(Debug)]
pub enum DiskReading {
    /// The dataset was opened: its fragments, and its number of tags where they could be listed.
    Opened { fragments: Vec<Fragment>, tags: Option<u64> },
    /// It could not be opened in the ordinary way: its rows as counted separately, and its number
    /// of tags where they could be listed.
    Counted { rows: u64, tags: Option<u64> },
}

/// A dataset found on disk, with what was read of it unless it was open in memory.
#[derive(Debug)]
pub struct DiskDataset {
    pub domain: String,
    pub reading: Option<DiskReading>,
}

/// An optional count; zero where it is absent.
pub open spec fn or_zero(n: Option<u64>) -> nat {
    match n {
        Some(k) => k as nat,
        None => 0,
    }
}

/// The rows that the first `n` fragments hold, deleted ones included.
pub open spec fn physical(fragments: Seq<Fragment>, n: int) -> nat
    decreases n,
{
    if n <= 0 {
        0
    } else {
        physical(fragments, n - 1) + or_zero(fragments[n - 1].physical_rows)
    }
}

/// The deleted rows of the first `n` fragments.
pub open spec fn deleted(fragments: Seq<Fragment>, n: int) -> nat
    decreases n,
{
    if n <= 0 {
        0
    } else {
        deleted(fragments, n - 1) + or_zero(fragments[n - 1].deletions)
    }
}

/// All rows of the fragments, deleted ones included.
pub open spec fn all_physical(fragments: Seq<Fragment>) -> nat {
    physical(fragments, fragments.len() as int)
}

/// All deleted rows of the fragments.
pub open spec fn all_deleted(fragments: Seq<Fragment>) -> nat {
    deleted(fragments, fragments.len() as int)
}

/// A difference, but at least zero.
pub open spec fn minus(a: nat, b: nat) -> nat {
    if a >= b {
        (a - b) as nat
    } else {
        0
    }
}

proof fn lemma_sums_grow(fragments: Seq<Fragment>, n: int, m: int)
    requires
        0 <= n <= m,
    ensures
        physical(fragments, n) <= physical(fragments, m),
        deleted(fragments, n) <= deleted(fragments, m),
    decreases m - n,
{
    if n < m {
        lemma_sums_grow(fragments, n, m - 1);
    }
}

/// The rows and the deleted rows of fragments.
pub fn count_rows(fragments: &Vec<Fragment>) -> (r: (u64, u64))
    requires
        all_physical(fragments@) <= u64::MAX,
        all_deleted(fragments@) <= u64::MAX,
    ensures
        r.0 == all_physical(fragments@),
        r.1 == all_deleted(fragments@),
{
    let mut rows: u64 = 0;
    let mut gone: u64 = 0;
    let mut i: usize = 0;
    while i < fragments.len()
        invariant
            i <= fragments.len(),
            rows == physical(fragments@, i as int),
            gone == deleted(fragments@, i as int),
            all_physical(fragments@) <= u64::MAX,
            all_deleted(fragments@) <= u64::MAX,
        decreases fragments.len() - i,
    {
        proof {
            lemma_sums_grow(fragments@, i + 1, fragments@.len() as int);
        }
        let f = fragments[i];
        rows = rows + match f.physical_rows {
            Some(k) => k,
            None => 0,
        };
        gone = gone + match f.deletions {
            Some(k) => k,
            None => 0,
        };
        i = i + 1;
    }
    (rows, gone)
}

/// The rows of fragments that are not deleted.
pub fn live_rows(fragments: &Vec<Fragment>) -> (n: u64)
    requires
        all_physical(fragments@) <= u64::MAX,
        all_deleted(fragments@) <= u64::MAX,
    ensures
        n == minus(all_physical(fragments@), all_deleted(fragments@)),
{
    let (rows, gone) = count_rows(fragments);
    rows.saturating_sub(gone)
}

/// Totals over datasets.
#[verifier::ext_equal]
pub struct Totals {
    pub physical: nat,
    pub deleted: nat,
    /// Rows that were counted separately.
    pub counted: nat,
    pub tags: nat,
    pub pending_fragments: nat,
    pub pending_rows: nat,
}

/// Nothing counted.
pub open spec fn zero() -> Totals {
    Totals {
        physical: 0,
        deleted: 0,
        counted: 0,
        tags: 0,
        pending_fragments: 0,
        pending_rows: 0,
    }
}

/// Totals with a dataset that is open in memory.
pub open spec fn with_open(t: Totals, d: OpenDataset) -> Totals {
    let pending = match d.unindexed {
        Some(p) => (p.0 as nat, p.1 as nat),
        None => (0nat, 0nat),
    };
    Totals {
        physical: t.physical + all_physical(d.fragments@),
        deleted: t.deleted + all_deleted(d.fragments@),
        pending_fragments: t.pending_fragments + pending.0,
        pending_rows: t.pending_rows + pending.1,
        ..t
    }
}

/// Totals with a dataset on disk. The tags of a dataset that was counted separately are left out.
pub open spec fn with_disk(t: Totals, d: DiskDataset) -> Totals {
    match d.reading {
        Some(DiskReading::Opened { fragments, tags }) => Totals {
            physical: t.physical + all_physical(fragments@),
            deleted: t.deleted + all_deleted(fragments@),
            tags: t.tags + or_zero(tags),
            ..t
        },
        Some(DiskReading::Counted { rows, .. }) => Totals { counted: t.counted + rows as nat, ..t },
        None => t,
    }
}

/// Totals of the first `n` open datasets.
pub open spec fn open_totals(open: Seq<OpenDataset>, n: int) -> Totals
    decreases n,
{
    if n <= 0 {
        zero()
    } else {
        with_open(open_totals(open, n - 1), open[n - 1])
    }
}

/// Totals of all open datasets and of the first `n` on disk.
pub open spec fn all_totals(open: Seq<OpenDataset>, disk: Seq<DiskDataset>, n: int) -> Totals
    decreases n,
{
    if n <= 0 {
        open_totals(open, open.len() as int)
    } else {
        with_disk(all_totals(open, disk, n - 1), disk[n - 1])
    }
}

/// The number of branches among the first `n` with a commit.
pub open spec fn commits(indexes: Seq<IndexedBranch>, n: int) -> nat
    decreases n,
{
    if n <= 0 {
        0
    } else {
        commits(indexes, n - 1) + if indexes[n - 1].has_commit {
            1nat
        } else {
            0nat
        }
    }
}

/// All totals fit into 64 bits.
pub open spec fn fits(t: Totals, commits: nat) -> bool {
    &&& t.physical <= u64::MAX
    &&& t.deleted <= u64::MAX
    &&& t.counted + minus(t.physical, t.deleted) <= u64::MAX
    &&& t.tags + commits <= u64::MAX
    &&& t.pending_fragments <= u64::MAX
    &&& t.pending_rows <= u64::MAX
}

/// The domains of open datasets, of branches, and of datasets on disk.
pub open spec fn domain_names(
    open: Seq<OpenDataset>,
    indexes: Seq<IndexedBranch>,
    disk: Seq<DiskDataset>,
) -> Seq<Seq<char>> {
    Seq::new(open.len(), |i: int| open[i].domain@) + Seq::new(
        indexes.len(),
        |i: int| indexes[i].domain@,
    ) + Seq::new(disk.len(), |i: int| disk[i].domain@)
}

/// One total is at most another.
spec fn below(a: Totals, b: Totals) -> bool {
    &&& a.physical <= b.physical
    &&& a.deleted <= b.deleted
    &&& a.counted <= b.counted
    &&& a.tags <= b.tags
    &&& a.pending_fragments <= b.pending_fragments
    &&& a.pending_rows <= b.pending_rows
}

proof fn lemma_open_grow(open: Seq<OpenDataset>, n: int, m: int)
    requires
        0 <= n <= m,
    ensures
        below(open_totals(open, n), open_totals(open, m)),
        open_totals(open, m).counted == 0,
        open_totals(open, m).tags == 0,
    decreases m,
{
    if n < m {
        lemma_open_grow(open, n, m - 1);
    } else if m > 0 {
        lemma_open_grow(open, n - 1, m - 1);
    }
}

proof fn lemma_all_grow(open: Seq<OpenDataset>, disk: Seq<DiskDataset>, n: int, m: int)
    requires
        0 <= n <= m,
    ensures
        below(all_totals(open, disk, n), all_totals(open, disk, m)),
    decreases m - n,
{
    if n < m {
        lemma_all_grow(open, disk, n, m - 1);
    }
}

struct Counters {
    physical: u64,
    deleted: u64,
    counted: u64,
    tags: u64,
    pending_fragments: u64,
    pending_rows: u64,
}

spec fn holds(c: Counters, t: Totals) -> bool {
    &&& c.physical == t.physical
    &&& c.deleted == t.deleted
    &&& c.counted == t.counted
    &&& c.tags == t.tags
    &&& c.pending_fragments == t.pending_fragments
    &&& c.pending_rows == t.pending_rows
}

fn count_open(open: &Vec<OpenDataset>) -> (c: Counters)
    requires
        fits(open_totals(open@, open@.len() as int), 0),
    ensures
        holds(c, open_totals(open@, open@.len() as int)),
{
    let mut c = Counters {
        physical: 0,
        deleted: 0,
        counted: 0,
        tags: 0,
        pending_fragments: 0,
        pending_rows: 0,
    };
    let mut i: usize = 0;
    while i < open.len()
        invariant
            i <= open.len(),
            fits(open_totals(open@, open@.len() as int), 0),
            holds(c, open_totals(open@, i as int)),
        decreases open.len() - i,
    {
        proof {
            lemma_open_grow(open@, i + 1, open@.len() as int);
        }
        let d = &open[i];
        let (rows, gone) = count_rows(&d.fragments);
        c.physical = c.physical + rows;
        c.deleted = c.deleted + gone;
        match d.unindexed {
            Some(p) => {
                c.pending_fragments = c.pending_fragments + p.0;
                c.pending_rows = c.pending_rows + p.1;
            },
            None => {},
        }
        i = i + 1;
    }
    c
}

fn count_all(open: &Vec<OpenDataset>, disk: &Vec<DiskDataset>, Ghost(extra): Ghost<nat>) -> (c:
    Counters)
    requires
        fits(all_totals(open@, disk@, disk@.len() as int), extra),
    ensures
        holds(c, all_totals(open@, disk@, disk@.len() as int)),
{
    proof {
        lemma_all_grow(open@, disk@, 0, disk@.len() as int);
        lemma_open_grow(open@, 0, open@.len() as int);
    }
    let mut c = count_open(open);
    let mut i: usize = 0;
    while i < disk.len()
        invariant
            i <= disk.len(),
            fits(all_totals(open@, disk@, disk@.len() as int), extra),
            holds(c, all_totals(open@, disk@, i as int)),
        decreases disk.len() - i,
    {
        proof {
            lemma_all_grow(open@, disk@, i + 1, disk@.len() as int);
        }
        match &disk[i].reading {
            Some(DiskReading::Opened { fragments, tags }) => {
                let (rows, gone) = count_rows(fragments);
                c.physical = c.physical + rows;
                c.deleted = c.deleted + gone;
                c.tags = c.tags + match tags {
                    Some(k) => *k,
                    None => 0,
                };
            },
            Some(DiskReading::Counted { rows, .. }) => {
                c.counted = c.counted + *rows;
            },
            None => {},
        }
        i = i + 1;
    }
    c
}

fn count_commits(indexes: &Vec<IndexedBranch>) -> (n: u64)
    requires
        commits(indexes@, indexes@.len() as int) <= u64::MAX,
    ensures
        n == commits(indexes@, indexes@.len() as int),
{
    let mut n: u64 = 0;
    let mut i: usize = 0;
    while i < indexes.len()
        invariant
            i <= indexes.len(),
            n == commits(indexes@, i as int),
            commits(indexes@, indexes@.len() as int) <= u64::MAX,
        decreases indexes.len() - i,
    {
        proof {
            lemma_commits_grow(indexes@, i + 1, indexes@.len() as int);
        }
        if indexes[i].has_commit {
            n = n + 1;
        }
        i = i + 1;
    }
    n
}

proof fn lemma_commits_grow(indexes: Seq<IndexedBranch>, n: int, m: int)
    requires
        0 <= n <= m,
    ensures
        commits(indexes, n) <= commits(indexes, m),
    decreases m - n,
{
    if n < m {
        lemma_commits_grow(indexes, n, m - 1);
    }
}

fn count_domains(
    open: &Vec<OpenDataset>,
    indexes: &Vec<IndexedBranch>,
    disk: &Vec<DiskDataset>,
) -> (n: u64)
    ensures
        n == domain_names(open@, indexes@, disk@).to_set().len(),
{
    let ghost a = Seq::new(open@.len(), |i: int| open@[i].domain@);
    let ghost b = Seq::new(indexes@.len(), |i: int| indexes@[i].domain@);
    let ghost c = Seq::new(disk@.len(), |i: int| disk@[i].domain@);
    let mut names: Vec<String> = Vec::new();
    assert(grouping::views(names@) =~= a.take(0));
    let mut i: usize = 0;
    while i < open.len()
        invariant
            i <= open.len(),
            a == Seq::new(open@.len(), |i: int| open@[i].domain@),
            grouping::views(names@) == a.take(i as int),
        decreases open.len() - i,
    {
        let ghost before = names@;
        names.push(open[i].domain.clone());
        assert(grouping::views(names@) =~= grouping::views(before).push(a[i as int]));
        assert(a.take(i + 1) =~= a.take(i as int).push(a[i as int]));
        i = i + 1;
    }
    assert(a.take(i as int) =~= a);
    assert(grouping::views(names@) =~= a + b.take(0));
    let mut i: usize = 0;
    while i < indexes.len()
        invariant
            i <= indexes.len(),
            b == Seq::new(indexes@.len(), |i: int| indexes@[i].domain@),
            grouping::views(names@) == a + b.take(i as int),
        decreases indexes.len() - i,
    {
        let ghost before = names@;
        names.push(indexes[i].domain.clone());
        assert(grouping::views(names@) =~= grouping::views(before).push(b[i as int]));
        assert(a + b.take(i + 1) =~= (a + b.take(i as int)).push(b[i as int]));
        i = i + 1;
    }
    assert(b.take(i as int) =~= b);
    assert(grouping::views(names@) =~= a + b + c.take(0));
    let mut i: usize = 0;
    while i < disk.len()
        invariant
            i <= disk.len(),
            c == Seq::new(disk@.len(), |i: int| disk@[i].domain@),
            grouping::views(names@) == a + b + c.take(i as int),
        decreases disk.len() - i,
    {
        let ghost before = names@;
        names.push(disk[i].domain.clone());
        assert(grouping::views(names@) =~= grouping::views(before).push(c[i as int]));
        assert(a + b + c.take(i + 1) =~= (a + b + c.take(i as int)).push(c[i as int]));
        i = i + 1;
    }
    assert(c.take(i as int) =~= c);
    let g = grouping::group_keys(&names);
    g.count as u64
}

/// The statistics of the store are as they should be: rows that are not deleted, tags on disk and
/// commits in memory, work that no index covers yet, and no count of documents.
pub open spec fn counts_store(
    s: Statistics,
    open: Seq<OpenDataset>,
    indexes: Seq<IndexedBranch>,
    disk: Seq<DiskDataset>,
) -> bool {
    let t = all_totals(open, disk, disk.len() as int);
    &&& s.domains == domain_names(open, indexes, disk).to_set().len()
    &&& s.branches == indexes.len()
    &&& s.indexed_commits == commits(indexes, indexes.len() as int) + t.tags
    &&& s.documents == 0
    &&& s.chunks == t.counted + minus(t.physical, t.deleted)
    &&& s.pending_index_fragments == t.pending_fragments
    &&& s.pending_index_documents == t.pending_rows
    &&& s.store_clustering is None
}

/// Counts over the whole store: the datasets that are open, the branches with their last indexed
/// commits, and the datasets on disk.
pub fn statistics(
    open: &Vec<OpenDataset>,
    indexes: &Vec<IndexedBranch>,
    disk: &Vec<DiskDataset>,
) -> (s: Statistics)
    requires
        fits(
            all_totals(open@, disk@, disk@.len() as int),
            commits(indexes@, indexes@.len() as int),
        ),
    ensures
        counts_store(s, open@, indexes@, disk@),
{
    let c = count_all(open, disk, Ghost(commits(indexes@, indexes@.len() as int)));
    let n = count_commits(indexes);
    Statistics {
        domains: count_domains(open, indexes, disk),
        branches: indexes.len() as u64,
        indexed_commits: n + c.tags,
        documents: 0,
        chunks: c.counted + c.physical.saturating_sub(c.deleted),
        pending_index_fragments: c.pending_fragments,
        pending_index_documents: c.pending_rows,
        store_clustering: None,
    }
}

/// The branches of a domain among the first `n`.
pub open spec fn of_domain(indexes: Seq<IndexedBranch>, domain: Seq<char>, n: int) -> Seq<
    IndexedBranch,
>
    decreases n,
{
    if n <= 0 {
        Seq::empty()
    } else if indexes[n - 1].domain@ == domain {
        of_domain(indexes, domain, n - 1).push(indexes[n - 1])
    } else {
        of_domain(indexes, domain, n - 1)
    }
}

/// The rows of an open dataset, if there is one, and its deleted rows.
pub open spec fn open_rows(open: Option<OpenDataset>) -> (nat, nat) {
    match open {
        Some(d) => (all_physical(d.fragments@), all_deleted(d.fragments@)),
        None => (0, 0),
    }
}

/// A dataset on disk is read where the open one, if any, has no rows.
pub open spec fn wants_disk(open: Option<OpenDataset>, on_disk: bool) -> bool {
    open_rows(open).0 == 0 && on_disk
}

/// Whether the dataset on disk has to be read.
pub fn needs_disk(open: &Option<OpenDataset>, on_disk: bool) -> (r: bool)
    requires
        open_rows(*open).0 <= u64::MAX,
        open_rows(*open).1 <= u64::MAX,
    ensures
        r == wants_disk(*open, on_disk),
{
    let rows: u64 = match open {
        Some(d) => count_rows(&d.fragments).0,
        None => 0,
    };
    rows == 0 && on_disk
}

/// All rows, deleted rows, and separately counted rows of a domain.
pub open spec fn domain_rows(open: Option<OpenDataset>, reading: Option<DiskReading>) -> (
    nat,
    nat,
    nat,
) {
    let (rows, gone) = open_rows(open);
    match reading {
        Some(DiskReading::Opened { fragments, .. }) => (
            rows + all_physical(fragments@),
            gone + all_deleted(fragments@),
            0,
        ),
        Some(DiskReading::Counted { rows: n, .. }) => (rows, gone, n as nat),
        None => (rows, gone, 0),
    }
}

/// The chunks of a domain that are not deleted.
pub open spec fn live_chunks(open: Option<OpenDataset>, reading: Option<DiskReading>) -> nat {
    let (rows, gone, counted) = domain_rows(open, reading);
    counted + minus(rows, gone)
}

/// The number of tags that a reading gave, if it gave one.
pub open spec fn tags_read(reading: Option<DiskReading>) -> Option<u64> {
    match reading {
        Some(DiskReading::Opened { tags, .. }) => tags,
        Some(DiskReading::Counted { tags, .. }) => tags,
        None => None,
    }
}

/// The counts of a domain fit into 64 bits.
pub open spec fn domain_fits(open: Option<OpenDataset>, reading: Option<DiskReading>) -> bool {
    let (rows, gone, _) = domain_rows(open, reading);
    rows <= u64::MAX && gone <= u64::MAX && live_chunks(open, reading) <= u64::MAX
}

/// The chunks of a domain: those of the open dataset, and of the reading of the one on disk.
pub fn domain_chunks(open: &Option<OpenDataset>, reading: &Option<DiskReading>) -> (n: u64)
    requires
        domain_fits(*open, *reading),
    ensures
        n == live_chunks(*open, *reading),
{
    let (rows, gone): (u64, u64) = match open {
        Some(d) => count_rows(&d.fragments),
        None => (0, 0),
    };
    match reading {
        Some(DiskReading::Opened { fragments, .. }) => {
            let (more, more_gone) = count_rows(fragments);
            (rows + more).saturating_sub(gone + more_gone)
        },
        Some(DiskReading::Counted { rows: n, .. }) => *n + rows.saturating_sub(gone),
        None => rows.saturating_sub(gone),
    }
}

fn branches_of_domain(indexes: &Vec<IndexedBranch>, domain: &str) -> (r: (u64, u64))
    ensures
        r.0 == of_domain(indexes@, domain@, indexes@.len() as int).len(),
        r.1 == commits(
            of_domain(indexes@, domain@, indexes@.len() as int),
            of_domain(indexes@, domain@, indexes@.len() as int).len() as int,
        ),
{
    let wanted = domain.to_owned();
    let mut count: u64 = 0;
    let mut known: u64 = 0;
    let mut i: usize = 0;
    while i < indexes.len()
        invariant
            i <= indexes.len(),
            wanted@ == domain@,
            count <= i,
            known <= i,
            count == of_domain(indexes@, domain@, i as int).len(),
            known == commits(of_domain(indexes@, domain@, i as int), count as int),
        decreases indexes.len() - i,
    {
        let b = &indexes[i];
        if b.domain == wanted {
            proof {
                let before = of_domain(indexes@, domain@, i as int);
                let after = of_domain(indexes@, domain@, i + 1);
                assert(after == before.push(indexes@[i as int]));
                lemma_commits_prefix(before, after, before.len() as int);
            }
            count = count + 1;
            if b.has_commit {
                known = known + 1;
            }
        }
        i = i + 1;
    }
    (count, known)
}

proof fn lemma_commits_prefix(a: Seq<IndexedBranch>, b: Seq<IndexedBranch>, n: int)
    requires
        0 <= n <= a.len(),
        n <= b.len(),
        forall|i: int| 0 <= i < n ==> a[i] == b[i],
    ensures
        commits(a, n) == commits(b, n),
    decreases n,
{
    if n > 0 {
        lemma_commits_prefix(a, b, n - 1);
    }
}

/// The statistics of a domain are as they should be: `documents` are counted only where there are
/// chunks, and the tags that were read on disk take the place of the commits in memory.
pub open spec fn counts_domain(
    s: Statistics,
    domain: Seq<char>,
    open: Option<OpenDataset>,
    indexes: Seq<IndexedBranch>,
    on_disk: bool,
    reading: Option<DiskReading>,
    documents: u64,
) -> bool {
    let own = of_domain(indexes, domain, indexes.len() as int);
    let known = open is Some || own.len() > 0 || on_disk;
    &&& s.domains == if known {
        1nat
    } else {
        0nat
    }
    &&& s.branches == own.len()
    &&& s.indexed_commits == match tags_read(reading) {
        Some(n) => n as nat,
        None => commits(own, own.len() as int),
    }
    &&& s.chunks == live_chunks(open, reading)
    &&& s.documents == if s.chunks > 0 {
        documents as nat
    } else {
        0nat
    }
    &&& s.pending_index_fragments == match open {
        Some(d) => match d.unindexed {
            Some(p) => p.0 as nat,
            None => 0nat,
        },
        None => 0nat,
    }
    &&& s.pending_index_documents == match open {
        Some(d) => match d.unindexed {
            Some(p) => p.1 as nat,
            None => 0nat,
        },
        None => 0nat,
    }
}

/// Counts over one domain. `reading` is what was read of the dataset on disk, where that had to be
/// read; `documents` is the number of distinct documents.
pub fn statistics_for_domain(
    domain: &str,
    open: &Option<OpenDataset>,
    indexes: &Vec<IndexedBranch>,
    on_disk: bool,
    reading: &Option<DiskReading>,
    documents: u64,
    store_clustering: bool,
) -> (s: Statistics)
    requires
        domain_fits(*open, *reading),
        reading is Some <==> wants_disk(*open, on_disk),
    ensures
        counts_domain(s, domain@, *open, indexes@, on_disk, *reading, documents),
        s.store_clustering == Some(store_clustering),
{
    let (branches, known) = branches_of_domain(indexes, domain);
    let chunks = domain_chunks(open, reading);
    let tags: Option<u64> = match reading {
        Some(DiskReading::Opened { tags, .. }) => *tags,
        Some(DiskReading::Counted { tags, .. }) => *tags,
        None => None,
    };
    let (is_open, pending): (bool, (u64, u64)) = match open {
        Some(d) => (
            true,
            match d.unindexed {
                Some(p) => p,
                None => (0, 0),
            },
        ),
        None => (false, (0, 0)),
    };
    Statistics {
        domains: if is_open || branches > 0 || on_disk {
            1
        } else {
            0
        },
        branches,
        indexed_commits: match tags {
            Some(n) => n,
            None => known,
        },
        documents: if chunks > 0 {
            documents
        } else {
            0
        },
        chunks,
        pending_index_fragments: pending.0,
        pending_index_documents: pending.1,
        store_clustering: Some(store_clustering),
    }
}

/// A domain of which nothing is in memory or on disk counts nothing.
pub proof fn an_unknown_domain_counts_nothing(
    s: Statistics,
    domain: Seq<char>,
    indexes: Seq<IndexedBranch>,
    documents: u64,
)
    requires
        counts_domain(s, domain, None, indexes, false, None, documents),
        forall|i: int| 0 <= i < indexes.len() ==> (#[trigger] indexes[i]).domain@ != domain,
    ensures
        s.domains == 0,
        s.branches == 0,
        s.indexed_commits == 0,
        s.documents == 0,
        s.chunks == 0,
{
    lemma_of_domain_none(indexes, domain, indexes.len() as int);
}

proof fn lemma_of_domain_none(indexes: Seq<IndexedBranch>, domain: Seq<char>, n: int)
    requires
        0 <= n <= indexes.len(),
        forall|i: int| 0 <= i < indexes.len() ==> (#[trigger] indexes[i]).domain@ != domain,
    ensures
        of_domain(indexes, domain, n).len() == 0,
    decreases n,
{
    if n > 0 {
        lemma_of_domain_none(indexes, domain, n - 1);
    }
}

/// Progress of the indexing pipeline, and openings of datasets.
#[derive(Debug, Clone, Copy)]
pub struct PipelineCounters {
    pub pending_chunks: u64,
    pub embedded_chunks: u64,
    pub written_chunks: u64,
    pub active_tasks: u64,
    pub fresh_open_count: u64,
}

/// Sizes of what a store keeps in memory.
#[derive(Debug)]
pub struct InternalStats {
    pub cached_datasets: usize,
    pub tasks: usize,
    pub branch_indexes: usize,
    pub pipeline_locks: usize,
    pub domain_guards: usize,
    pub inflight_commits: usize,
    pub pipeline_pending_chunks: u64,
    pub pipeline_embedded_chunks: u64,
    pub pipeline_written_chunks: u64,
    pub pipeline_active_tasks: u64,
    pub fresh_open_count: u64,
    pub embed_cache_entries: usize,
    pub embed_cache_size_bytes: usize,
    pub lance_index_cache_capacity_bytes: usize,
    pub lance_metadata_cache_capacity_bytes: usize,
}

/// The sizes of a store's state, of the handles and locks around it, and of its caches. Embeddings
/// are cached elsewhere and count as none here.
pub fn internal_stats(
    store: &LanceStore,
    cached_datasets: usize,
    pipeline_locks: usize,
    domain_guards: usize,
    counters: PipelineCounters,
    index_cache_bytes: usize,
    metadata_cache_bytes: usize,
) -> (s: InternalStats)
    ensures
        s.cached_datasets == cached_datasets,
        s.tasks == store@.tasks.len(),
        s.branch_indexes == store@.indexes.dom().len(),
        s.pipeline_locks == pipeline_locks,
        s.domain_guards == domain_guards,
        s.inflight_commits == store@.reserved.len(),
        s.pipeline_pending_chunks == counters.pending_chunks,
        s.pipeline_embedded_chunks == counters.embedded_chunks,
        s.pipeline_written_chunks == counters.written_chunks,
        s.pipeline_active_tasks == counters.active_tasks,
        s.fresh_open_count == counters.fresh_open_count,
        s.embed_cache_entries == 0,
        s.embed_cache_size_bytes == 0,
        s.lance_index_cache_capacity_bytes == index_cache_bytes,
        s.lance_metadata_cache_capacity_bytes == metadata_cache_bytes,
{
    InternalStats {
        cached_datasets,
        tasks: store.task_count(),
        branch_indexes: store.branch_index_count(),
        pipeline_locks,
        domain_guards,
        inflight_commits: store.reservation_count(),
        pipeline_pending_chunks: counters.pending_chunks,
        pipeline_embedded_chunks: counters.embedded_chunks,
        pipeline_written_chunks: counters.written_chunks,
        pipeline_active_tasks: counters.active_tasks,
        fresh_open_count: counters.fresh_open_count,
        embed_cache_entries: 0,
        embed_cache_size_bytes: 0,
        lance_index_cache_capacity_bytes: index_cache_bytes,
        lance_metadata_cache_capacity_bytes: metadata_cache_bytes,
    }
}


/// A fragment's deletions are among its rows.
pub open spec fn is_sound(f: Fragment) -> bool {
    or_zero(f.deletions) <= or_zero(f.physical_rows)
}

/// Each fragment's deletions are among its rows.
pub open spec fn are_sound(fragments: Seq<Fragment>) -> bool {
    forall|i: int| 0 <= i < fragments.len() ==> is_sound(#[trigger] fragments[i])
}

/// The rows of the first `n` fragments that are not deleted, fragment by fragment.
pub open spec fn remaining(fragments: Seq<Fragment>, n: int) -> int
    decreases n,
{
    if n <= 0 {
        0
    } else {
        remaining(fragments, n - 1) + (match fragments[n - 1].physical_rows {
            Some(k) => k as int,
            None => 0,
        }) - (match fragments[n - 1].deletions {
            Some(k) => k as int,
            None => 0,
        })
    }
}

proof fn lemma_remaining(fragments: Seq<Fragment>, n: int)
    requires
        0 <= n <= fragments.len(),
        are_sound(fragments),
    ensures
        remaining(fragments, n) == physical(fragments, n) - deleted(fragments, n),
        remaining(fragments, n) >= 0,
    decreases n,
{
    if n > 0 {
        lemma_remaining(fragments, n - 1);
        assert(is_sound(fragments[n - 1]));
    }
}

proof fn lemma_sums_of_prefix(a: Seq<Fragment>, b: Seq<Fragment>, n: int)
    requires
        0 <= n <= a.len(),
        n <= b.len(),
        forall|i: int| 0 <= i < n ==> a[i] == b[i],
    ensures
        physical(a, n) == physical(b, n),
        deleted(a, n) == deleted(b, n),
    decreases n,
{
    if n > 0 {
        lemma_sums_of_prefix(a, b, n - 1);
    }
}

/// A fragment adds its rows to the rows and its deletions to the deleted rows; what its metadata
/// does not tell adds nothing.
pub proof fn fragments_add_up(fragments: Seq<Fragment>, f: Fragment)
    ensures
        all_physical(Seq::empty()) == 0,
        all_deleted(Seq::empty()) == 0,
        f.physical_rows is Some ==> all_physical(fragments.push(f)) == all_physical(fragments)
            + f.physical_rows->0,
        f.physical_rows is None ==> all_physical(fragments.push(f)) == all_physical(fragments),
        f.deletions is Some ==> all_deleted(fragments.push(f)) == all_deleted(fragments)
            + f.deletions->0,
        f.deletions is None ==> all_deleted(fragments.push(f)) == all_deleted(fragments),
{
    lemma_sums_of_prefix(fragments, fragments.push(f), fragments.len() as int);
}

/// The live rows of fragments are, fragment by fragment, the rows without the deleted ones.
pub proof fn live_rows_are_the_remaining_ones(n: u64, fragments: Seq<Fragment>)
    requires
        n == minus(all_physical(fragments), all_deleted(fragments)),
        are_sound(fragments),
    ensures
        n == remaining(fragments, fragments.len() as int),
{
    lemma_remaining(fragments, fragments.len() as int);
}

proof fn lemma_open_prefix(a: Seq<OpenDataset>, b: Seq<OpenDataset>, n: int)
    requires
        0 <= n <= a.len(),
        n <= b.len(),
        forall|i: int| 0 <= i < n ==> a[i] == b[i],
    ensures
        open_totals(a, n) == open_totals(b, n),
    decreases n,
{
    if n > 0 {
        lemma_open_prefix(a, b, n - 1);
    }
}

proof fn lemma_disk_prefix(
    open: Seq<OpenDataset>,
    a: Seq<DiskDataset>,
    b: Seq<DiskDataset>,
    n: int,
)
    requires
        0 <= n <= a.len(),
        n <= b.len(),
        forall|i: int| 0 <= i < n ==> a[i] == b[i],
    ensures
        all_totals(open, a, n) == all_totals(open, b, n),
    decreases n,
{
    if n > 0 {
        lemma_disk_prefix(open, a, b, n - 1);
    }
}

/// No fragment of a dataset that was opened has more deletions than rows.
pub open spec fn sound_datasets(open: Seq<OpenDataset>, disk: Seq<DiskDataset>) -> bool {
    &&& forall|i: int| 0 <= i < open.len() ==> are_sound((#[trigger] open[i]).fragments@)
    &&& forall|i: int|
        0 <= i < disk.len() ==> ((#[trigger] disk[i]).reading matches Some(
            DiskReading::Opened { fragments, .. },
        ) ==> are_sound(fragments@))
}

proof fn lemma_open_sound(open: Seq<OpenDataset>, n: int)
    requires
        0 <= n <= open.len(),
        forall|i: int| 0 <= i < open.len() ==> are_sound((#[trigger] open[i]).fragments@),
    ensures
        open_totals(open, n).deleted <= open_totals(open, n).physical,
    decreases n,
{
    if n > 0 {
        lemma_open_sound(open, n - 1);
        let f = open[n - 1].fragments@;
        lemma_remaining(f, f.len() as int);
    }
}

proof fn lemma_all_sound(open: Seq<OpenDataset>, disk: Seq<DiskDataset>, n: int)
    requires
        0 <= n <= disk.len(),
        sound_datasets(open, disk),
    ensures
        all_totals(open, disk, n).deleted <= all_totals(open, disk, n).physical,
    decreases n,
{
    if n > 0 {
        lemma_all_sound(open, disk, n - 1);
        match disk[n - 1].reading {
            Some(DiskReading::Opened { fragments, .. }) => {
                lemma_remaining(fragments@, fragments@.len() as int);
            },
            _ => {},
        }
    } else {
        lemma_open_sound(open, open.len() as int);
    }
}

proof fn lemma_domains_of_one_more(
    open: Seq<OpenDataset>,
    indexes: Seq<IndexedBranch>,
    disk: Seq<DiskDataset>,
    d: DiskDataset,
)
    ensures
        domain_names(open, indexes, disk.push(d)).to_set() == domain_names(
            open,
            indexes,
            disk,
        ).to_set().insert(d.domain@),
{
    let before = domain_names(open, indexes, disk);
    let after = domain_names(open, indexes, disk.push(d));
    assert(after =~= before.push(d.domain@));
    assert(after.to_set() =~= before.to_set().insert(d.domain@)) by {
        assert forall|x: Seq<char>| #[trigger] after.to_set().contains(x) <==> before.to_set().insert(
            d.domain@,
        ).contains(x) by {
            if before.contains(x) {
                let i = choose|i: int| 0 <= i < before.len() && before[i] == x;
                assert(after[i] == x);
            }
            if after.contains(x) {
                let i = choose|i: int| 0 <= i < after.len() && after[i] == x;
                if i < before.len() {
                    assert(before[i] == x);
                }
            }
            assert(after[before.len() as int] == d.domain@);
        }
    }
}

/// A dataset on disk adds to the store's counts what was read of it: one that was opened its
/// undeleted rows and its tags, one that was counted its rows, and one that is open in memory
/// nothing. None of them adds branches or pending work.
pub proof fn datasets_on_disk_add_what_was_read(
    s: Statistics,
    t: Statistics,
    open: Seq<OpenDataset>,
    indexes: Seq<IndexedBranch>,
    disk: Seq<DiskDataset>,
    d: DiskDataset,
)
    requires
        counts_store(s, open, indexes, disk),
        counts_store(t, open, indexes, disk.push(d)),
        sound_datasets(open, disk.push(d)),
    ensures
        d.reading is None ==> t.chunks == s.chunks && t.indexed_commits == s.indexed_commits,
        d.reading matches Some(DiskReading::Counted { rows, .. }) ==> t.chunks == s.chunks + rows
            && t.indexed_commits == s.indexed_commits,
        d.reading matches Some(DiskReading::Opened { fragments, tags }) ==> t.chunks == s.chunks
            + remaining(fragments@, fragments@.len() as int) && t.indexed_commits
            == s.indexed_commits + (match tags {
            Some(n) => n as int,
            None => 0,
        }),
        t.branches == s.branches,
        t.pending_index_fragments == s.pending_index_fragments,
        t.pending_index_documents == s.pending_index_documents,
        s.documents == 0,
        s.store_clustering is None,
{
    let more = disk.push(d);
    assert forall|i: int| 0 <= i < disk.len() implies ((#[trigger] disk[i]).reading matches Some(
        DiskReading::Opened { fragments, .. },
    ) ==> are_sound(fragments@)) by {
        assert(more[i] == disk[i]);
    }
    lemma_disk_prefix(open, disk, more, disk.len() as int);
    lemma_all_sound(open, more, disk.len() as int);
    lemma_all_sound(open, more, more.len() as int);
    assert(more[disk.len() as int] == d);
    match d.reading {
        Some(DiskReading::Opened { fragments, .. }) => {
            lemma_remaining(fragments@, fragments@.len() as int);
        },
        _ => {},
    }
}

/// A dataset adds a domain to the count unless the domain is known from another dataset, in memory
/// or on disk, or from a branch.
pub proof fn domains_are_counted_once(
    s: Statistics,
    t: Statistics,
    open: Seq<OpenDataset>,
    indexes: Seq<IndexedBranch>,
    disk: Seq<DiskDataset>,
    d: DiskDataset,
)
    requires
        counts_store(s, open, indexes, disk),
        counts_store(t, open, indexes, disk.push(d)),
    ensures
        (exists|i: int| 0 <= i < open.len() && (#[trigger] open[i]).domain@ == d.domain@)
            ==> t.domains == s.domains,
        (exists|i: int| 0 <= i < indexes.len() && (#[trigger] indexes[i]).domain@ == d.domain@)
            ==> t.domains == s.domains,
        (exists|i: int| 0 <= i < disk.len() && (#[trigger] disk[i]).domain@ == d.domain@)
            ==> t.domains == s.domains,
        (forall|i: int| 0 <= i < open.len() ==> (#[trigger] open[i]).domain@ != d.domain@) && (
        forall|i: int| 0 <= i < indexes.len() ==> (#[trigger] indexes[i]).domain@ != d.domain@) && (
        forall|i: int| 0 <= i < disk.len() ==> (#[trigger] disk[i]).domain@ != d.domain@)
            ==> t.domains == s.domains + 1,
{
    let names = domain_names(open, indexes, disk);
    lemma_domains_of_one_more(open, indexes, disk, d);
    vstd::seq_lib::seq_to_set_is_finite(names);
    if exists|i: int| 0 <= i < open.len() && (#[trigger] open[i]).domain@ == d.domain@ {
        let i = choose|i: int| 0 <= i < open.len() && (#[trigger] open[i]).domain@ == d.domain@;
        assert(names[i] == d.domain@);
        assert(names.to_set().contains(d.domain@));
        assert(names.to_set().insert(d.domain@) =~= names.to_set());
    }
    if exists|i: int| 0 <= i < indexes.len() && (#[trigger] indexes[i]).domain@ == d.domain@ {
        let i = choose|i: int|
            0 <= i < indexes.len() && (#[trigger] indexes[i]).domain@ == d.domain@;
        assert(names[open.len() + i] == d.domain@);
        assert(names.to_set().contains(d.domain@));
        assert(names.to_set().insert(d.domain@) =~= names.to_set());
    }
    if exists|i: int| 0 <= i < disk.len() && (#[trigger] disk[i]).domain@ == d.domain@ {
        let i = choose|i: int| 0 <= i < disk.len() && (#[trigger] disk[i]).domain@ == d.domain@;
        assert(names[open.len() + indexes.len() + i] == d.domain@);
        assert(names.to_set().contains(d.domain@));
        assert(names.to_set().insert(d.domain@) =~= names.to_set());
    }
    if names.to_set().contains(d.domain@) {
        let j = choose|j: int| 0 <= j < names.len() && names[j] == d.domain@;
        if j < open.len() {
            assert(open[j].domain@ == d.domain@);
        } else if j < open.len() + indexes.len() {
            assert(indexes[j - open.len()].domain@ == d.domain@);
        } else {
            assert(disk[j - open.len() - indexes.len()].domain@ == d.domain@);
        }
    }
}

/// An open dataset adds its undeleted rows, and the fragments and rows that no index covers yet,
/// where nothing else is on disk.
pub proof fn open_datasets_add_their_rows(
    s: Statistics,
    t: Statistics,
    open: Seq<OpenDataset>,
    indexes: Seq<IndexedBranch>,
    d: OpenDataset,
)
    requires
        counts_store(s, open, indexes, Seq::empty()),
        counts_store(t, open.push(d), indexes, Seq::empty()),
        sound_datasets(open.push(d), Seq::empty()),
    ensures
        t.chunks == s.chunks + remaining(d.fragments@, d.fragments@.len() as int),
        d.unindexed matches Some(p) ==> t.pending_index_fragments == s.pending_index_fragments + p.0
            && t.pending_index_documents == s.pending_index_documents + p.1,
        d.unindexed is None ==> t.pending_index_fragments == s.pending_index_fragments
            && t.pending_index_documents == s.pending_index_documents,
        t.branches == s.branches,
        t.indexed_commits == s.indexed_commits,
{
    let more = open.push(d);
    assert forall|i: int| 0 <= i < open.len() implies are_sound(
        (#[trigger] open[i]).fragments@,
    ) by {
        assert(more[i] == open[i]);
    }
    lemma_open_prefix(open, more, open.len() as int);
    lemma_open_sound(open, open.len() as int);
    lemma_open_sound(more, more.len() as int);
    assert(more[open.len() as int] == d);
    lemma_remaining(d.fragments@, d.fragments@.len() as int);
    lemma_open_grow(open, 0, open.len() as int);
    lemma_open_grow(more, 0, more.len() as int);
}

/// A branch adds one branch, and one indexed commit where its commit is known.
pub proof fn branches_add_their_commits(
    s: Statistics,
    t: Statistics,
    open: Seq<OpenDataset>,
    indexes: Seq<IndexedBranch>,
    disk: Seq<DiskDataset>,
    b: IndexedBranch,
)
    requires
        counts_store(s, open, indexes, disk),
        counts_store(t, open, indexes.push(b), disk),
    ensures
        t.branches == s.branches + 1,
        b.has_commit ==> t.indexed_commits == s.indexed_commits + 1,
        !b.has_commit ==> t.indexed_commits == s.indexed_commits,
        t.chunks == s.chunks,
{
    lemma_commits_prefix(indexes, indexes.push(b), indexes.len() as int);
}

proof fn lemma_of_domain_prefix(
    a: Seq<IndexedBranch>,
    b: Seq<IndexedBranch>,
    domain: Seq<char>,
    n: int,
)
    requires
        0 <= n <= a.len(),
        n <= b.len(),
        forall|i: int| 0 <= i < n ==> a[i] == b[i],
    ensures
        of_domain(a, domain, n) == of_domain(b, domain, n),
    decreases n,
{
    if n > 0 {
        lemma_of_domain_prefix(a, b, domain, n - 1);
    }
}

/// A branch counts toward its own domain and toward no other. Its commit counts while the dataset's
/// tags were not read; tags that were read are the count.
pub proof fn branches_count_toward_their_domain(
    s: Statistics,
    t: Statistics,
    domain: Seq<char>,
    open: Option<OpenDataset>,
    indexes: Seq<IndexedBranch>,
    on_disk: bool,
    reading: Option<DiskReading>,
    documents: u64,
    b: IndexedBranch,
)
    requires
        counts_domain(s, domain, open, indexes, on_disk, reading, documents),
        counts_domain(t, domain, open, indexes.push(b), on_disk, reading, documents),
    ensures
        b.domain@ == domain ==> t.branches == s.branches + 1 && t.domains == 1,
        b.domain@ != domain ==> t.branches == s.branches && t.domains == s.domains
            && t.indexed_commits == s.indexed_commits,
        reading is None && b.domain@ == domain ==> t.indexed_commits == s.indexed_commits + (
        if b.has_commit {
            1int
        } else {
            0int
        }),
        reading matches Some(DiskReading::Opened { tags: Some(n), .. }) ==> t.indexed_commits == n,
        reading matches Some(DiskReading::Counted { tags: Some(n), .. }) ==> t.indexed_commits == n,
        t.chunks == s.chunks,
        t.documents == s.documents,
{
    let more = indexes.push(b);
    lemma_of_domain_prefix(indexes, more, domain, indexes.len() as int);
    assert(more[indexes.len() as int] == b);
    let own = of_domain(indexes, domain, indexes.len() as int);
    let now = of_domain(more, domain, more.len() as int);
    lemma_commits_prefix(own, now, own.len() as int);
}

/// The chunks of a domain are the undeleted rows of its dataset: of the one in memory where it has
/// rows, or else of the one on disk, as opened or as counted. Documents are counted where there are
/// chunks, and pending work is that of the dataset in memory.
pub proof fn chunks_are_the_rows_of_the_dataset(
    s: Statistics,
    domain: Seq<char>,
    open: Option<OpenDataset>,
    indexes: Seq<IndexedBranch>,
    on_disk: bool,
    reading: Option<DiskReading>,
    documents: u64,
)
    requires
        counts_domain(s, domain, open, indexes, on_disk, reading, documents),
        reading is Some <==> wants_disk(open, on_disk),
        open matches Some(d) ==> are_sound(d.fragments@),
        reading matches Some(DiskReading::Opened { fragments, .. }) ==> are_sound(fragments@),
    ensures
        reading is None && open is Some ==> s.chunks == remaining(
            open->0.fragments@,
            open->0.fragments@.len() as int,
        ),
        reading matches Some(DiskReading::Opened { fragments, .. }) ==> s.chunks == remaining(
            fragments@,
            fragments@.len() as int,
        ),
        reading matches Some(DiskReading::Counted { rows, .. }) ==> s.chunks == rows,
        reading is None && open is None ==> s.chunks == 0 && !on_disk,
        s.chunks > 0 ==> s.documents == documents,
        s.chunks == 0 ==> s.documents == 0,
        open is Some || on_disk ==> s.domains == 1,
        open is Some && open->0.unindexed is Some ==> open->0.unindexed == Some(
            (s.pending_index_fragments, s.pending_index_documents),
        ),
        open is None || open->0.unindexed is None ==> s.pending_index_fragments == 0
            && s.pending_index_documents == 0,
{
    match open {
        Some(d) => {
            lemma_remaining(d.fragments@, d.fragments@.len() as int);
        },
        None => {},
    }
    match reading {
        Some(DiskReading::Opened { fragments, .. }) => {
            lemma_remaining(fragments@, fragments@.len() as int);
        },
        _ => {},
    }
}

/// The dataset on disk is read only where the one in memory has no row, deleted ones included.
pub proof fn rows_in_memory_spare_the_disk(open: OpenDataset, on_disk: bool, i: int)
    requires
        0 <= i < open.fragments@.len(),
        open.fragments@[i].physical_rows matches Some(k) && k > 0,
    ensures
        !wants_disk(Some(open), on_disk),
        wants_disk(None, on_disk) == on_disk,
{
    lemma_sums_grow(open.fragments@, i + 1, open.fragments@.len() as int);
}

} // verus!
