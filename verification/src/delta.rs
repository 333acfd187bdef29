//! The difference between two snapshots: which documents to read again, and which to delete.

use crate::filter;
use crate::grouping;
use crate::scan;
use crate::scan::ContentRow;
use crate::schema;
use crate::schema::ChunkRow;
use vstd::hash_map::StringHashMap;
use vstd::prelude::*;
use vstd::string::*;

verus! {

/// The delta between two versions: rows of added or changed documents, and documents to delete.
#[derive(Debug, Default)]
pub struct VersionDelta {
    /// Rows of documents that were added or changed.
    pub rows_to_append: Vec<ChunkRow>,
    /// Documents that were removed.
    pub doc_ids_to_delete: Vec<String>,
}

/// The documents that a delta concerns.
#[derive(Debug)]
pub struct DeltaPlan {
    /// Documents that were added or changed; their rows are read from the newer snapshot.
    pub read: Vec<String>,
    /// Documents that were removed.
    pub delete: Vec<String>,
}

/// A document's chunks in a scan: chunk numbers with texts.
pub open spec fn chunks(rows: Seq<(Seq<char>, i32, Seq<char>)>, id: Seq<char>) -> Set<
    (i32, Seq<char>),
> {
    Set::new(|c: (i32, Seq<char>)| has_chunk(rows, id, c))
}

/// A scan holds a chunk of a document.
pub open spec fn has_chunk(
    rows: Seq<(Seq<char>, i32, Seq<char>)>,
    id: Seq<char>,
    c: (i32, Seq<char>),
) -> bool {
    exists|i: int| 0 <= i < rows.len() && #[trigger] rows[i] == (id, c.0, c.1)
}

/// A scan holds a document.
pub open spec fn has_doc(rows: Seq<(Seq<char>, i32, Seq<char>)>, id: Seq<char>) -> bool {
    exists|i: int| 0 <= i < rows.len() && (#[trigger] rows[i]).0 == id
}

/// A list of strings names each text once.
pub open spec fn no_repeats(list: Seq<String>) -> bool {
    forall|i: int, j: int|
        #![trigger list[i], list[j]]
        0 <= i < j < list.len() ==> list[i]@ != list[j]@
}

/// The plan names exactly the documents whose chunks differ: to be read where the newer snapshot
/// has them, to be deleted where it does not.
pub open spec fn is_delta_plan(
    a: Seq<(Seq<char>, i32, Seq<char>)>,
    b: Seq<(Seq<char>, i32, Seq<char>)>,
    plan: DeltaPlan,
) -> bool {
    &&& forall|id: Seq<char>| #[trigger]
        filter::lists(plan.read@, id) <==> has_doc(b, id) && chunks(a, id) != chunks(b, id)
    &&& forall|id: Seq<char>| #[trigger]
        filter::lists(plan.delete@, id) <==> has_doc(a, id) && !has_doc(b, id)
    &&& no_repeats(plan.read@)
    &&& no_repeats(plan.delete@)
}

/// The rows of a document, by position.
spec fn is_rows_of(rows: Seq<ContentRow>, id: Seq<char>, p: Seq<usize>) -> bool {
    &&& forall|a: int|
        0 <= a < p.len() ==> (#[trigger] p[a]) < rows.len() && rows[p[a] as int].doc_id@ == id
    &&& forall|i: int|
        0 <= i < rows.len() && (#[trigger] rows[i]).doc_id@ == id ==> p.contains(i as usize)
}

fn has_same_chunk(rows: &Vec<ContentRow>, p: &Vec<usize>, row: &ContentRow) -> (r: bool)
    requires
        is_rows_of(rows@, row.doc_id@, p@),
    ensures
        r == has_chunk(schema::models(rows@), row.doc_id@, (row.chunk_index, row.content@)),
{
    let ghost m = schema::models(rows@);
    let mut a: usize = 0;
    while a < p.len()
        invariant
            a <= p.len(),
            m == schema::models(rows@),
            is_rows_of(rows@, row.doc_id@, p@),
            forall|b: int|
                0 <= b < a ==> rows@[(#[trigger] p@[b]) as int].chunk_index != row.chunk_index
                    || rows@[p@[b] as int].content@ != row.content@,
        decreases p.len() - a,
    {
        let other = &rows[p[a]];
        if other.chunk_index == row.chunk_index && other.content == row.content {
            assert(m[p@[a as int] as int] == (row.doc_id@, row.chunk_index, row.content@));
            return true;
        }
        a = a + 1;
    }
    proof {
        assert(rows.len() <= usize::MAX);
        if has_chunk(m, row.doc_id@, (row.chunk_index, row.content@)) {
            let i = choose|i: int|
                0 <= i < m.len() && #[trigger] m[i] == (row.doc_id@, row.chunk_index, row.content@);
            assert(rows@[i].doc_id@ == row.doc_id@);
            assert(p@.contains(i as usize));
            let b = choose|b: int| 0 <= b < p@.len() && p@[b] == i as usize;
            assert(rows@[p@[b] as int]@ == m[i]);
        }
    }
    false
}

/// Whether every chunk of a document in one scan is in the other.
fn covers(
    rows: &Vec<ContentRow>,
    p: &Vec<usize>,
    others: &Vec<ContentRow>,
    q: &Vec<usize>,
    Ghost(id): Ghost<Seq<char>>,
) -> (r: bool)
    requires
        is_rows_of(rows@, id, p@),
        is_rows_of(others@, id, q@),
    ensures
        r == chunks(schema::models(rows@), id).subset_of(chunks(schema::models(others@), id)),
{
    let ghost m = schema::models(rows@);
    let ghost n = schema::models(others@);
    let mut a: usize = 0;
    while a < p.len()
        invariant
            a <= p.len(),
            m == schema::models(rows@),
            n == schema::models(others@),
            is_rows_of(rows@, id, p@),
            is_rows_of(others@, id, q@),
            forall|b: int|
                0 <= b < a ==> has_chunk(
                    n,
                    id,
                    (
                        rows@[(#[trigger] p@[b]) as int].chunk_index,
                        rows@[p@[b] as int].content@,
                    ),
                ),
        decreases p.len() - a,
    {
        let row = &rows[p[a]];
        if !has_same_chunk(others, q, row) {
            proof {
                let c = (row.chunk_index, row.content@);
                assert(m[p@[a as int] as int] == (id, c.0, c.1));
                assert(chunks(m, id).contains(c));
                assert(!chunks(n, id).contains(c));
            }
            return false;
        }
        a = a + 1;
    }
    proof {
        assert(rows.len() <= usize::MAX);
        assert forall|c: (i32, Seq<char>)| chunks(m, id).contains(c) implies chunks(
            n,
            id,
        ).contains(c) by {
            let i = choose|i: int| 0 <= i < m.len() && #[trigger] m[i] == (id, c.0, c.1);
            assert(rows@[i].doc_id@ == id);
            assert(p@.contains(i as usize));
            let b = choose|b: int| 0 <= b < p@.len() && p@[b] == i as usize;
            assert(rows@[p@[b] as int]@ == m[i]);
        }
    }
    true
}

fn ids_of(rows: &Vec<ContentRow>) -> (ids: Vec<String>)
    ensures
        ids.len() == rows.len(),
        grouping::views(ids@) == scan::content_ids(rows@),
{
    let mut ids: Vec<String> = Vec::new();
    let mut i: usize = 0;
    while i < rows.len()
        invariant
            i <= rows.len(),
            ids.len() == i,
            forall|k: int| 0 <= k < i ==> (#[trigger] ids@[k])@ == rows@[k].doc_id@,
        decreases rows.len() - i,
    {
        ids.push(rows[i].doc_id.clone());
        i = i + 1;
    }
    assert(grouping::views(ids@) =~= scan::content_ids(rows@));
    ids
}

/// The documents of a scan with the positions of their rows, found by id.
struct DocIndex {
    positions: Vec<Vec<usize>>,
    by_id: StringHashMap<usize>,
}

impl DocIndex {
    spec fn fits(&self, rows: Seq<ContentRow>) -> bool {
        &&& forall|g: int|
            0 <= g < self.positions@.len() ==> (#[trigger] self.positions@[g])@.len() > 0
                && is_rows_of(
                rows,
                rows[self.positions@[g]@[0] as int].doc_id@,
                self.positions@[g]@,
            )
        &&& forall|g: int, h: int|
            #![trigger self.positions@[g], self.positions@[h]]
            0 <= g < h < self.positions@.len() ==> rows[self.positions@[g]@[0] as int].doc_id@
                != rows[self.positions@[h]@[0] as int].doc_id@
        &&& forall|id: Seq<char>| #[trigger]
            self.by_id@.contains_key(id) <==> has_doc(schema::models(rows), id)
        &&& forall|id: Seq<char>| #[trigger]
            self.by_id@.contains_key(id) ==> self.by_id@[id] < self.positions@.len()
                && rows[self.positions@[self.by_id@[id] as int]@[0] as int].doc_id@ == id
        &&& forall|i: int|
            0 <= i < rows.len() ==> has_group(rows, self.positions@, (#[trigger] rows[i]).doc_id@)
    }
}

spec fn has_group(rows: Seq<ContentRow>, positions: Seq<Vec<usize>>, id: Seq<char>) -> bool {
    exists|g: int|
        0 <= g < positions.len() && rows[(#[trigger] positions[g])@[0] as int].doc_id@ == id
}

fn index_docs(rows: &Vec<ContentRow>) -> (r: DocIndex)
    ensures
        r.fits(rows@),
{
    let ids = ids_of(rows);
    let ghost names = scan::content_ids(rows@);
    let positions = grouping::positions_by_key(&ids);
    let mut by_id: StringHashMap<usize> = StringHashMap::new();
    let mut g: usize = 0;
    while g < positions.len()
        invariant
            g <= positions.len(),
            names == scan::content_ids(rows@),
            grouping::lists_positions(names, positions@),
            forall|id: Seq<char>| #[trigger]
                by_id@.contains_key(id) ==> by_id@[id] < g && names[positions@[by_id@[id] as int]@[0] as int]
                    == id,
            forall|h: int|
                0 <= h < g ==> by_id@.contains_key(names[(#[trigger] positions@[h])@[0] as int]),
        decreases positions.len() - g,
    {
        let first = positions[g][0];
        assert(names[first as int] == rows@[first as int].doc_id@);
        by_id.insert(rows[first].doc_id.clone(), g);
        g = g + 1;
    }
    proof {
        assert(rows.len() <= usize::MAX);
        let m = schema::models(rows@);
        assert forall|i: int| 0 <= i < rows@.len() implies has_group(
            rows@,
            positions@,
            (#[trigger] rows@[i]).doc_id@,
        ) && by_id@.contains_key(rows@[i].doc_id@) by {
            assert(grouping::is_listed(positions@, i as usize));
            let h = choose|h: int|
                0 <= h < positions@.len() && (#[trigger] positions@[h])@.contains(i as usize);
            let b = choose|b: int| 0 <= b < positions@[h]@.len() && positions@[h]@[b] == i as usize;
            assert(names[i] == names[positions@[h]@[0] as int]);
            assert(rows@[positions@[h]@[0] as int].doc_id@ == rows@[i].doc_id@);
        }
        assert forall|g: int| 0 <= g < positions@.len() implies (
        #[trigger] positions@[g])@.len() > 0 && is_rows_of(
            rows@,
            rows@[positions@[g]@[0] as int].doc_id@,
            positions@[g]@,
        ) by {
            let id = rows@[positions@[g]@[0] as int].doc_id@;
            assert(names[positions@[g]@[0] as int] == id);
            assert forall|a: int| 0 <= a < positions@[g]@.len() implies (
            #[trigger] positions@[g]@[a]) < rows@.len() && rows@[positions@[g]@[a] as int].doc_id@
                == id by {
                assert(names[positions@[g]@[a] as int] == names[positions@[g]@[0] as int]);
            }
            assert forall|i: int|
                0 <= i < rows@.len() && (#[trigger] rows@[i]).doc_id@
                    == id implies positions@[g]@.contains(i as usize) by {
                assert(grouping::is_listed(positions@, i as usize));
                let h = choose|h: int|
                    0 <= h < positions@.len() && (#[trigger] positions@[h])@.contains(i as usize);
                let b = choose|b: int|
                    0 <= b < positions@[h]@.len() && positions@[h]@[b] == i as usize;
                assert(names[i] == names[positions@[h]@[0] as int]);
                assert(h == g);
            }
        }
        assert forall|id: Seq<char>| #[trigger] by_id@.contains_key(id) <==> has_doc(m, id) by {
            if by_id@.contains_key(id) {
                let first = positions@[by_id@[id] as int]@[0] as int;
                assert(m[first].0 == id);
            }
            if has_doc(m, id) {
                let i = choose|i: int| 0 <= i < m.len() && (#[trigger] m[i]).0 == id;
                assert(rows@[i].doc_id@ == id);
            }
        }
    }
    DocIndex { positions, by_id }
}

/// Plans the delta from one scan to another: a document is read again when its chunks differ, and
/// deleted when the newer scan lacks it.
pub fn plan_delta(rows_a: &Vec<ContentRow>, rows_b: &Vec<ContentRow>) -> (plan: DeltaPlan)
    ensures
        is_delta_plan(schema::models(rows_a@), schema::models(rows_b@), plan),
{
    let ghost a = schema::models(rows_a@);
    let ghost b = schema::models(rows_b@);
    let index_a = index_docs(rows_a);
    let index_b = index_docs(rows_b);
    let mut read: Vec<String> = Vec::new();
    let mut g: usize = 0;
    while g < index_b.positions.len()
        invariant
            g <= index_b.positions.len(),
            a == schema::models(rows_a@),
            b == schema::models(rows_b@),
            index_a.fits(rows_a@),
            index_b.fits(rows_b@),
            forall|k: int|
                0 <= k < read.len() ==> has_doc(b, (#[trigger] read@[k])@) && chunks(a, read@[k]@)
                    != chunks(b, read@[k]@) && is_before_group(
                    rows_b@,
                    index_b.positions@,
                    g as int,
                    read@[k]@,
                ),
            forall|h: int|
                0 <= h < g ==> ({
                    let id = rows_b@[(#[trigger] index_b.positions@[h])@[0] as int].doc_id@;
                    chunks(a, id) != chunks(b, id) ==> filter::lists(read@, id)
                }),
            no_repeats(read@),
        decreases index_b.positions.len() - g,
    {
        let p = &index_b.positions[g];
        let first = p[0];
        let ghost id = rows_b@[first as int].doc_id@;
        assert(is_rows_of(rows_b@, id, p@));
        let known: Option<usize> = match index_a.by_id.get(rows_b[first].doc_id.as_str()) {
            Some(h) => Some(*h),
            None => None,
        };
        let differs: bool = match known {
            Some(h) => {
                let q = &index_a.positions[h];
                assert(is_rows_of(rows_a@, id, q@));
                let same = covers(rows_a, q, rows_b, p, Ghost(id)) && covers(
                    rows_b,
                    p,
                    rows_a,
                    q,
                    Ghost(id),
                );
                proof {
                    if same {
                        assert(chunks(a, id) =~= chunks(b, id));
                    }
                }
                !same
            },
            None => {
                proof {
                    assert(!has_doc(a, id));
                    let c = (rows_b@[first as int].chunk_index, rows_b@[first as int].content@);
                    assert(b[first as int] == (id, c.0, c.1));
                    assert(chunks(b, id).contains(c));
                    if chunks(a, id).contains(c) {
                        let i = choose|i: int|
                            0 <= i < a.len() && #[trigger] a[i] == (id, c.0, c.1);
                        assert(a[i].0 == id);
                    }
                }
                true
            },
        };
        let ghost before = read@;
        if differs {
            proof {
                assert(b[first as int].0 == id);
                assert forall|k: int| 0 <= k < before.len() implies (#[trigger] before[k])@ != id by {
                    assert(is_before_group(rows_b@, index_b.positions@, g as int, before[k]@));
                }
            }
            read.push(rows_b[first].doc_id.clone());
            assert(read@[before.len() as int]@ == id);
        }
        proof {
            assert forall|k: int| 0 <= k < read.len() implies has_doc(b, (#[trigger] read@[k])@)
                && chunks(a, read@[k]@) != chunks(b, read@[k]@) && is_before_group(
                rows_b@,
                index_b.positions@,
                g + 1,
                read@[k]@,
            ) by {
                if k < before.len() {
                    assert(read@[k] == before[k]);
                    assert(is_before_group(rows_b@, index_b.positions@, g as int, before[k]@));
                    let h = choose|h: int|
                        0 <= h < g && rows_b@[(
                        #[trigger] index_b.positions@[h])@[0] as int].doc_id@ == before[k]@;
                    assert(rows_b@[index_b.positions@[h]@[0] as int].doc_id@ == read@[k]@);
                } else {
                    assert(rows_b@[index_b.positions@[g as int]@[0] as int].doc_id@ == id);
                }
            }
            assert forall|h: int| 0 <= h < g + 1 implies ({
                let id = rows_b@[(#[trigger] index_b.positions@[h])@[0] as int].doc_id@;
                chunks(a, id) != chunks(b, id) ==> filter::lists(read@, id)
            }) by {
                let other = rows_b@[index_b.positions@[h]@[0] as int].doc_id@;
                if h < g && chunks(a, other) != chunks(b, other) {
                    assert(filter::lists(before, other));
                    let k = choose|k: int| 0 <= k < before.len() && (#[trigger] before[k])@ == other;
                    assert(read@[k]@ == other);
                }
            }
        }
        g = g + 1;
    }
    let mut delete: Vec<String> = Vec::new();
    let mut g: usize = 0;
    while g < index_a.positions.len()
        invariant
            g <= index_a.positions.len(),
            a == schema::models(rows_a@),
            b == schema::models(rows_b@),
            index_a.fits(rows_a@),
            index_b.fits(rows_b@),
            forall|k: int|
                0 <= k < delete.len() ==> has_doc(a, (#[trigger] delete@[k])@) && !has_doc(
                    b,
                    delete@[k]@,
                ) && is_before_group(rows_a@, index_a.positions@, g as int, delete@[k]@),
            forall|h: int|
                0 <= h < g ==> ({
                    let id = rows_a@[(#[trigger] index_a.positions@[h])@[0] as int].doc_id@;
                    !has_doc(b, id) ==> filter::lists(delete@, id)
                }),
            no_repeats(delete@),
        decreases index_a.positions.len() - g,
    {
        let first = index_a.positions[g][0];
        let ghost id = rows_a@[first as int].doc_id@;
        assert(is_rows_of(rows_a@, id, index_a.positions@[g as int]@));
        let ghost before = delete@;
        if !index_b.by_id.contains_key(rows_a[first].doc_id.as_str()) {
            proof {
                assert(a[first as int].0 == id);
                assert forall|k: int| 0 <= k < before.len() implies (#[trigger] before[k])@ != id by {
                    assert(is_before_group(rows_a@, index_a.positions@, g as int, before[k]@));
                }
            }
            delete.push(rows_a[first].doc_id.clone());
            assert(delete@[before.len() as int]@ == id);
        }
        proof {
            assert forall|k: int| 0 <= k < delete.len() implies has_doc(a, (#[trigger] delete@[k])@)
                && !has_doc(b, delete@[k]@) && is_before_group(
                rows_a@,
                index_a.positions@,
                g + 1,
                delete@[k]@,
            ) by {
                if k < before.len() {
                    assert(delete@[k] == before[k]);
                    assert(is_before_group(rows_a@, index_a.positions@, g as int, before[k]@));
                    let h = choose|h: int|
                        0 <= h < g && rows_a@[(
                        #[trigger] index_a.positions@[h])@[0] as int].doc_id@ == before[k]@;
                    assert(rows_a@[index_a.positions@[h]@[0] as int].doc_id@ == delete@[k]@);
                } else {
                    assert(rows_a@[index_a.positions@[g as int]@[0] as int].doc_id@ == id);
                }
            }
            assert forall|h: int| 0 <= h < g + 1 implies ({
                let id = rows_a@[(#[trigger] index_a.positions@[h])@[0] as int].doc_id@;
                !has_doc(b, id) ==> filter::lists(delete@, id)
            }) by {
                let other = rows_a@[index_a.positions@[h]@[0] as int].doc_id@;
                if h < g && !has_doc(b, other) {
                    assert(filter::lists(before, other));
                    let k = choose|k: int| 0 <= k < before.len() && (#[trigger] before[k])@ == other;
                    assert(delete@[k]@ == other);
                }
            }
        }
        g = g + 1;
    }
    proof {
        lemma_all_groups(rows_b@, index_b.positions@);
        lemma_all_groups(rows_a@, index_a.positions@);
        assert forall|id: Seq<char>| #[trigger] filter::lists(read@, id) <==> has_doc(b, id)
            && chunks(a, id) != chunks(b, id) by {
            if has_doc(b, id) && chunks(a, id) != chunks(b, id) {
                assert(has_group(rows_b@, index_b.positions@, id));
                let h = choose|h: int|
                    0 <= h < index_b.positions@.len() && rows_b@[(
                    #[trigger] index_b.positions@[h])@[0] as int].doc_id@ == id;
            }
        }
        assert forall|id: Seq<char>| #[trigger] filter::lists(delete@, id) <==> has_doc(a, id)
            && !has_doc(b, id) by {
            if has_doc(a, id) && !has_doc(b, id) {
                assert(has_group(rows_a@, index_a.positions@, id));
                let h = choose|h: int|
                    0 <= h < index_a.positions@.len() && rows_a@[(
                    #[trigger] index_a.positions@[h])@[0] as int].doc_id@ == id;
            }
        }
    }
    DeltaPlan { read, delete }
}

/// One of the first `n` groups is the document's.
spec fn is_before_group(
    rows: Seq<ContentRow>,
    positions: Seq<Vec<usize>>,
    n: int,
    id: Seq<char>,
) -> bool {
    exists|h: int| 0 <= h < n && rows[(#[trigger] positions[h])@[0] as int].doc_id@ == id
}

proof fn lemma_all_groups(rows: Seq<ContentRow>, positions: Seq<Vec<usize>>)
    requires
        forall|i: int|
            0 <= i < rows.len() ==> has_group(rows, positions, (#[trigger] rows[i]).doc_id@),
    ensures
        forall|id: Seq<char>| #[trigger]
            has_doc(schema::models(rows), id) ==> has_group(rows, positions, id),
{
    let m = schema::models(rows);
    assert forall|id: Seq<char>| #[trigger] has_doc(m, id) implies has_group(
        rows,
        positions,
        id,
    ) by {
        let i = choose|i: int| 0 <= i < m.len() && (#[trigger] m[i]).0 == id;
        assert(rows[i].doc_id@ == id);
    }
}

/// The delta of a plan, given the rows of its documents from the newer snapshot.
pub fn assemble_delta(plan: DeltaPlan, rows: Vec<ChunkRow>) -> (d: VersionDelta)
    ensures
        d.rows_to_append@ == rows@,
        d.doc_ids_to_delete@ == plan.delete@,
        d.rows_to_append@.len() == rows@.len(),
        forall|id: Seq<char>| #[trigger]
            filter::lists(d.doc_ids_to_delete@, id) <==> filter::lists(plan.delete@, id),
{
    VersionDelta { rows_to_append: rows, doc_ids_to_delete: plan.delete }
}

/// A scan after a delta was applied: the deleted documents go, then the rows are appended.
pub open spec fn applied(
    rows: Seq<(Seq<char>, i32, Seq<char>)>,
    delete: Seq<String>,
    append: Seq<(Seq<char>, i32, Seq<char>)>,
) -> Seq<(Seq<char>, i32, Seq<char>)> {
    kept(rows, delete, rows.len() as int) + append
}

/// The first `n` rows without those of the deleted documents.
pub open spec fn kept(
    rows: Seq<(Seq<char>, i32, Seq<char>)>,
    delete: Seq<String>,
    n: int,
) -> Seq<(Seq<char>, i32, Seq<char>)>
    decreases n,
{
    if n <= 0 {
        Seq::empty()
    } else if filter::lists(delete, rows[n - 1].0) {
        kept(rows, delete, n - 1)
    } else {
        kept(rows, delete, n - 1).push(rows[n - 1])
    }
}

pub proof fn lemma_kept(
    rows: Seq<(Seq<char>, i32, Seq<char>)>,
    delete: Seq<String>,
    n: int,
    row: (Seq<char>, i32, Seq<char>),
)
    requires
        0 <= n <= rows.len(),
    ensures
        kept(rows, delete, n).contains(row) <==> rows.take(n).contains(row) && !filter::lists(
            delete,
            row.0,
        ),
    decreases n,
{
    if n > 0 {
        lemma_kept(rows, delete, n - 1, row);
        let t = rows.take(n);
        let s = rows.take(n - 1);
        assert(t =~= s.push(rows[n - 1]));
        let k = kept(rows, delete, n - 1);
        let l = kept(rows, delete, n);
        if t.contains(row) && !filter::lists(delete, row.0) {
            let i = choose|i: int| 0 <= i < t.len() && t[i] == row;
            if i < n - 1 {
                assert(s[i] == row);
                let j = choose|j: int| 0 <= j < k.len() && k[j] == row;
                assert(l[j] == row);
            } else {
                assert(l.last() == row);
            }
        }
        if l.contains(row) {
            let j = choose|j: int| 0 <= j < l.len() && l[j] == row;
            if j < k.len() {
                assert(k[j] == row);
                let i = choose|i: int| 0 <= i < s.len() && s[i] == row;
                assert(t[i] == row);
            } else {
                assert(t[n - 1] == row);
            }
        }
    }
}

/// Applying a delta gives every document of the newer snapshot its chunks, with the documents it
/// lacks gone, provided that no chunk of the document was replaced: chunks of changed documents are
/// appended to, not rewritten.
pub proof fn applying_a_delta_reaches_the_newer_snapshot(
    a: Seq<(Seq<char>, i32, Seq<char>)>,
    b: Seq<(Seq<char>, i32, Seq<char>)>,
    plan: DeltaPlan,
    append: Seq<(Seq<char>, i32, Seq<char>)>,
    id: Seq<char>,
)
    requires
        is_delta_plan(a, b, plan),
        forall|row: (Seq<char>, i32, Seq<char>)| #[trigger]
            append.contains(row) <==> b.contains(row) && filter::lists(plan.read@, row.0),
        !has_doc(b, id) || chunks(a, id).subset_of(chunks(b, id)),
    ensures
        chunks(applied(a, plan.delete@, append), id) == chunks(b, id),
{
    let out = applied(a, plan.delete@, append);
    let head = kept(a, plan.delete@, a.len() as int);
    assert(a.take(a.len() as int) =~= a);
    assert forall|c: (i32, Seq<char>)| chunks(out, id).contains(c) <==> chunks(b, id).contains(
        c,
    ) by {
        let row = (id, c.0, c.1);
        lemma_kept(a, plan.delete@, a.len() as int, row);
        if chunks(out, id).contains(c) {
            let i = choose|i: int| 0 <= i < out.len() && #[trigger] out[i] == row;
            if i < head.len() {
                assert(head[i] == row);
                assert(head.contains(row));
                let j = choose|j: int| 0 <= j < a.len() && a[j] == row;
                assert(a[j].0 == id);
                assert(has_doc(a, id));
                assert(!filter::lists(plan.delete@, id));
                assert(has_doc(b, id));
                assert(a[j] == (id, c.0, c.1));
                assert(chunks(a, id).contains(c));
            } else {
                assert(append[i - head.len()] == row);
                assert(append.contains(row));
                let j = choose|j: int| 0 <= j < b.len() && b[j] == row;
                assert(b[j] == (id, c.0, c.1));
            }
        }
        if chunks(b, id).contains(c) {
            let j = choose|j: int| 0 <= j < b.len() && #[trigger] b[j] == row;
            assert(b[j].0 == id);
            assert(has_doc(b, id));
            assert(b.contains(row));
            if filter::lists(plan.read@, id) {
                assert(append.contains(row));
                let i = choose|i: int| 0 <= i < append.len() && append[i] == row;
                assert(out[head.len() + i] == row);
            } else {
                assert(chunks(a, id) == chunks(b, id));
                assert(chunks(a, id).contains(c));
                let i = choose|i: int| 0 <= i < a.len() && #[trigger] a[i] == row;
                assert(a.contains(row));
                assert(!filter::lists(plan.delete@, id));
                assert(head.contains(row));
                let k = choose|k: int| 0 <= k < head.len() && head[k] == row;
                assert(out[k] == row);
            }
        }
    }
    assert(chunks(out, id) =~= chunks(b, id));
}

/// Equal snapshots have an empty delta.
pub proof fn equal_snapshots_have_no_delta(
    a: Seq<(Seq<char>, i32, Seq<char>)>,
    b: Seq<(Seq<char>, i32, Seq<char>)>,
    plan: DeltaPlan,
)
    requires
        is_delta_plan(a, b, plan),
        forall|row: (Seq<char>, i32, Seq<char>)| #[trigger] a.contains(row) <==> b.contains(row),
    ensures
        plan.read@.len() == 0,
        plan.delete@.len() == 0,
{
    if plan.read@.len() > 0 {
        let id = plan.read@[0]@;
        assert(filter::lists(plan.read@, id));
        assert forall|c: (i32, Seq<char>)| chunks(a, id).contains(c) <==> chunks(b, id).contains(
            c,
        ) by {
            let row = (id, c.0, c.1);
            assert(a.contains(row) <==> b.contains(row));
            if chunks(a, id).contains(c) {
                let i = choose|i: int| 0 <= i < a.len() && #[trigger] a[i] == row;
                assert(a.contains(row));
                let j = choose|j: int| 0 <= j < b.len() && b[j] == row;
                assert(b[j] == (id, c.0, c.1));
            }
            if chunks(b, id).contains(c) {
                let i = choose|i: int| 0 <= i < b.len() && #[trigger] b[i] == row;
                assert(b.contains(row));
                let j = choose|j: int| 0 <= j < a.len() && a[j] == row;
                assert(a[j] == (id, c.0, c.1));
            }
        }
        assert(chunks(a, id) =~= chunks(b, id));
    }
    if plan.delete@.len() > 0 {
        let id = plan.delete@[0]@;
        assert(filter::lists(plan.delete@, id));
        let i = choose|i: int| 0 <= i < a.len() && (#[trigger] a[i]).0 == id;
        assert(a.contains(a[i]));
        let j = choose|j: int| 0 <= j < b.len() && b[j] == a[i];
        assert(b[j].0 == id);
    }
}

/// A row of a document has no equal among other rows: none of the same document has its chunk
/// number and text.
pub open spec fn is_unmatched(row: ContentRow, others: Seq<ContentRow>) -> bool {
    forall|j: int|
        0 <= j < others.len() ==> (#[trigger] others[j]).doc_id@ != row.doc_id@
            || others[j].chunk_index != row.chunk_index || others[j].content@ != row.content@
}

/// Rows hold a document.
pub open spec fn holds_document(rows: Seq<ContentRow>, id: Seq<char>) -> bool {
    exists|i: int| 0 <= i < rows.len() && (#[trigger] rows[i]).doc_id@ == id
}

/// Some row of a document has no equal among other rows.
pub open spec fn has_unmatched(rows: Seq<ContentRow>, others: Seq<ContentRow>, id: Seq<char>) -> bool {
    exists|i: int|
        0 <= i < rows.len() && (#[trigger] rows[i]).doc_id@ == id && is_unmatched(rows[i], others)
}

proof fn lemma_unmatched(rows: Seq<ContentRow>, others: Seq<ContentRow>, id: Seq<char>)
    ensures
        has_unmatched(rows, others, id) <==> !chunks(schema::models(rows), id).subset_of(
            chunks(schema::models(others), id),
        ),
{
    let a = schema::models(rows);
    let b = schema::models(others);
    if has_unmatched(rows, others, id) {
        let i = choose|i: int|
            0 <= i < rows.len() && (#[trigger] rows[i]).doc_id@ == id && is_unmatched(
                rows[i],
                others,
            );
        let c = (rows[i].chunk_index, rows[i].content@);
        assert(a[i] == (id, c.0, c.1));
        assert(chunks(a, id).contains(c));
        if chunks(b, id).contains(c) {
            let j = choose|j: int| 0 <= j < b.len() && #[trigger] b[j] == (id, c.0, c.1);
            assert(others[j]@ == b[j]);
        }
    }
    if !chunks(a, id).subset_of(chunks(b, id)) {
        let c = choose|c: (i32, Seq<char>)|
            chunks(a, id).contains(c) && !chunks(b, id).contains(c);
        let i = choose|i: int| 0 <= i < a.len() && #[trigger] a[i] == (id, c.0, c.1);
        assert(rows[i]@ == a[i]);
        assert forall|j: int| 0 <= j < others.len() implies (#[trigger] others[j]).doc_id@
            != rows[i].doc_id@ || others[j].chunk_index != rows[i].chunk_index || others[j].content@
            != rows[i].content@ by {
            assert(b[j] == others[j]@);
            if others[j].doc_id@ == id && others[j].chunk_index == c.0 && others[j].content@ == c.1 {
                assert(b[j] == (id, c.0, c.1));
                assert(has_chunk(b, id, c));
            }
        }
        assert(is_unmatched(rows[i], others));
    }
}

/// A document is read again exactly when the newer snapshot has it and some row of it, old or new,
/// has no equal on the other side: an added or a lost chunk, or another text. It is deleted exactly
/// when only the older snapshot has it. Each is named once.
pub proof fn changed_documents_are_read_again(
    rows_a: Seq<ContentRow>,
    rows_b: Seq<ContentRow>,
    plan: DeltaPlan,
    id: Seq<char>,
)
    requires
        is_delta_plan(schema::models(rows_a), schema::models(rows_b), plan),
    ensures
        (exists|k: int| 0 <= k < plan.read@.len() && (#[trigger] plan.read@[k])@ == id)
            <==> holds_document(rows_b, id) && (has_unmatched(rows_a, rows_b, id) || has_unmatched(
            rows_b,
            rows_a,
            id,
        )),
        (exists|k: int| 0 <= k < plan.delete@.len() && (#[trigger] plan.delete@[k])@ == id)
            <==> holds_document(rows_a, id) && !holds_document(rows_b, id),
        forall|j: int, k: int|
            #![trigger plan.read@[j], plan.read@[k]]
            0 <= j < k < plan.read@.len() ==> plan.read@[j]@ != plan.read@[k]@,
        forall|j: int, k: int|
            #![trigger plan.delete@[j], plan.delete@[k]]
            0 <= j < k < plan.delete@.len() ==> plan.delete@[j]@ != plan.delete@[k]@,
{
    let a = schema::models(rows_a);
    let b = schema::models(rows_b);
    lemma_unmatched(rows_a, rows_b, id);
    lemma_unmatched(rows_b, rows_a, id);
    lemma_holds_document(rows_a, id);
    lemma_holds_document(rows_b, id);
    assert(filter::lists(plan.read@, id) <==> has_doc(b, id) && chunks(a, id) != chunks(b, id));
    assert(filter::lists(plan.delete@, id) <==> has_doc(a, id) && !has_doc(b, id));
    if chunks(a, id).subset_of(chunks(b, id)) && chunks(b, id).subset_of(chunks(a, id)) {
        assert(chunks(a, id) =~= chunks(b, id));
    }
}

proof fn lemma_holds_document(rows: Seq<ContentRow>, id: Seq<char>)
    ensures
        holds_document(rows, id) <==> has_doc(schema::models(rows), id),
{
    let m = schema::models(rows);
    if holds_document(rows, id) {
        let i = choose|i: int| 0 <= i < rows.len() && (#[trigger] rows[i]).doc_id@ == id;
        assert(m[i].0 == id);
    }
    if has_doc(m, id) {
        let i = choose|i: int| 0 <= i < m.len() && (#[trigger] m[i]).0 == id;
        assert(rows[i].doc_id@ == id);
    }
}

} // verus!
