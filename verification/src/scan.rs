//! Row-level scans: stored vectors, document texts, full rows and probe points.

use crate::batch;
use crate::batch::{Batch, EmbeddingCell};
use crate::grouping;
use crate::order;
use crate::order::{Ascending, Ranked};
use crate::schema;
use crate::schema::{ChunkRow, RowModel, StoreError};
use crate::text;
use crate::write::ChunkColumns;
use vstd::prelude::*;
use vstd::string::*;

verus! {

/// Joins the parts in order, or gives the first failure among them.
pub open spec fn gather<T>(part: spec_fn(int) -> Result<Seq<T>, Seq<char>>, n: int) -> Result<
    Seq<T>,
    Seq<char>,
>
    decreases n,
{
    if n <= 0 {
        Ok(Seq::empty())
    } else {
        match gather(part, n - 1) {
            Err(m) => Err(m),
            Ok(head) => match part(n - 1) {
                Err(m) => Err(m),
                Ok(more) => Ok(head + more),
            },
        }
    }
}

pub proof fn lemma_gather_fail<T>(part: spec_fn(int) -> Result<Seq<T>, Seq<char>>, n: int, m: int)
    requires
        0 <= n <= m,
        gather(part, n) is Err,
    ensures
        gather(part, m) == gather(part, n),
    decreases m,
{
    if n < m {
        lemma_gather_fail(part, n, m - 1);
    }
}

/// A result over exec values agrees with one over their models.
pub open spec fn agrees<T: View>(
    r: Result<Vec<T>, StoreError>,
    expected: Result<Seq<T::V>, Seq<char>>,
) -> bool {
    match r {
        Ok(rows) => expected == Ok::<Seq<T::V>, Seq<char>>(schema::models(rows@)),
        Err(e) => expected == Err::<Seq<T::V>, Seq<char>>(e.message()),
    }
}

/// The stored text of one chunk.
#[derive(Debug)]
pub struct ContentRow {
    pub doc_id: String,
    pub chunk_index: i32,
    pub content: String,
}

impl View for ContentRow {
    type V = (Seq<char>, i32, Seq<char>);

    open spec fn view(&self) -> (Seq<char>, i32, Seq<char>) {
        (self.doc_id@, self.chunk_index, self.content@)
    }
}

/// The messages for columns that a scan for chunk texts must yield.
pub struct ContentMessages {
    pub no_doc_id: &'static str,
    pub no_chunk_index: &'static str,
    pub no_content: &'static str,
}

/// The chunk texts of one batch; an empty batch has none, whatever its columns.
pub open spec fn content_batch(b: Batch, m: ContentMessages) -> Result<
    Seq<(Seq<char>, i32, Seq<char>)>,
    Seq<char>,
> {
    if b.rows == 0 {
        Ok(Seq::empty())
    } else if b.doc_id is None {
        Err(m.no_doc_id@)
    } else if b.chunk_index is None {
        Err(m.no_chunk_index@)
    } else if b.content is None {
        Err(m.no_content@)
    } else {
        Ok(
            Seq::new(
                b.rows as nat,
                |i: int| (b.doc_id->0@[i]@, b.chunk_index->0@[i], b.content->0@[i]@),
            ),
        )
    }
}

/// The chunk texts of a scan, or the first missing column.
pub open spec fn content_scan(batches: Seq<Batch>, m: ContentMessages) -> Result<
    Seq<(Seq<char>, i32, Seq<char>)>,
    Seq<char>,
> {
    gather(|i: int| content_batch(batches[i], m), batches.len() as int)
}

/// The chunk texts of a scan.
pub fn content_rows(batches: &Vec<Batch>, m: &ContentMessages) -> (r: Result<
    Vec<ContentRow>,
    StoreError,
>)
    requires
        batch::all_well_formed(batches@),
    ensures
        agrees(r, content_scan(batches@, *m)),
{
    let ghost part = |i: int| content_batch(batches@[i], *m);
    let mut out: Vec<ContentRow> = Vec::new();
    let mut i: usize = 0;
    assert(schema::models(out@) =~= Seq::<(Seq<char>, i32, Seq<char>)>::empty());
    while i < batches.len()
        invariant
            i <= batches.len(),
            batch::all_well_formed(batches@),
            part == (|i: int| content_batch(batches@[i], *m)),
            gather(part, i as int) == Ok::<Seq<(Seq<char>, i32, Seq<char>)>, Seq<char>>(
                schema::models(out@),
            ),
        decreases batches.len() - i,
    {
        let b = &batches[i];
        let ghost start = schema::models(out@);
        if b.rows > 0 {
            let failure: &'static str = if b.doc_id.is_none() {
                m.no_doc_id
            } else if b.chunk_index.is_none() {
                m.no_chunk_index
            } else {
                m.no_content
            };
            if let (Some(ids), Some(ci), Some(cnt)) = (&b.doc_id, &b.chunk_index, &b.content) {
                let ghost rows = content_batch(*b, *m)->Ok_0;
                let mut k: usize = 0;
                assert(schema::models(out@) =~= start + rows.take(0));
                while k < b.rows
                    invariant
                        k <= b.rows,
                        b.well_formed(),
                        rows.len() == b.rows,
                        forall|j: int|
                            0 <= j < b.rows ==> #[trigger] rows[j] == (ids@[j]@, ci@[j], cnt@[j]@),
                        ids@.len() == b.rows,
                        ci@.len() == b.rows,
                        cnt@.len() == b.rows,
                        schema::models(out@) == start + rows.take(k as int),
                    decreases b.rows - k,
                {
                    let ghost before = out@;
                    out.push(
                        ContentRow {
                            doc_id: ids[k].clone(),
                            chunk_index: ci[k],
                            content: cnt[k].clone(),
                        },
                    );
                    proof {
                        assert(schema::models(out@) =~= schema::models(before).push(rows[k as int]));
                        assert(start + rows.take(k + 1) =~= (start + rows.take(k as int)).push(
                            rows[k as int],
                        ));
                    }
                    k = k + 1;
                }
                assert(rows.take(b.rows as int) =~= rows);
            } else {
                proof {
                    lemma_gather_fail(part, i + 1, batches@.len() as int);
                }
                return Err(StoreError::Internal(failure.to_owned()));
            }
        } else {
            assert(start + Seq::<(Seq<char>, i32, Seq<char>)>::empty() =~= start);
        }
        i = i + 1;
    }
    Ok(out)
}

/// The full text of one document.
#[derive(Debug)]
pub struct DocText {
    pub doc_id: String,
    pub text: String,
}

/// `p` lists every row of the document once, by chunk, rows of one chunk in scan order.
pub open spec fn is_chunk_order(rows: Seq<ContentRow>, doc_id: Seq<char>, p: Seq<int>) -> bool {
    &&& forall|k: int|
        0 <= k < p.len() ==> 0 <= #[trigger] p[k] < rows.len() && rows[p[k]].doc_id@ == doc_id
    &&& forall|i: int|
        0 <= i < rows.len() && (#[trigger] rows[i]).doc_id@ == doc_id ==> p.contains(i)
    &&& forall|j: int, k: int|
        #![trigger p[j], p[k]]
        0 <= j < k < p.len() ==> rows[p[j]].chunk_index < rows[p[k]].chunk_index || (
        rows[p[j]].chunk_index == rows[p[k]].chunk_index && p[j] < p[k])
}

/// The texts of the listed rows, separated by single spaces.
pub open spec fn joined(rows: Seq<ContentRow>, p: Seq<int>) -> Seq<char>
    decreases p.len(),
{
    if p.len() == 0 {
        Seq::empty()
    } else if p.len() == 1 {
        rows[p[0]].content@
    } else {
        joined(rows, p.drop_last()) + " "@ + rows[p.last()].content@
    }
}

/// `t` is the text of a document of the scan.
pub open spec fn is_doc_text(rows: Seq<ContentRow>, t: DocText) -> bool {
    exists|p: Seq<int>|
        p.len() > 0 && is_chunk_order(rows, t.doc_id@, p) && t.text@ == #[trigger] joined(rows, p)
}

/// `texts` has a text of the document.
pub open spec fn has_text_of(texts: Seq<DocText>, doc_id: Seq<char>) -> bool {
    exists|k: int| 0 <= k < texts.len() && (#[trigger] texts[k]).doc_id@ == doc_id
}

/// `texts` has the text of each document of the scan once.
pub open spec fn has_each_text(rows: Seq<ContentRow>, texts: Seq<DocText>) -> bool {
    &&& forall|k: int| 0 <= k < texts.len() ==> is_doc_text(rows, #[trigger] texts[k])
    &&& forall|i: int| 0 <= i < rows.len() ==> has_text_of(texts, (#[trigger] rows[i]).doc_id@)
    &&& forall|j: int, k: int|
        #![trigger texts[j], texts[k]]
        0 <= j < k < texts.len() ==> texts[j].doc_id@ != texts[k].doc_id@
}

/// The document ids of a scan for chunk texts.
pub open spec fn content_ids(rows: Seq<ContentRow>) -> Seq<Seq<char>> {
    rows.map_values(|r: ContentRow| r.doc_id@)
}

/// The positions of one document's rows, by chunk, rows of one chunk in scan order.
fn chunk_order(rows: &Vec<ContentRow>, positions: &Vec<usize>, Ghost(doc_id): Ghost<Seq<char>>) -> (p:
    Vec<usize>)
    requires
        forall|a: int|
            0 <= a < positions.len() ==> (#[trigger] positions@[a]) < rows.len()
                && rows@[positions@[a] as int].doc_id@ == doc_id,
        forall|a: int, b: int|
            #![trigger positions@[a], positions@[b]]
            0 <= a < b < positions.len() ==> positions@[a] < positions@[b],
        forall|i: int|
            0 <= i < rows.len() && (#[trigger] rows@[i]).doc_id@ == doc_id ==> positions@.contains(
                i as usize,
            ),
    ensures
        p.len() == positions.len(),
        forall|k: int| 0 <= k < p.len() ==> (#[trigger] p@[k]) < rows.len(),
        is_chunk_order(rows@, doc_id, p@.map_values(|x: usize| x as int)),
{
    let mut keys: Vec<Ascending> = Vec::new();
    let mut a: usize = 0;
    while a < positions.len()
        invariant
            a <= positions.len(),
            keys.len() == a,
            forall|b: int| 0 <= b < positions.len() ==> (#[trigger] positions@[b]) < rows.len(),
            forall|b: int|
                0 <= b < a ==> (#[trigger] keys@[b]).key
                    == rows@[positions@[b] as int].chunk_index,
        decreases positions.len() - a,
    {
        keys.push(Ascending { key: rows[positions[a]].chunk_index as i64 });
        a = a + 1;
    }
    let order = order::sorted_positions(&keys);
    let mut p: Vec<usize> = Vec::new();
    let mut k: usize = 0;
    while k < order.len()
        invariant
            k <= order.len(),
            p.len() == k,
            order::sorts(keys@, order@),
            keys.len() == positions.len(),
            forall|j: int| 0 <= j < k ==> (#[trigger] p@[j]) == positions@[order@[j] as int],
        decreases order.len() - k,
    {
        p.push(positions[order[k]]);
        k = k + 1;
    }
    proof {
        assert(rows.len() <= usize::MAX);
        let q = p@.map_values(|x: usize| x as int);
        assert forall|k: int| 0 <= k < q.len() implies 0 <= #[trigger] q[k] < rows@.len()
            && rows@[q[k]].doc_id@ == doc_id by {
            assert(q[k] == positions@[order@[k] as int]);
        }
        assert forall|i: int|
            0 <= i < rows@.len() && (#[trigger] rows@[i]).doc_id@ == doc_id implies q.contains(
            i,
        ) by {
            assert(positions@.contains(i as usize));
            let a = choose|a: int| 0 <= a < positions@.len() && positions@[a] == i as usize;
            assert(order@.contains(a as usize));
            let k = choose|k: int| 0 <= k < order@.len() && order@[k] == a as usize;
            assert(q[k] == i);
        }
        assert forall|j: int, k: int|
            #![trigger q[j], q[k]]
            0 <= j < k < q.len() implies rows@[q[j]].chunk_index < rows@[q[k]].chunk_index || (
        rows@[q[j]].chunk_index == rows@[q[k]].chunk_index && q[j] < q[k]) by {
            let x = order@[j] as int;
            let y = order@[k] as int;
            assert(order::precedes(keys@, x, y));
            assert(keys@[x].key == rows@[positions@[x] as int].chunk_index);
            assert(keys@[y].key == rows@[positions@[y] as int].chunk_index);
            if x < y {
                assert(positions@[x] < positions@[y]);
            }
        }
    }
    p
}

fn join_texts(rows: &Vec<ContentRow>, p: &Vec<usize>) -> (text: String)
    requires
        p.len() > 0,
        forall|k: int| 0 <= k < p.len() ==> (#[trigger] p@[k]) < rows.len(),
    ensures
        text@ == joined(rows@, p@.map_values(|x: usize| x as int)),
{
    let ghost q = p@.map_values(|x: usize| x as int);
    let mut text = rows[p[0]].content.clone();
    let mut k: usize = 1;
    assert(q.take(1) =~= seq![q[0]]);
    while k < p.len()
        invariant
            1 <= k <= p.len(),
            forall|k: int| 0 <= k < p.len() ==> (#[trigger] p@[k]) < rows.len(),
            q == p@.map_values(|x: usize| x as int),
            text@ == joined(rows@, q.take(k as int)),
        decreases p.len() - k,
    {
        text.append(" ");
        text.append(rows[p[k]].content.as_str());
        proof {
            assert(q.take(k + 1).drop_last() =~= q.take(k as int));
            assert(q.take(k + 1).last() == p@[k as int]);
        }
        k = k + 1;
    }
    assert(q.take(k as int) =~= q);
    text
}

/// The texts of the documents of a scan: each document's chunks in order, separated by spaces.
pub fn doc_texts(rows: &Vec<ContentRow>) -> (texts: Vec<DocText>)
    ensures
        has_each_text(rows@, texts@),
{
    let mut ids: Vec<String> = Vec::new();
    let mut i: usize = 0;
    while i < rows.len()
        invariant
            i <= rows.len(),
            ids.len() == i,
            forall|k: int| 0 <= k < i ==> (#[trigger] ids@[k])@ == rows@[k].doc_id@,
        decreases rows.len() - i,
    {
        ids.push(rows[i].doc_id.clone());
        i = i + 1;
    }
    let ghost names = content_ids(rows@);
    assert(grouping::views(ids@) =~= names);
    let positions = grouping::positions_by_key(&ids);
    let mut texts: Vec<DocText> = Vec::new();
    let mut g: usize = 0;
    while g < positions.len()
        invariant
            g <= positions.len(),
            texts.len() == g,
            names == content_ids(rows@),
            grouping::lists_positions(names, positions@),
            forall|h: int|
                0 <= h < g ==> is_doc_text(rows@, #[trigger] texts@[h]) && texts@[h].doc_id@
                    == names[positions@[h]@[0] as int],
        decreases positions.len() - g,
    {
        let list = &positions[g];
        let first = list[0];
        let ghost doc_id = rows@[first as int].doc_id@;
        proof {
            assert(rows.len() <= usize::MAX);
            assert(names[first as int] == doc_id);
            assert forall|a: int| 0 <= a < list.len() implies (#[trigger] list@[a]) < rows.len()
                && rows@[list@[a] as int].doc_id@ == doc_id by {
                assert(positions@[g as int]@[a] < names.len());
                assert(names[list@[a] as int] == names[first as int]);
            }
            assert forall|i: int|
                0 <= i < rows.len() && (#[trigger] rows@[i]).doc_id@ == doc_id implies list@.contains(
                i as usize,
            ) by {
                assert(grouping::is_listed(positions@, i as usize));
                let h = choose|h: int|
                    0 <= h < positions@.len() && (#[trigger] positions@[h])@.contains(i as usize);
                let a = choose|a: int|
                    0 <= a < positions@[h]@.len() && positions@[h]@[a] == i as usize;
                assert(names[i] == names[positions@[h]@[0] as int]);
                assert(names[i] == names[positions@[g as int]@[0] as int]);
                assert(h == g);
            }
        }
        let p = chunk_order(rows, list, Ghost(doc_id));
        let text = join_texts(rows, &p);
        texts.push(DocText { doc_id: rows[first].doc_id.clone(), text });
        proof {
            let q = p@.map_values(|x: usize| x as int);
            assert(is_chunk_order(rows@, texts@[g as int].doc_id@, q));
            assert(texts@[g as int].text@ == joined(rows@, q));
            assert(is_doc_text(rows@, texts@[g as int]));
        }
        g = g + 1;
    }
    proof {
        assert forall|i: int| 0 <= i < rows@.len() implies has_text_of(
            texts@,
            (#[trigger] rows@[i]).doc_id@,
        ) by {
            assert(grouping::is_listed(positions@, i as usize));
            let h = choose|h: int|
                0 <= h < positions@.len() && (#[trigger] positions@[h])@.contains(i as usize);
            let a = choose|a: int| 0 <= a < positions@[h]@.len() && positions@[h]@[a] == i as usize;
            assert(names[i] == names[positions@[h]@[0] as int]);
            assert(texts@[h].doc_id@ == rows@[i].doc_id@);
        }
    }
    texts
}

/// Which stored vector of a row is read.
#[derive(Debug, Clone, Copy, PartialEq, Eq, Structural)]
pub enum EmbeddingColumn {
    /// The document-role vector.
    Document,
    /// The clustering-role vector.
    Clustering,
}

/// The name of an embedding column.
pub open spec fn column_name(column: EmbeddingColumn) -> Seq<char> {
    match column {
        EmbeddingColumn::Document => "embedding"@,
        EmbeddingColumn::Clustering => "clustering_embedding"@,
    }
}

/// The slots of an embedding column.
pub open spec fn cells(b: Batch, column: EmbeddingColumn) -> Option<Vec<EmbeddingCell>> {
    match column {
        EmbeddingColumn::Document => b.embedding,
        EmbeddingColumn::Clustering => b.clustering_embedding,
    }
}

/// The stored vectors of one chunk.
#[derive(Debug)]
pub struct VectorRow {
    pub doc_id: String,
    pub chunk_index: i32,
    pub embedding: Vec<u32>,
    pub clustering_embedding: Option<Vec<u32>>,
}

/// An optional vector and its view.
pub open spec fn optional_bits(v: Option<Vec<u32>>) -> Option<Seq<u32>> {
    match v {
        Some(x) => Some(x@),
        None => None,
    }
}

impl View for VectorRow {
    type V = (Seq<char>, i32, Seq<u32>, Option<Seq<u32>>);

    open spec fn view(&self) -> (Seq<char>, i32, Seq<u32>, Option<Seq<u32>>) {
        (
            self.doc_id@,
            self.chunk_index,
            self.embedding@,
            optional_bits(self.clustering_embedding),
        )
    }
}

/// The vector in row `i`, or the failure to extract it.
pub open spec fn stored_row(b: Batch, column: EmbeddingColumn, i: int) -> Result<
    Seq<(Seq<char>, i32, Seq<u32>, Option<Seq<u32>>)>,
    Seq<char>,
> {
    let id = b.doc_id->0@[i]@;
    match batch::cell_vector(cells(b, column)->0@[i], id) {
        Err(m) => Err(m),
        Ok(v) => Ok(seq![(id, b.chunk_index->0@[i], v, None::<Seq<u32>>)]),
    }
}

/// The stored vectors of one batch; an empty batch has none, whatever its columns.
pub open spec fn stored_batch(b: Batch, column: EmbeddingColumn) -> Result<
    Seq<(Seq<char>, i32, Seq<u32>, Option<Seq<u32>>)>,
    Seq<char>,
> {
    if b.rows == 0 {
        Ok(Seq::empty())
    } else if b.doc_id is None {
        Err("result embedding scan: missing `doc_id` column"@)
    } else if b.chunk_index is None {
        Err("result embedding scan: missing `chunk_index` column"@)
    } else if cells(b, column) is None {
        Err("result embedding scan: missing `"@ + column_name(column) + "` column"@)
    } else {
        gather(|i: int| stored_row(b, column, i), b.rows as int)
    }
}

/// The stored vectors of a scan, or its first failure.
pub open spec fn stored_scan(batches: Seq<Batch>, column: EmbeddingColumn) -> Result<
    Seq<(Seq<char>, i32, Seq<u32>, Option<Seq<u32>>)>,
    Seq<char>,
> {
    gather(|i: int| stored_batch(batches[i], column), batches.len() as int)
}

fn push_stored_rows(
    b: &Batch,
    column: EmbeddingColumn,
    ids: &Vec<String>,
    ci: &Vec<i32>,
    slots: &Vec<EmbeddingCell>,
    out: &mut Vec<VectorRow>,
) -> (r: Result<(), StoreError>)
    requires
        b.well_formed(),
        b.doc_id == Some(*ids),
        b.chunk_index == Some(*ci),
        cells(*b, column) == Some(*slots),
    ensures
        match r {
            Ok(_) => gather(|i: int| stored_row(*b, column, i), b.rows as int) is Ok
                && schema::models(final(out)@) == schema::models(old(out)@) + gather(
                |i: int| stored_row(*b, column, i),
                b.rows as int,
            )->Ok_0,
            Err(e) => gather(|i: int| stored_row(*b, column, i), b.rows as int) == Err::<
                Seq<(Seq<char>, i32, Seq<u32>, Option<Seq<u32>>)>,
                Seq<char>,
            >(e.message()),
        },
{
    let ghost part = |i: int| stored_row(*b, column, i);
    let ghost start = schema::models(out@);
    let mut k: usize = 0;
    assert(schema::models(out@) =~= start + gather(part, 0)->Ok_0);
    while k < b.rows
        invariant
            k <= b.rows,
            b.well_formed(),
            b.doc_id == Some(*ids),
            b.chunk_index == Some(*ci),
            cells(*b, column) == Some(*slots),
            part == (|i: int| stored_row(*b, column, i)),
            gather(part, k as int) is Ok,
            schema::models(out@) == start + gather(part, k as int)->Ok_0,
        decreases b.rows - k,
    {
        match batch::extract_embedding_row(slots, k, ids[k].as_str()) {
            Ok(v) => {
                let ghost before = out@;
                let ghost head = gather(part, k as int)->Ok_0;
                out.push(
                    VectorRow {
                        doc_id: ids[k].clone(),
                        chunk_index: ci[k],
                        embedding: v,
                        clustering_embedding: None,
                    },
                );
                proof {
                    let row = out@.last()@;
                    assert(part(k as int) == Ok::<
                        Seq<(Seq<char>, i32, Seq<u32>, Option<Seq<u32>>)>,
                        Seq<char>,
                    >(seq![row]));
                    assert(schema::models(out@) =~= schema::models(before).push(row));
                    assert(start + (head + seq![row]) =~= (start + head).push(row));
                }
            },
            Err(e) => {
                proof {
                    assert(part(k as int) == Err::<
                        Seq<(Seq<char>, i32, Seq<u32>, Option<Seq<u32>>)>,
                        Seq<char>,
                    >(e.message()));
                    lemma_gather_fail(part, k + 1, b.rows as int);
                }
                return Err(e);
            },
        }
        k = k + 1;
    }
    Ok(())
}

/// The stored vectors of a scan. A missing column or an unusable slot is an error.
pub fn stored_rows(batches: &Vec<Batch>, column: EmbeddingColumn) -> (r: Result<
    Vec<VectorRow>,
    StoreError,
>)
    requires
        batch::all_well_formed(batches@),
    ensures
        agrees(r, stored_scan(batches@, column)),
{
    let ghost part = |i: int| stored_batch(batches@[i], column);
    let mut out: Vec<VectorRow> = Vec::new();
    let mut i: usize = 0;
    assert(schema::models(out@) =~= gather(part, 0)->Ok_0);
    while i < batches.len()
        invariant
            i <= batches.len(),
            batch::all_well_formed(batches@),
            part == (|i: int| stored_batch(batches@[i], column)),
            gather(part, i as int) == Ok::<
                Seq<(Seq<char>, i32, Seq<u32>, Option<Seq<u32>>)>,
                Seq<char>,
            >(schema::models(out@)),
        decreases batches.len() - i,
    {
        let b = &batches[i];
        let ghost start = schema::models(out@);
        assert(part(i as int) == stored_batch(*b, column));
        if b.rows > 0 {
            let slots: &Option<Vec<EmbeddingCell>> = match column {
                EmbeddingColumn::Document => &b.embedding,
                EmbeddingColumn::Clustering => &b.clustering_embedding,
            };
            if let (Some(ids), Some(ci), Some(cs)) = (&b.doc_id, &b.chunk_index, slots) {
                match push_stored_rows(b, column, ids, ci, cs, &mut out) {
                    Ok(_) => {},
                    Err(e) => {
                        proof {
                            lemma_gather_fail(part, i + 1, batches@.len() as int);
                        }
                        return Err(e);
                    },
                }
            } else {
                proof {
                    lemma_gather_fail(part, i + 1, batches@.len() as int);
                }
                let e = if b.doc_id.is_none() {
                    StoreError::Internal(
                        "result embedding scan: missing `doc_id` column".to_owned(),
                    )
                } else if b.chunk_index.is_none() {
                    StoreError::Internal(
                        "result embedding scan: missing `chunk_index` column".to_owned(),
                    )
                } else {
                    match column {
                        EmbeddingColumn::Document => schema::internal(
                            "result embedding scan: missing `",
                            "embedding",
                            "` column",
                        ),
                        EmbeddingColumn::Clustering => schema::internal(
                            "result embedding scan: missing `",
                            "clustering_embedding",
                            "` column",
                        ),
                    }
                };
                return Err(e);
            }
        } else {
            assert(start + Seq::<(Seq<char>, i32, Seq<u32>, Option<Seq<u32>>)>::empty() =~= start);
        }
        i = i + 1;
    }
    Ok(out)
}

/// The vectors to stream from row `i`: none when the document vector is unusable; the clustering
/// vector only when it is asked for, present and usable.
pub open spec fn streamed_row(b: Batch, store_clustering: bool, i: int) -> Option<
    (Seq<char>, i32, Seq<u32>, Option<Seq<u32>>),
> {
    let id = b.doc_id->0@[i]@;
    match batch::cell_vector(b.embedding->0@[i], id) {
        Err(_) => None,
        Ok(v) => Some(
            (
                id,
                b.chunk_index->0@[i],
                v,
                if store_clustering && b.clustering_embedding is Some {
                    match batch::cell_vector(b.clustering_embedding->0@[i], id) {
                        Ok(c) => Some(c),
                        Err(_) => None,
                    }
                } else {
                    None
                },
            ),
        ),
    }
}

/// The vectors to stream from the first `n` rows.
pub open spec fn streamed_rows_of(b: Batch, store_clustering: bool, n: int) -> Seq<
    (Seq<char>, i32, Seq<u32>, Option<Seq<u32>>),
>
    decreases n,
{
    if n <= 0 {
        Seq::empty()
    } else {
        match streamed_row(b, store_clustering, n - 1) {
            Some(row) => streamed_rows_of(b, store_clustering, n - 1).push(row),
            None => streamed_rows_of(b, store_clustering, n - 1),
        }
    }
}

/// The vectors to stream from the first `n` batches; a batch without a needed column has none.
pub open spec fn streamed_scan(batches: Seq<Batch>, store_clustering: bool, n: int) -> Seq<
    (Seq<char>, i32, Seq<u32>, Option<Seq<u32>>),
>
    decreases n,
{
    if n <= 0 {
        Seq::empty()
    } else {
        let b = batches[n - 1];
        let head = streamed_scan(batches, store_clustering, n - 1);
        if b.doc_id is Some && b.chunk_index is Some && b.embedding is Some {
            head + streamed_rows_of(b, store_clustering, b.rows as int)
        } else {
            head
        }
    }
}

fn push_streamed_rows(
    b: &Batch,
    store_clustering: bool,
    ids: &Vec<String>,
    ci: &Vec<i32>,
    slots: &Vec<EmbeddingCell>,
    out: &mut Vec<VectorRow>,
)
    requires
        b.well_formed(),
        b.doc_id == Some(*ids),
        b.chunk_index == Some(*ci),
        b.embedding == Some(*slots),
    ensures
        schema::models(final(out)@) == schema::models(old(out)@) + streamed_rows_of(
            *b,
            store_clustering,
            b.rows as int,
        ),
{
    let ghost start = schema::models(out@);
    let mut k: usize = 0;
    assert(schema::models(out@) =~= start + streamed_rows_of(*b, store_clustering, 0));
    while k < b.rows
        invariant
            k <= b.rows,
            b.well_formed(),
            b.doc_id == Some(*ids),
            b.chunk_index == Some(*ci),
            b.embedding == Some(*slots),
            schema::models(out@) == start + streamed_rows_of(*b, store_clustering, k as int),
        decreases b.rows - k,
    {
        match batch::extract_embedding_row(slots, k, ids[k].as_str()) {
            Ok(v) => {
                let clustering: Option<Vec<u32>> = match &b.clustering_embedding {
                    Some(cs) => {
                        if store_clustering {
                            match batch::extract_embedding_row(cs, k, ids[k].as_str()) {
                                Ok(c) => Some(c),
                                Err(_) => None,
                            }
                        } else {
                            None
                        }
                    },
                    None => None,
                };
                let ghost before = out@;
                out.push(
                    VectorRow {
                        doc_id: ids[k].clone(),
                        chunk_index: ci[k],
                        embedding: v,
                        clustering_embedding: clustering,
                    },
                );
                proof {
                    let row = out@.last()@;
                    assert(streamed_row(*b, store_clustering, k as int) == Some(row));
                    assert(schema::models(out@) =~= schema::models(before).push(row));
                    assert((start + streamed_rows_of(*b, store_clustering, k as int)).push(row)
                        =~= start + streamed_rows_of(*b, store_clustering, k + 1));
                }
            },
            Err(_) => {},
        }
        k = k + 1;
    }
}

/// The vectors to stream from a scan, in scan order.
pub fn streamed_rows(batches: &Vec<Batch>, store_clustering: bool) -> (out: Vec<VectorRow>)
    requires
        batch::all_well_formed(batches@),
    ensures
        schema::models(out@) == streamed_scan(batches@, store_clustering, batches@.len() as int),
{
    let mut out: Vec<VectorRow> = Vec::new();
    let mut i: usize = 0;
    assert(schema::models(out@) =~= streamed_scan(batches@, store_clustering, 0));
    while i < batches.len()
        invariant
            i <= batches.len(),
            batch::all_well_formed(batches@),
            schema::models(out@) == streamed_scan(batches@, store_clustering, i as int),
        decreases batches.len() - i,
    {
        let b = &batches[i];
        if let (Some(ids), Some(ci), Some(cs)) = (&b.doc_id, &b.chunk_index, &b.embedding) {
            push_streamed_rows(b, store_clustering, ids, ci, cs, &mut out);
        }
        i = i + 1;
    }
    out
}

/// A document's representative vectors.
#[derive(Debug)]
pub struct EmbeddingRecord {
    pub doc_id: String,
    pub embedding: Vec<u32>,
    pub clustering_embedding: Option<Vec<u32>>,
}

/// The document ids of a list of vectors.
pub open spec fn vector_ids(rows: Seq<VectorRow>) -> Seq<Seq<char>> {
    rows.map_values(|r: VectorRow| r.doc_id@)
}

/// The chunk numbers of a list of vectors.
pub open spec fn vector_chunks(rows: Seq<VectorRow>) -> Seq<i64> {
    rows.map_values(|r: VectorRow| r.chunk_index as i64)
}

/// Row `i` represents its document: it has the lowest chunk number, and is the first with it.
pub open spec fn represents(rows: Seq<VectorRow>, i: int) -> bool {
    grouping::is_best(vector_ids(rows), vector_chunks(rows), i)
}

/// `out` holds the representative vectors of every document once.
pub open spec fn has_each_record(rows: Seq<VectorRow>, from: Seq<usize>, out: Seq<EmbeddingRecord>) -> bool {
    &&& grouping::lists_best(vector_ids(rows), vector_chunks(rows), from)
    &&& out.len() == from.len()
    &&& forall|k: int|
        0 <= k < out.len() ==> (
        (#[trigger] out[k]).doc_id@,
        rows[from[k] as int].chunk_index,
        out[k].embedding@,
        optional_bits(out[k].clustering_embedding),
    ) == rows[from[k] as int]@
}

/// The representative vectors of each document: those of its lowest-numbered chunk.
pub fn best_records(rows: &Vec<VectorRow>) -> (out: Vec<EmbeddingRecord>)
    ensures
        exists|from: Seq<usize>| has_each_record(rows@, from, out@),
{
    let mut ids: Vec<String> = Vec::new();
    let mut ranks: Vec<i64> = Vec::new();
    let mut i: usize = 0;
    while i < rows.len()
        invariant
            i <= rows.len(),
            ids.len() == i,
            ranks.len() == i,
            forall|k: int| 0 <= k < i ==> (#[trigger] ids@[k])@ == rows@[k].doc_id@,
            forall|k: int| 0 <= k < i ==> (#[trigger] ranks@[k]) == rows@[k].chunk_index,
        decreases rows.len() - i,
    {
        ids.push(rows[i].doc_id.clone());
        ranks.push(rows[i].chunk_index as i64);
        i = i + 1;
    }
    assert(grouping::views(ids@) =~= vector_ids(rows@));
    assert(ranks@ =~= vector_chunks(rows@));
    let from = grouping::best_by_key(&ids, &ranks);
    let mut out: Vec<EmbeddingRecord> = Vec::new();
    let mut k: usize = 0;
    while k < from.len()
        invariant
            k <= from.len(),
            out.len() == k,
            grouping::lists_best(vector_ids(rows@), vector_chunks(rows@), from@),
            forall|j: int|
                0 <= j < k ==> (
                (#[trigger] out@[j]).doc_id@,
                rows@[from@[j] as int].chunk_index,
                out@[j].embedding@,
                optional_bits(out@[j].clustering_embedding),
            ) == rows@[from@[j] as int]@,
        decreases from.len() - k,
    {
        assert(represents(rows@, from@[k as int] as int));
        let row = &rows[from[k]];
        out.push(
            EmbeddingRecord {
                doc_id: row.doc_id.clone(),
                embedding: batch::copy_bits(&row.embedding),
                clustering_embedding: match &row.clustering_embedding {
                    Some(c) => Some(batch::copy_bits(c)),
                    None => None,
                },
            },
        );
        k = k + 1;
    }
    proof {
        assert(has_each_record(rows@, from@, out@));
    }
    out
}

/// The first chunk of a document represents it.
pub proof fn first_chunk_represents_its_document(rows: Seq<VectorRow>, i: int)
    requires
        0 <= i < rows.len(),
        rows[i].chunk_index == 0,
        forall|j: int| 0 <= j < rows.len() ==> (#[trigger] rows[j]).chunk_index >= 0,
        forall|j: int|
            0 <= j < i && (#[trigger] rows[j]).doc_id@ == rows[i].doc_id@ ==> rows[j].chunk_index
                > 0,
    ensures
        represents(rows, i),
{
    assert forall|j: int|
        0 <= j < vector_ids(rows).len() && #[trigger] vector_ids(rows)[j] == vector_ids(
            rows,
        )[i] implies vector_chunks(rows)[i] <= vector_chunks(rows)[j] && (j < i
        ==> vector_chunks(rows)[i] < vector_chunks(rows)[j]) by {
        assert(rows[j].doc_id@ == rows[i].doc_id@);
    }
}

/// Whether a batch can be read for its document ids.
pub open spec fn readable_ids(b: Batch) -> Seq<Seq<char>> {
    match b.doc_id {
        Some(ids) => grouping::views(ids@),
        None => Seq::empty(),
    }
}

/// The document ids of the first `n` batches that have them.
pub open spec fn scanned_ids(batches: Seq<Batch>, n: int) -> Seq<Seq<char>>
    decreases n,
{
    if n <= 0 {
        Seq::empty()
    } else {
        scanned_ids(batches, n - 1) + readable_ids(batches[n - 1])
    }
}

/// The document ids of a scan, one per row.
pub fn all_ids(batches: &Vec<Batch>) -> (ids: Vec<String>)
    requires
        batch::all_well_formed(batches@),
    ensures
        grouping::views(ids@) == scanned_ids(batches@, batches@.len() as int),
{
    let mut out: Vec<String> = Vec::new();
    let mut i: usize = 0;
    assert(grouping::views(out@) =~= Seq::<Seq<char>>::empty());
    while i < batches.len()
        invariant
            i <= batches.len(),
            batch::all_well_formed(batches@),
            grouping::views(out@) == scanned_ids(batches@, i as int),
        decreases batches.len() - i,
    {
        let ghost start = grouping::views(out@);
        match &batches[i].doc_id {
            Some(ids) => {
                let mut k: usize = 0;
                assert(grouping::views(out@) =~= start + grouping::views(ids@).take(0));
                while k < ids.len()
                    invariant
                        k <= ids.len(),
                        grouping::views(out@) == start + grouping::views(ids@).take(k as int),
                    decreases ids.len() - k,
                {
                    let ghost before = out@;
                    out.push(ids[k].clone());
                    proof {
                        assert(grouping::views(out@) =~= grouping::views(before).push(
                            ids@[k as int]@,
                        ));
                        assert(start + grouping::views(ids@).take(k + 1) =~= (start
                            + grouping::views(ids@).take(k as int)).push(ids@[k as int]@));
                    }
                    k = k + 1;
                }
                assert(grouping::views(ids@).take(ids@.len() as int) =~= grouping::views(ids@));
            },
            None => {
                assert(start + Seq::<Seq<char>>::empty() =~= start);
            },
        }
        i = i + 1;
    }
    out
}

/// The number of different documents in a scan.
pub fn count_distinct_doc_ids(batches: &Vec<Batch>) -> (n: u64)
    requires
        batch::all_well_formed(batches@),
    ensures
        n == scanned_ids(batches@, batches@.len() as int).to_set().len(),
{
    let ids = all_ids(batches);
    grouping::group_keys(&ids).count as u64
}

/// A point of a population: its document, its vector, and its text where texts are asked for.
#[derive(Debug)]
pub struct IndexedPoint {
    pub doc_id: String,
    pub embedding: Vec<u32>,
    pub content: Option<String>,
}

impl View for IndexedPoint {
    type V = (Seq<char>, Seq<u32>, Option<Seq<char>>);

    open spec fn view(&self) -> (Seq<char>, Seq<u32>, Option<Seq<char>>) {
        (
            self.doc_id@,
            self.embedding@,
            match self.content {
                Some(c) => Some(c@),
                None => None,
            },
        )
    }
}

/// The messages for columns that a scan for points must yield.
pub struct PointMessages {
    pub no_doc_id: &'static str,
    pub no_embedding: &'static str,
    pub no_content: &'static str,
}

/// The point in row `i`, or the failure to extract its vector.
pub open spec fn point_row(b: Batch, snippet: bool, i: int) -> Result<
    Seq<(Seq<char>, Seq<u32>, Option<Seq<char>>)>,
    Seq<char>,
> {
    let id = b.doc_id->0@[i]@;
    match batch::cell_vector(b.embedding->0@[i], id) {
        Err(m) => Err(m),
        Ok(v) => Ok(
            seq![
                (
                    id,
                    v,
                    if snippet {
                        Some(b.content->0@[i]@)
                    } else {
                        None
                    },
                ),
            ],
        ),
    }
}

/// The points of one batch; an empty batch has none, whatever its columns.
pub open spec fn point_batch(b: Batch, snippet: bool, m: PointMessages) -> Result<
    Seq<(Seq<char>, Seq<u32>, Option<Seq<char>>)>,
    Seq<char>,
> {
    if b.rows == 0 {
        Ok(Seq::empty())
    } else if b.doc_id is None {
        Err(m.no_doc_id@)
    } else if b.embedding is None {
        Err(m.no_embedding@)
    } else if snippet && b.content is None {
        Err(m.no_content@)
    } else {
        gather(|i: int| point_row(b, snippet, i), b.rows as int)
    }
}

/// The points of a scan, or its first failure.
pub open spec fn point_scan(batches: Seq<Batch>, snippet: bool, m: PointMessages) -> Result<
    Seq<(Seq<char>, Seq<u32>, Option<Seq<char>>)>,
    Seq<char>,
> {
    gather(|i: int| point_batch(batches[i], snippet, m), batches.len() as int)
}

fn push_points(
    b: &Batch,
    snippet: bool,
    ids: &Vec<String>,
    slots: &Vec<EmbeddingCell>,
    out: &mut Vec<IndexedPoint>,
) -> (r: Result<(), StoreError>)
    requires
        b.well_formed(),
        b.doc_id == Some(*ids),
        b.embedding == Some(*slots),
        snippet ==> b.content is Some,
    ensures
        match r {
            Ok(_) => gather(|i: int| point_row(*b, snippet, i), b.rows as int) is Ok
                && schema::models(final(out)@) == schema::models(old(out)@) + gather(
                |i: int| point_row(*b, snippet, i),
                b.rows as int,
            )->Ok_0,
            Err(e) => gather(|i: int| point_row(*b, snippet, i), b.rows as int) == Err::<
                Seq<(Seq<char>, Seq<u32>, Option<Seq<char>>)>,
                Seq<char>,
            >(e.message()),
        },
{
    let ghost part = |i: int| point_row(*b, snippet, i);
    let ghost start = schema::models(out@);
    let mut k: usize = 0;
    assert(schema::models(out@) =~= start + gather(part, 0)->Ok_0);
    while k < b.rows
        invariant
            k <= b.rows,
            b.well_formed(),
            b.doc_id == Some(*ids),
            b.embedding == Some(*slots),
            snippet ==> b.content is Some,
            part == (|i: int| point_row(*b, snippet, i)),
            gather(part, k as int) is Ok,
            schema::models(out@) == start + gather(part, k as int)->Ok_0,
        decreases b.rows - k,
    {
        match batch::extract_embedding_row(slots, k, ids[k].as_str()) {
            Ok(v) => {
                let ghost before = out@;
                let ghost head = gather(part, k as int)->Ok_0;
                let content: Option<String> = if snippet {
                    match &b.content {
                        Some(c) => Some(c[k].clone()),
                        None => None,
                    }
                } else {
                    None
                };
                out.push(IndexedPoint { doc_id: ids[k].clone(), embedding: v, content });
                proof {
                    let row = out@.last()@;
                    assert(part(k as int) == Ok::<
                        Seq<(Seq<char>, Seq<u32>, Option<Seq<char>>)>,
                        Seq<char>,
                    >(seq![row]));
                    assert(schema::models(out@) =~= schema::models(before).push(row));
                    assert(start + (head + seq![row]) =~= (start + head).push(row));
                }
            },
            Err(e) => {
                proof {
                    assert(part(k as int) == Err::<
                        Seq<(Seq<char>, Seq<u32>, Option<Seq<char>>)>,
                        Seq<char>,
                    >(e.message()));
                    lemma_gather_fail(part, k + 1, b.rows as int);
                }
                return Err(e);
            },
        }
        k = k + 1;
    }
    Ok(())
}

/// The points of a scan. A missing column or an unusable vector is an error.
pub fn batches_to_points(batches: &Vec<Batch>, snippet: bool, m: &PointMessages) -> (r: Result<
    Vec<IndexedPoint>,
    StoreError,
>)
    requires
        batch::all_well_formed(batches@),
    ensures
        agrees(r, point_scan(batches@, snippet, *m)),
{
    let ghost part = |i: int| point_batch(batches@[i], snippet, *m);
    let mut out: Vec<IndexedPoint> = Vec::new();
    let mut i: usize = 0;
    assert(schema::models(out@) =~= gather(part, 0)->Ok_0);
    while i < batches.len()
        invariant
            i <= batches.len(),
            batch::all_well_formed(batches@),
            part == (|i: int| point_batch(batches@[i], snippet, *m)),
            gather(part, i as int) == Ok::<
                Seq<(Seq<char>, Seq<u32>, Option<Seq<char>>)>,
                Seq<char>,
            >(schema::models(out@)),
        decreases batches.len() - i,
    {
        let b = &batches[i];
        let ghost start = schema::models(out@);
        assert(part(i as int) == point_batch(*b, snippet, *m));
        if b.rows > 0 {
            let failure: &'static str = if b.doc_id.is_none() {
                m.no_doc_id
            } else if b.embedding.is_none() {
                m.no_embedding
            } else {
                m.no_content
            };
            let texts_missing = snippet && b.content.is_none();
            if let (Some(ids), Some(cs), false) = (&b.doc_id, &b.embedding, texts_missing) {
                match push_points(b, snippet, ids, cs, &mut out) {
                    Ok(_) => {},
                    Err(e) => {
                        proof {
                            lemma_gather_fail(part, i + 1, batches@.len() as int);
                        }
                        return Err(e);
                    },
                }
            } else {
                proof {
                    lemma_gather_fail(part, i + 1, batches@.len() as int);
                }
                return Err(StoreError::Internal(failure.to_owned()));
            }
        } else {
            assert(start + Seq::<(Seq<char>, Seq<u32>, Option<Seq<char>>)>::empty() =~= start);
        }
        i = i + 1;
    }
    Ok(out)
}

/// The full row `i`, or which of its vectors is unusable.
pub open spec fn full_row(b: Batch, i: int) -> Result<Seq<RowModel>, Seq<char>> {
    match b.embedding->0@[i].values {
        None => Err("embedding not Float32"@),
        Some(e) => match b.clustering_embedding->0@[i].values {
            None => Err("clustering not Float32"@),
            Some(c) => Ok(
                seq![
                    RowModel {
                        doc_id: b.doc_id->0@[i]@,
                        doc_type: b.doc_type->0@[i]@,
                        chunk_index: b.chunk_index->0@[i],
                        chunk_count: b.chunk_count->0@[i],
                        chunk_token_start: b.chunk_token_start->0@[i],
                        doc_token_len: b.doc_token_len->0@[i],
                        embedding: e@,
                        clustering_embedding: c@,
                        content: b.content->0@[i]@,
                    },
                ],
            ),
        },
    }
}

/// The first column that a full row lacks.
pub open spec fn missing_column(b: Batch) -> Option<Seq<char>> {
    if b.doc_id is None {
        Some("doc_id column missing"@)
    } else if b.doc_type is None {
        Some("doc_type column missing"@)
    } else if b.chunk_index is None {
        Some("chunk_index column missing"@)
    } else if b.chunk_count is None {
        Some("chunk_count column missing"@)
    } else if b.chunk_token_start is None {
        Some("chunk_token_start column missing"@)
    } else if b.doc_token_len is None {
        Some("doc_token_len column missing"@)
    } else if b.embedding is None {
        Some("embedding column missing"@)
    } else if b.clustering_embedding is None {
        Some("clustering_embedding column missing"@)
    } else if b.content is None {
        Some("content column missing"@)
    } else {
        None
    }
}

/// The full rows of one batch; an empty batch has none, whatever its columns.
pub open spec fn full_batch(b: Batch) -> Result<Seq<RowModel>, Seq<char>> {
    if b.rows == 0 {
        Ok(Seq::empty())
    } else {
        match missing_column(b) {
            Some(m) => Err(m),
            None => gather(|i: int| full_row(b, i), b.rows as int),
        }
    }
}

/// The full rows of a scan in scan order, or its first failure.
pub open spec fn full_scan(batches: Seq<Batch>) -> Result<Seq<RowModel>, Seq<char>> {
    gather(|i: int| full_batch(batches[i]), batches.len() as int)
}

fn missing(b: &Batch) -> (r: Option<&'static str>)
    ensures
        match r {
            Some(m) => missing_column(*b) == Some(m@),
            None => missing_column(*b) is None,
        },
{
    if b.doc_id.is_none() {
        Some("doc_id column missing")
    } else if b.doc_type.is_none() {
        Some("doc_type column missing")
    } else if b.chunk_index.is_none() {
        Some("chunk_index column missing")
    } else if b.chunk_count.is_none() {
        Some("chunk_count column missing")
    } else if b.chunk_token_start.is_none() {
        Some("chunk_token_start column missing")
    } else if b.doc_token_len.is_none() {
        Some("doc_token_len column missing")
    } else if b.embedding.is_none() {
        Some("embedding column missing")
    } else if b.clustering_embedding.is_none() {
        Some("clustering_embedding column missing")
    } else if b.content.is_none() {
        Some("content column missing")
    } else {
        None
    }
}

fn push_full_rows(b: &Batch, out: &mut Vec<ChunkRow>) -> (r: Result<(), StoreError>)
    requires
        b.well_formed(),
        missing_column(*b) is None,
    ensures
        match r {
            Ok(_) => gather(|i: int| full_row(*b, i), b.rows as int) is Ok && schema::models(
                final(out)@,
            ) == schema::models(old(out)@) + gather(|i: int| full_row(*b, i), b.rows as int)->Ok_0,
            Err(e) => gather(|i: int| full_row(*b, i), b.rows as int) == Err::<
                Seq<RowModel>,
                Seq<char>,
            >(e.message()),
        },
{
    let ghost part = |i: int| full_row(*b, i);
    let ghost start = schema::models(out@);
    let mut k: usize = 0;
    assert(schema::models(out@) =~= start + gather(part, 0)->Ok_0);
    if let (Some(ids), Some(types), Some(ci), Some(cc), Some(cts), Some(dtl), Some(cnt)) = (
        &b.doc_id,
        &b.doc_type,
        &b.chunk_index,
        &b.chunk_count,
        &b.chunk_token_start,
        &b.doc_token_len,
        &b.content,
    ) {
        if let (Some(es), Some(cs)) = (&b.embedding, &b.clustering_embedding) {
            while k < b.rows
                invariant
                    k <= b.rows,
                    b.well_formed(),
                    b.doc_id == Some(*ids),
                    b.doc_type == Some(*types),
                    b.chunk_index == Some(*ci),
                    b.chunk_count == Some(*cc),
                    b.chunk_token_start == Some(*cts),
                    b.doc_token_len == Some(*dtl),
                    b.content == Some(*cnt),
                    b.embedding == Some(*es),
                    b.clustering_embedding == Some(*cs),
                    part == (|i: int| full_row(*b, i)),
                    gather(part, k as int) is Ok,
                    schema::models(out@) == start + gather(part, k as int)->Ok_0,
                decreases b.rows - k,
            {
                assert(part(k as int) == full_row(*b, k as int));
                let embedding: Vec<u32> = match &es[k].values {
                    Some(v) => batch::copy_bits(v),
                    None => {
                        proof {
                            lemma_gather_fail(part, k + 1, b.rows as int);
                        }
                        return Err(StoreError::Internal("embedding not Float32".to_owned()));
                    },
                };
                let clustering_embedding: Vec<u32> = match &cs[k].values {
                    Some(v) => batch::copy_bits(v),
                    None => {
                        proof {
                            lemma_gather_fail(part, k + 1, b.rows as int);
                        }
                        return Err(StoreError::Internal("clustering not Float32".to_owned()));
                    },
                };
                let ghost before = out@;
                let ghost head = gather(part, k as int)->Ok_0;
                out.push(
                    ChunkRow {
                        doc_id: ids[k].clone(),
                        doc_type: types[k].clone(),
                        chunk_index: ci[k],
                        chunk_count: cc[k],
                        chunk_token_start: cts[k],
                        doc_token_len: dtl[k],
                        embedding,
                        clustering_embedding,
                        content: cnt[k].clone(),
                    },
                );
                proof {
                    let row = out@.last()@;
                    assert(part(k as int) == Ok::<Seq<RowModel>, Seq<char>>(seq![row]));
                    assert(schema::models(out@) =~= schema::models(before).push(row));
                    assert(start + (head + seq![row]) =~= (start + head).push(row));
                }
                k = k + 1;
            }
        }
    }
    Ok(())
}

/// Sort key of a full row: by document id, then by chunk.
pub struct RowKey {
    pub doc_id: String,
    pub chunk_index: i32,
}

impl Ranked for RowKey {
    open spec fn before(a: Self, b: Self) -> bool {
        text::text_le(a.doc_id@, b.doc_id@) && (a.doc_id@ == b.doc_id@ ==> a.chunk_index
            <= b.chunk_index)
    }

    proof fn lemma_order(a: Self, b: Self, c: Self) {
        text::text_le_is_a_linear_order(a.doc_id@, b.doc_id@, c.doc_id@);
        text::text_le_is_a_linear_order(b.doc_id@, c.doc_id@, a.doc_id@);
    }

    fn is_before(&self, other: &Self) -> (r: bool) {
        if self.doc_id == other.doc_id {
            proof {
                text::text_le_is_a_linear_order(self.doc_id@, other.doc_id@, other.doc_id@);
            }
            self.chunk_index <= other.chunk_index
        } else {
            text::str_le(self.doc_id.as_str(), other.doc_id.as_str())
        }
    }
}

/// Row order: by document id, then by chunk, then as scanned.
pub open spec fn row_precedes(rows: Seq<RowModel>, x: int, y: int) -> bool {
    let a = rows[x];
    let b = rows[y];
    text::text_le(a.doc_id, b.doc_id) && (a.doc_id == b.doc_id ==> a.chunk_index < b.chunk_index
        || (a.chunk_index == b.chunk_index && x < y))
}

/// `sorted` holds the scanned rows in row order; `p` holds the scan position of each.
pub open spec fn sorts_rows(
    scanned: Seq<RowModel>,
    p: Seq<int>,
    sorted: Seq<RowModel>,
) -> bool {
    &&& p.len() == scanned.len()
    &&& sorted.len() == scanned.len()
    &&& forall|k: int|
        0 <= k < p.len() ==> 0 <= #[trigger] p[k] < scanned.len() && sorted[k] == scanned[p[k]]
    &&& forall|x: int| 0 <= x < scanned.len() ==> #[trigger] p.contains(x)
    &&& forall|j: int, k: int|
        #![trigger p[j], p[k]]
        0 <= j < k < p.len() ==> row_precedes(scanned, p[j], p[k])
}

/// `sorted` holds the rows of a scan that does not fail, in row order.
pub open spec fn holds_sorted_scan(batches: Seq<Batch>, sorted: Seq<RowModel>) -> bool {
    match full_scan(batches) {
        Ok(scanned) => exists|p: Seq<int>| sorts_rows(scanned, p, sorted),
        Err(_) => false,
    }
}

fn copy_row(row: &ChunkRow) -> (r: ChunkRow)
    ensures
        r@ == row@,
{
    ChunkRow {
        doc_id: row.doc_id.clone(),
        doc_type: row.doc_type.clone(),
        chunk_index: row.chunk_index,
        chunk_count: row.chunk_count,
        chunk_token_start: row.chunk_token_start,
        doc_token_len: row.doc_token_len,
        embedding: batch::copy_bits(&row.embedding),
        clustering_embedding: batch::copy_bits(&row.clustering_embedding),
        content: row.content.clone(),
    }
}

/// The full rows of a scan, by document id and chunk. A missing column or an unusable vector is an
/// error.
pub fn full_rows(batches: &Vec<Batch>) -> (r: Result<Vec<ChunkRow>, StoreError>)
    requires
        batch::all_well_formed(batches@),
    ensures
        match r {
            Ok(rows) => holds_sorted_scan(batches@, schema::models(rows@)),
            Err(e) => full_scan(batches@) == Err::<Seq<RowModel>, Seq<char>>(e.message()),
        },
{
    let ghost part = |i: int| full_batch(batches@[i]);
    let mut rows: Vec<ChunkRow> = Vec::new();
    let mut i: usize = 0;
    assert(schema::models(rows@) =~= gather(part, 0)->Ok_0);
    while i < batches.len()
        invariant
            i <= batches.len(),
            batch::all_well_formed(batches@),
            part == (|i: int| full_batch(batches@[i])),
            gather(part, i as int) == Ok::<Seq<RowModel>, Seq<char>>(schema::models(rows@)),
        decreases batches.len() - i,
    {
        let b = &batches[i];
        let ghost start = schema::models(rows@);
        assert(part(i as int) == full_batch(*b));
        if b.rows > 0 {
            match missing(b) {
                Some(m) => {
                    proof {
                        lemma_gather_fail(part, i + 1, batches@.len() as int);
                    }
                    return Err(StoreError::Internal(m.to_owned()));
                },
                None => match push_full_rows(b, &mut rows) {
                    Ok(_) => {},
                    Err(e) => {
                        proof {
                            lemma_gather_fail(part, i + 1, batches@.len() as int);
                        }
                        return Err(e);
                    },
                },
            }
        } else {
            assert(start + Seq::<RowModel>::empty() =~= start);
        }
        i = i + 1;
    }
    let mut keys: Vec<RowKey> = Vec::new();
    let mut i: usize = 0;
    while i < rows.len()
        invariant
            i <= rows.len(),
            keys.len() == i,
            forall|k: int|
                0 <= k < i ==> (#[trigger] keys@[k]).doc_id@ == rows@[k].doc_id@
                    && keys@[k].chunk_index == rows@[k].chunk_index,
        decreases rows.len() - i,
    {
        keys.push(RowKey { doc_id: rows[i].doc_id.clone(), chunk_index: rows[i].chunk_index });
        i = i + 1;
    }
    let order = order::sorted_positions(&keys);
    let mut sorted: Vec<ChunkRow> = Vec::new();
    let mut k: usize = 0;
    while k < order.len()
        invariant
            k <= order.len(),
            sorted.len() == k,
            order::sorts(keys@, order@),
            keys.len() == rows.len(),
            forall|j: int| 0 <= j < k ==> (#[trigger] sorted@[j])@ == rows@[order@[j] as int]@,
        decreases order.len() - k,
    {
        sorted.push(copy_row(&rows[order[k]]));
        k = k + 1;
    }
    proof {
        let scanned = schema::models(rows@);
        let p = Seq::new(order@.len(), |k: int| order@[k] as int);
        assert(rows.len() <= usize::MAX);
        assert forall|k: int| 0 <= k < p.len() implies 0 <= #[trigger] p[k] < scanned.len()
            && schema::models(sorted@)[k] == scanned[p[k]] by {
            assert(order@[k] < keys@.len());
            assert(sorted@[k]@ == rows@[order@[k] as int]@);
        }
        assert forall|x: int| 0 <= x < scanned.len() implies #[trigger] p.contains(x) by {
            assert(order@.contains(x as usize));
            let k = choose|k: int| 0 <= k < order@.len() && order@[k] == x as usize;
            assert(p[k] == x);
        }
        assert forall|j: int, k: int|
            #![trigger p[j], p[k]]
            0 <= j < k < p.len() implies row_precedes(scanned, p[j], p[k]) by {
            let x = order@[j] as int;
            let y = order@[k] as int;
            assert(order::precedes(keys@, x, y));
            assert(scanned[x].doc_id == keys@[x].doc_id@);
            assert(scanned[y].doc_id == keys@[y].doc_id@);
            text::text_le_is_a_linear_order(
                keys@[y].doc_id@,
                keys@[x].doc_id@,
                keys@[x].doc_id@,
            );
        }
        assert(full_scan(batches@) == Ok::<Seq<RowModel>, Seq<char>>(scanned));
        assert(sorts_rows(full_scan(batches@)->Ok_0, p, schema::models(sorted@)));
        assert(holds_sorted_scan(batches@, schema::models(sorted@)));
    }
    Ok(sorted)
}

proof fn lemma_gather_each<T>(part: spec_fn(int) -> Result<Seq<T>, Seq<char>>, n: int)
    requires
        0 <= n,
        forall|i: int| 0 <= i < n && (#[trigger] part(i)) is Ok ==> part(i)->Ok_0.len() == 1,
    ensures
        gather(part, n) is Ok <==> forall|i: int| 0 <= i < n ==> (#[trigger] part(i)) is Ok,
        gather(part, n) matches Ok(all) ==> all.len() == n && forall|i: int|
            0 <= i < n ==> part(i) is Ok && #[trigger] all[i] == part(i)->Ok_0[0],
    decreases n,
{
    if n > 0 {
        lemma_gather_each(part, n - 1);
        assert(part(n - 1) is Ok ==> part(n - 1)->Ok_0.len() == 1);
        if gather(part, n) is Ok {
            assert(gather(part, n - 1) is Ok && part(n - 1) is Ok);
        }
    }
}

proof fn lemma_gather_prefix<T>(
    a: spec_fn(int) -> Result<Seq<T>, Seq<char>>,
    b: spec_fn(int) -> Result<Seq<T>, Seq<char>>,
    n: int,
)
    requires
        forall|i: int| 0 <= i < n ==> #[trigger] a(i) == b(i),
    ensures
        gather(a, n) == gather(b, n),
    decreases n,
{
    if n > 0 {
        lemma_gather_prefix(a, b, n - 1);
        assert(a(n - 1) == b(n - 1));
    }
}

/// What is gathered from one part more: both have to succeed, and the new part comes last.
pub proof fn gathering_adds_up<T>(
    few: spec_fn(int) -> Result<Seq<T>, Seq<char>>,
    one: spec_fn(int) -> Result<Seq<T>, Seq<char>>,
    many: spec_fn(int) -> Result<Seq<T>, Seq<char>>,
    n: int,
)
    requires
        0 <= n,
        forall|i: int| 0 <= i < n ==> #[trigger] few(i) == many(i),
        many(n) == one(0),
    ensures
        gather(many, n + 1) is Ok <==> gather(few, n) is Ok && gather(one, 1) is Ok,
        gather(few, n) is Err ==> gather(many, n + 1) == gather(few, n),
        gather(few, n) is Ok && gather(one, 1) is Err ==> gather(many, n + 1) == gather(one, 1),
        gather(many, n + 1) is Ok ==> gather(many, n + 1)->Ok_0 == gather(few, n)->Ok_0 + gather(
            one,
            1,
        )->Ok_0,
{
    lemma_gather_prefix(few, many, n);
    reveal_with_fuel(gather, 2);
    if one(0) is Ok {
        assert(gather(one, 1)->Ok_0 =~= one(0)->Ok_0);
    }
}

/// The full rows, points, stored vectors and chunk texts of a scan are those of its batches, one
/// batch behind the other, and a failure of one is a failure of the scan.
pub proof fn batches_are_scanned_in_turn(
    batches: Seq<Batch>,
    b: Batch,
    column: EmbeddingColumn,
    snippet: bool,
    m: PointMessages,
    t: ContentMessages,
)
    ensures
        full_scan(batches.push(b)) is Ok <==> full_scan(batches) is Ok && full_scan(
            seq![b],
        ) is Ok,
        full_scan(batches.push(b)) is Ok ==> full_scan(batches.push(b))->Ok_0 == full_scan(
            batches,
        )->Ok_0 + full_scan(seq![b])->Ok_0,
        point_scan(batches.push(b), snippet, m) is Ok <==> point_scan(batches, snippet, m) is Ok
            && point_scan(seq![b], snippet, m) is Ok,
        point_scan(batches.push(b), snippet, m) is Ok ==> point_scan(
            batches.push(b),
            snippet,
            m,
        )->Ok_0 == point_scan(batches, snippet, m)->Ok_0 + point_scan(seq![b], snippet, m)->Ok_0,
        stored_scan(batches.push(b), column) is Ok <==> stored_scan(batches, column) is Ok
            && stored_scan(seq![b], column) is Ok,
        stored_scan(batches.push(b), column) is Ok ==> stored_scan(batches.push(b), column)->Ok_0
            == stored_scan(batches, column)->Ok_0 + stored_scan(seq![b], column)->Ok_0,
        content_scan(batches.push(b), t) is Ok <==> content_scan(batches, t) is Ok
            && content_scan(seq![b], t) is Ok,
        content_scan(batches.push(b), t) is Ok ==> content_scan(batches.push(b), t)->Ok_0
            == content_scan(batches, t)->Ok_0 + content_scan(seq![b], t)->Ok_0,
{
    let n = batches.len() as int;
    let many = batches.push(b);
    let one = seq![b];
    gathering_adds_up(
        |i: int| full_batch(batches[i]),
        |i: int| full_batch(one[i]),
        |i: int| full_batch(many[i]),
        n,
    );
    gathering_adds_up(
        |i: int| point_batch(batches[i], snippet, m),
        |i: int| point_batch(one[i], snippet, m),
        |i: int| point_batch(many[i], snippet, m),
        n,
    );
    gathering_adds_up(
        |i: int| stored_batch(batches[i], column),
        |i: int| stored_batch(one[i], column),
        |i: int| stored_batch(many[i], column),
        n,
    );
    gathering_adds_up(
        |i: int| content_batch(batches[i], t),
        |i: int| content_batch(one[i], t),
        |i: int| content_batch(many[i], t),
        n,
    );
}

proof fn lemma_one_part<T>(part: spec_fn(int) -> Result<Seq<T>, Seq<char>>)
    ensures
        gather(part, 1) == part(0),
{
    reveal_with_fuel(gather, 2);
    if part(0) is Ok {
        assert(Seq::<T>::empty() + part(0)->Ok_0 =~= part(0)->Ok_0);
    }
}

/// The vector cells of a column hold a flat run of vectors of one dimension, row by row.
pub open spec fn holds_vectors(
    column: Option<Vec<EmbeddingCell>>,
    flat: Seq<u32>,
    rows: int,
    dim: int,
) -> bool {
    &&& column is Some
    &&& column->0@.len() == rows
    &&& forall|i: int|
        0 <= i < rows ==> !(#[trigger] column->0@[i]).null && column->0@[i].values is Some
            && column->0@[i].values->0@ == flat.subrange(i * dim, (i + 1) * dim)
}

/// A batch holds written columns.
pub open spec fn holds_columns(b: Batch, c: ChunkColumns, rows: int, dim: int) -> bool {
    &&& b.rows == rows
    &&& b.doc_id == Some(c.doc_ids)
    &&& b.doc_type == Some(c.doc_types)
    &&& b.chunk_index == Some(c.chunk_indexes)
    &&& b.chunk_count == Some(c.chunk_counts)
    &&& b.chunk_token_start == Some(c.chunk_token_starts)
    &&& b.doc_token_len == Some(c.doc_token_lens)
    &&& b.content == Some(c.contents)
    &&& holds_vectors(b.embedding, c.embeddings@, rows, dim)
    &&& holds_vectors(b.clustering_embedding, c.clustering_embeddings@, rows, dim)
}

/// Reading back what was written is the identity: rows that were put into columns and are scanned
/// from a batch with those columns come back, every field of each as it was written, sorted by
/// document and chunk. `p` holds the place of each in what was written.
pub proof fn written_rows_read_back(
    rows: Seq<ChunkRow>,
    c: ChunkColumns,
    b: Batch,
    dim: int,
    sorted: Seq<ChunkRow>,
) -> (p: Seq<int>)
    requires
        crate::write::holds_rows(c, rows, rows.len() as int),
        dim >= 0,
        forall|k: int|
            0 <= k < rows.len() ==> (#[trigger] rows[k]).embedding@.len() == dim
                && rows[k].clustering_embedding@.len() == dim,
        holds_columns(b, c, rows.len() as int, dim),
    ensures
        full_scan(seq![b]) is Ok,
        holds_sorted_scan(seq![b], schema::models(sorted)) ==> {
            &&& sorted.len() == rows.len()
            &&& p.len() == rows.len()
            &&& forall|k: int|
                0 <= k < p.len() ==> 0 <= #[trigger] p[k] < rows.len() && schema::same_row(
                    sorted[k],
                    rows[p[k]],
                )
            &&& forall|x: int| 0 <= x < rows.len() ==> #[trigger] p.contains(x)
            &&& forall|j: int, k: int|
                #![trigger sorted[j], sorted[k]]
                0 <= j < k < sorted.len() ==> text::text_le(sorted[j].doc_id@, sorted[k].doc_id@)
                    && (sorted[j].doc_id@ == sorted[k].doc_id@ ==> sorted[j].chunk_index
                    <= sorted[k].chunk_index)
        },
{
    let n = rows.len() as int;
    let one = seq![b];
    let whole = |i: int| full_batch(one[i]);
    let part = |i: int| full_row(b, i);
    lemma_one_part(whole);
    assert(full_scan(one) == full_batch(b));
    assert forall|i: int| 0 <= i < n implies (#[trigger] part(i)) is Ok && part(i)->Ok_0.len() == 1
        && part(i)->Ok_0[0] == rows[i]@ by {
        crate::write::embeddings_stand_in_place(rows, dim, n, i);
        assert(b.embedding->0@[i].values is Some);
        assert(b.clustering_embedding->0@[i].values is Some);
        assert(c.doc_ids@[i]@ == rows[i].doc_id@);
        assert(c.doc_types@[i]@ == rows[i].doc_type@);
        assert(c.chunk_indexes@[i] == rows[i].chunk_index);
        assert(c.chunk_counts@[i] == rows[i].chunk_count);
        assert(c.chunk_token_starts@[i] == rows[i].chunk_token_start);
        assert(c.doc_token_lens@[i] == rows[i].doc_token_len);
        assert(c.contents@[i]@ == rows[i].content@);
    }
    lemma_gather_each(part, n);
    let scanned = full_scan(one)->Ok_0;
    if n == 0 {
        assert(scanned =~= schema::models(rows));
    } else {
        assert(full_batch(b) == gather(part, n));
        assert forall|i: int| 0 <= i < n implies #[trigger] scanned[i] == rows[i]@ by {
            assert(part(i)->Ok_0[0] == rows[i]@);
        }
        assert(scanned =~= schema::models(rows));
    }
    let m = schema::models(sorted);
    let p = choose|p: Seq<int>| sorts_rows(scanned, p, m);
    if holds_sorted_scan(one, m) {
        assert(sorts_rows(scanned, p, m));
        assert(m.len() == sorted.len());
        assert forall|k: int| 0 <= k < p.len() implies 0 <= #[trigger] p[k] < rows.len()
            && schema::same_row(sorted[k], rows[p[k]]) by {
            assert(m[k] == sorted[k]@);
            assert(m[k] == scanned[p[k]]);
        }
        assert forall|j: int, k: int|
            #![trigger sorted[j], sorted[k]]
            0 <= j < k < sorted.len() implies text::text_le(sorted[j].doc_id@, sorted[k].doc_id@)
            && (sorted[j].doc_id@ == sorted[k].doc_id@ ==> sorted[j].chunk_index
            <= sorted[k].chunk_index) by {
            assert(m[j] == sorted[j]@ && m[k] == sorted[k]@);
            assert(row_precedes(scanned, p[j], p[k]));
        }
    }
    p
}

/// Each full row of a batch stands for its own row, and none is lost: every row of the batch comes
/// out with the values of its columns. `p` holds the batch row of each.
pub proof fn full_rows_stand_for_their_rows(b: Batch, sorted: Seq<ChunkRow>) -> (p: Seq<int>)
    requires
        b.well_formed(),
        holds_sorted_scan(seq![b], schema::models(sorted)),
    ensures
        sorted.len() == b.rows,
        p.len() == b.rows,
        forall|x: int| 0 <= x < b.rows ==> #[trigger] p.contains(x),
        forall|k: int|
            0 <= k < sorted.len() ==> {
                &&& 0 <= #[trigger] p[k] < b.rows
                &&& sorted[k].doc_id@ == b.doc_id->0@[p[k]]@
                &&& sorted[k].doc_type@ == b.doc_type->0@[p[k]]@
                &&& sorted[k].chunk_index == b.chunk_index->0@[p[k]]
                &&& sorted[k].chunk_count == b.chunk_count->0@[p[k]]
                &&& sorted[k].chunk_token_start == b.chunk_token_start->0@[p[k]]
                &&& sorted[k].doc_token_len == b.doc_token_len->0@[p[k]]
                &&& sorted[k].embedding@ == b.embedding->0@[p[k]].values->0@
                &&& sorted[k].clustering_embedding@
                    == b.clustering_embedding->0@[p[k]].values->0@
                &&& sorted[k].content@ == b.content->0@[p[k]]@
            },
{
    let one = seq![b];
    let whole = |i: int| full_batch(one[i]);
    let part = |i: int| full_row(b, i);
    lemma_one_part(whole);
    assert(full_scan(one) == full_batch(b));
    lemma_gather_each(part, b.rows as int);
    let scanned = full_scan(one)->Ok_0;
    let m = schema::models(sorted);
    let p = choose|p: Seq<int>| sorts_rows(scanned, p, m);
    assert(m.len() == sorted.len());
    assert forall|k: int| 0 <= k < sorted.len() implies {
        &&& 0 <= #[trigger] p[k] < b.rows
        &&& sorted[k].doc_id@ == b.doc_id->0@[p[k]]@
        &&& sorted[k].doc_type@ == b.doc_type->0@[p[k]]@
        &&& sorted[k].chunk_index == b.chunk_index->0@[p[k]]
        &&& sorted[k].chunk_count == b.chunk_count->0@[p[k]]
        &&& sorted[k].chunk_token_start == b.chunk_token_start->0@[p[k]]
        &&& sorted[k].doc_token_len == b.doc_token_len->0@[p[k]]
        &&& sorted[k].embedding@ == b.embedding->0@[p[k]].values->0@
        &&& sorted[k].clustering_embedding@ == b.clustering_embedding->0@[p[k]].values->0@
        &&& sorted[k].content@ == b.content->0@[p[k]]@
    } by {
        assert(m[k] == sorted[k]@ && m[k] == scanned[p[k]]);
        assert(scanned[p[k]] == part(p[k])->Ok_0[0]);
    }
    p
}

/// Each chunk text of a batch stands for its own row.
pub proof fn chunk_texts_stand_for_their_rows(
    b: Batch,
    m: ContentMessages,
    rows: Seq<ContentRow>,
)
    requires
        b.doc_id is Some && b.chunk_index is Some && b.content is Some,
    ensures
        content_scan(seq![b], m) is Ok,
        content_scan(seq![b], m)->Ok_0 == schema::models(rows) ==> {
            &&& rows.len() == b.rows
            &&& forall|i: int|
                0 <= i < b.rows ==> {
                    &&& (#[trigger] rows[i]).doc_id@ == b.doc_id->0@[i]@
                    &&& rows[i].chunk_index == b.chunk_index->0@[i]
                    &&& rows[i].content@ == b.content->0@[i]@
                }
        },
{
    let one = seq![b];
    lemma_one_part(|i: int| content_batch(one[i], m));
    let v = schema::models(rows);
    assert(v.len() == rows.len());
    assert forall|i: int| 0 <= i < rows.len() implies v[i] == (#[trigger] rows[i])@ by {}
}

/// Each stored vector of a batch stands for its own row and is that of the column asked for.
pub proof fn stored_vectors_stand_for_their_rows(
    b: Batch,
    column: EmbeddingColumn,
    rows: Seq<VectorRow>,
)
    requires
        b.well_formed(),
        b.rows > 0,
        stored_scan(seq![b], column) == Ok::<
            Seq<(Seq<char>, i32, Seq<u32>, Option<Seq<u32>>)>,
            Seq<char>,
        >(schema::models(rows)),
    ensures
        rows.len() == b.rows,
        forall|i: int|
            0 <= i < b.rows ==> {
                &&& (#[trigger] rows[i]).doc_id@ == b.doc_id->0@[i]@
                &&& rows[i].chunk_index == b.chunk_index->0@[i]
                &&& column == EmbeddingColumn::Document ==> !b.embedding->0@[i].null
                    && b.embedding->0@[i].values is Some && rows[i].embedding@
                    == b.embedding->0@[i].values->0@
                &&& column == EmbeddingColumn::Clustering ==> !b.clustering_embedding->0@[i].null
                    && b.clustering_embedding->0@[i].values is Some && rows[i].embedding@
                    == b.clustering_embedding->0@[i].values->0@
                &&& rows[i].clustering_embedding is None
            },
{
    let one = seq![b];
    let part = |i: int| stored_row(b, column, i);
    lemma_one_part(|i: int| stored_batch(one[i], column));
    assert(stored_scan(one, column) == stored_batch(b, column));
    lemma_gather_each(part, b.rows as int);
    let v = schema::models(rows);
    assert(v.len() == rows.len());
    assert forall|i: int| 0 <= i < b.rows implies v[i] == (#[trigger] rows[i])@ && v[i] == part(
        i,
    )->Ok_0[0] && part(i) is Ok by {}
}

/// Stored vectors can be read where the columns are there and every slot of the column asked for
/// holds single-precision numbers.
pub proof fn readable_vectors_are_read(b: Batch, column: EmbeddingColumn)
    requires
        b.well_formed(),
        b.doc_id is Some && b.chunk_index is Some,
        column == EmbeddingColumn::Document ==> b.embedding is Some && batch::all_readable(
            b.embedding,
            b.rows as int,
        ),
        column == EmbeddingColumn::Clustering ==> b.clustering_embedding is Some
            && batch::all_readable(b.clustering_embedding, b.rows as int),
    ensures
        stored_scan(seq![b], column) is Ok,
{
    let one = seq![b];
    let part = |i: int| stored_row(b, column, i);
    lemma_one_part(|i: int| stored_batch(one[i], column));
    lemma_gather_each(part, b.rows as int);
    assert forall|i: int| 0 <= i < b.rows implies (#[trigger] part(i)) is Ok by {
        assert(!cells(b, column)->0@[i].null);
    }
}

/// Each point of a batch stands for its own row: its document, its document vector, and its text
/// where texts are asked for.
pub proof fn points_stand_for_their_rows(
    b: Batch,
    snippet: bool,
    m: PointMessages,
    points: Seq<IndexedPoint>,
)
    requires
        b.well_formed(),
        b.rows > 0,
        point_scan(seq![b], snippet, m) == Ok::<
            Seq<(Seq<char>, Seq<u32>, Option<Seq<char>>)>,
            Seq<char>,
        >(schema::models(points)),
    ensures
        points.len() == b.rows,
        forall|i: int|
            0 <= i < b.rows ==> {
                &&& (#[trigger] points[i]).doc_id@ == b.doc_id->0@[i]@
                &&& !b.embedding->0@[i].null
                &&& b.embedding->0@[i].values is Some
                &&& points[i].embedding@ == b.embedding->0@[i].values->0@
                &&& points[i].content is Some <==> snippet
                &&& snippet ==> points[i].content->0@ == b.content->0@[i]@
            },
{
    let one = seq![b];
    let part = |i: int| point_row(b, snippet, i);
    lemma_one_part(|i: int| point_batch(one[i], snippet, m));
    assert(point_scan(one, snippet, m) == point_batch(b, snippet, m));
    lemma_gather_each(part, b.rows as int);
    let v = schema::models(points);
    assert(v.len() == points.len());
    assert forall|i: int| 0 <= i < b.rows implies v[i] == (#[trigger] points[i])@ && v[i] == part(
        i,
    )->Ok_0[0] && part(i) is Ok by {}
}

/// Points can be read where the columns are there and every document vector is single-precision.
pub proof fn readable_points_are_read(b: Batch, snippet: bool, m: PointMessages)
    requires
        b.well_formed(),
        b.doc_id is Some && b.embedding is Some,
        snippet ==> b.content is Some,
        batch::all_readable(b.embedding, b.rows as int),
    ensures
        point_scan(seq![b], snippet, m) is Ok,
{
    let one = seq![b];
    let part = |i: int| point_row(b, snippet, i);
    lemma_one_part(|i: int| point_batch(one[i], snippet, m));
    lemma_gather_each(part, b.rows as int);
    assert forall|i: int| 0 <= i < b.rows implies (#[trigger] part(i)) is Ok by {
        assert(!b.embedding->0@[i].null);
    }
}

/// Streaming a batch whose document vectors can all be read gives every row its own vectors, the
/// clustering vector exactly where it is asked for and can be read.
pub proof fn streamed_vectors_stand_for_their_rows(
    b: Batch,
    store_clustering: bool,
    rows: Seq<VectorRow>,
)
    requires
        b.well_formed(),
        b.doc_id is Some && b.chunk_index is Some && b.embedding is Some,
        batch::all_readable(b.embedding, b.rows as int),
        schema::models(rows) == streamed_scan(seq![b], store_clustering, 1),
    ensures
        rows.len() == b.rows,
        forall|i: int|
            0 <= i < b.rows ==> {
                &&& (#[trigger] rows[i]).doc_id@ == b.doc_id->0@[i]@
                &&& rows[i].chunk_index == b.chunk_index->0@[i]
                &&& rows[i].embedding@ == b.embedding->0@[i].values->0@
                &&& rows[i].clustering_embedding is Some <==> store_clustering
                    && b.clustering_embedding is Some && !b.clustering_embedding->0@[i].null
                    && b.clustering_embedding->0@[i].values is Some
                &&& rows[i].clustering_embedding is Some ==> rows[i].clustering_embedding->0@
                    == b.clustering_embedding->0@[i].values->0@
            },
{
    reveal_with_fuel(streamed_scan, 2);
    lemma_streamed_each(b, store_clustering, b.rows as int);
    let v = schema::models(rows);
    assert(Seq::<(Seq<char>, i32, Seq<u32>, Option<Seq<u32>>)>::empty() + streamed_rows_of(
        b,
        store_clustering,
        b.rows as int,
    ) =~= streamed_rows_of(b, store_clustering, b.rows as int));
    assert(v.len() == rows.len());
    assert forall|i: int| 0 <= i < b.rows implies v[i] == (#[trigger] rows[i])@
        && streamed_row(b, store_clustering, i) == Some(v[i]) && !b.embedding->0@[i].null by {}
}

proof fn lemma_streamed_each(b: Batch, store_clustering: bool, n: int)
    requires
        0 <= n <= b.rows,
        b.embedding is Some,
        batch::all_readable(b.embedding, b.rows as int),
    ensures
        streamed_rows_of(b, store_clustering, n).len() == n,
        forall|i: int|
            0 <= i < n ==> streamed_row(b, store_clustering, i) == Some(
                #[trigger] streamed_rows_of(b, store_clustering, n)[i],
            ),
    decreases n,
{
    if n > 0 {
        lemma_streamed_each(b, store_clustering, n - 1);
        assert(!b.embedding->0@[n - 1].null);
        let all = streamed_rows_of(b, store_clustering, n);
        assert forall|i: int| 0 <= i < n implies streamed_row(b, store_clustering, i) == Some(
            #[trigger] all[i],
        ) by {
            if i < n - 1 {
                assert(all[i] == streamed_rows_of(b, store_clustering, n - 1)[i]);
            }
        }
    }
}

/// A row whose document vector cannot be read is left out of a stream, and the others keep their
/// order.
pub proof fn unreadable_rows_are_not_streamed(b: Batch, store_clustering: bool, i: int, n: int)
    requires
        b.well_formed(),
        b.embedding is Some,
        0 <= i < n <= b.rows,
        b.embedding->0@[i].null || b.embedding->0@[i].values is None,
    ensures
        streamed_row(b, store_clustering, i) is None,
        streamed_rows_of(b, store_clustering, i + 1) == streamed_rows_of(b, store_clustering, i),
        streamed_rows_of(b, store_clustering, n).len() < n,
    decreases n,
{
    if i < n - 1 {
        unreadable_rows_are_not_streamed(b, store_clustering, i, n - 1);
    } else {
        lemma_streamed_at_most(b, store_clustering, i);
    }
}

proof fn lemma_streamed_at_most(b: Batch, store_clustering: bool, n: int)
    requires
        0 <= n,
    ensures
        streamed_rows_of(b, store_clustering, n).len() <= n,
    decreases n,
{
    if n > 0 {
        lemma_streamed_at_most(b, store_clustering, n - 1);
    }
}

/// The text of a document holds the texts of its chunks by chunk number, each once, one space apart
/// and nothing else. `p` holds the rows of the document in that order, `at` where each begins.
pub proof fn texts_hold_their_chunks_in_order(rows: Seq<ContentRow>, t: DocText) -> (r: (
    Seq<int>,
    Seq<int>,
))
    requires
        is_doc_text(rows, t),
    ensures
        ({
            let (p, at) = r;
            &&& p.len() > 0
            &&& at.len() == p.len()
            &&& forall|k: int|
                0 <= k < p.len() ==> 0 <= #[trigger] p[k] < rows.len() && rows[p[k]].doc_id@
                    == t.doc_id@
            &&& forall|i: int|
                0 <= i < rows.len() && (#[trigger] rows[i]).doc_id@ == t.doc_id@ ==> p.contains(i)
            &&& forall|j: int, k: int|
                #![trigger p[j], p[k]]
                0 <= j < k < p.len() ==> p[j] != p[k] && rows[p[j]].chunk_index
                    <= rows[p[k]].chunk_index
            &&& at[0] == 0
            &&& forall|k: int|
                0 <= k < p.len() - 1 ==> #[trigger] at[k + 1] == at[k] + rows[p[k]].content@.len()
                    + 1 && t.text@[at[k + 1] - 1] == ' '
            &&& forall|k: int|
                0 <= k < p.len() ==> 0 <= #[trigger] at[k] && at[k] + rows[p[k]].content@.len()
                    <= t.text@.len() && t.text@.subrange(
                    at[k],
                    at[k] + rows[p[k]].content@.len(),
                ) == rows[p[k]].content@
            &&& t.text@.len() == at.last() + rows[p.last()].content@.len()
        }),
{
    let p = choose|p: Seq<int>|
        p.len() > 0 && is_chunk_order(rows, t.doc_id@, p) && t.text@ == #[trigger] joined(rows, p);
    let at = lemma_joined(rows, p);
    (p, at)
}

proof fn lemma_joined(rows: Seq<ContentRow>, p: Seq<int>) -> (at: Seq<int>)
    requires
        p.len() > 0,
    ensures
        at.len() == p.len(),
        at[0] == 0,
        forall|k: int|
            0 <= k < p.len() - 1 ==> #[trigger] at[k + 1] == at[k] + rows[p[k]].content@.len() + 1
                && joined(rows, p)[at[k + 1] - 1] == ' ',
        forall|k: int|
            0 <= k < p.len() ==> 0 <= #[trigger] at[k] && at[k] + rows[p[k]].content@.len()
                <= joined(rows, p).len() && joined(rows, p).subrange(
                at[k],
                at[k] + rows[p[k]].content@.len(),
            ) == rows[p[k]].content@,
        joined(rows, p).len() == at.last() + rows[p.last()].content@.len(),
    decreases p.len(),
{
    reveal_strlit(" ");
    let text = joined(rows, p);
    if p.len() == 1 {
        let at = seq![0int];
        assert(text.subrange(0, text.len() as int) =~= text);
        at
    } else {
        let q = p.drop_last();
        let head = joined(rows, q);
        let before = lemma_joined(rows, q);
        let last = rows[p.last()].content@;
        let at = before.push(head.len() as int + 1);
        assert(text =~= head + " "@ + last);
        assert forall|k: int| 0 <= k < p.len() - 1 implies #[trigger] at[k + 1] == at[k]
            + rows[p[k]].content@.len() + 1 && text[at[k + 1] - 1] == ' ' by {
            if k + 1 < q.len() {
                assert(before[k + 1] == before[k] + rows[q[k]].content@.len() + 1);
                assert(before[k + 1] + rows[q[k + 1]].content@.len() <= head.len());
                assert(text[at[k + 1] - 1] == head[before[k + 1] - 1]);
            } else {
                assert(at[k] == before.last() && q[k] == q.last());
            }
        }
        assert forall|k: int| 0 <= k < p.len() implies 0 <= #[trigger] at[k] && at[k]
            + rows[p[k]].content@.len() <= text.len() && text.subrange(
            at[k],
            at[k] + rows[p[k]].content@.len(),
        ) == rows[p[k]].content@ by {
            if k < q.len() {
                assert(0 <= before[k]);
                let n = rows[q[k]].content@.len();
                assert(text.subrange(at[k], at[k] + n) =~= head.subrange(before[k], before[k] + n));
            } else {
                assert(text.subrange(at[k], at[k] + last.len()) =~= last);
            }
        }
        at
    }
}

/// Every document of a scan has one record, with the vectors of a row of the document whose chunk
/// number is lowest.
pub proof fn records_hold_the_lowest_chunk(
    rows: Seq<VectorRow>,
    from: Seq<usize>,
    out: Seq<EmbeddingRecord>,
)
    requires
        has_each_record(rows, from, out),
        rows.len() <= usize::MAX,
    ensures
        forall|i: int|
            0 <= i < rows.len() ==> exists|k: int|
                0 <= k < out.len() && (#[trigger] out[k]).doc_id@ == (#[trigger] rows[i]).doc_id@,
        forall|j: int, k: int|
            #![trigger out[j], out[k]]
            0 <= j < k < out.len() ==> out[j].doc_id@ != out[k].doc_id@,
        forall|k: int|
            #![trigger out[k]]
            0 <= k < out.len() ==> {
                let r = rows[from[k] as int];
                &&& 0 <= from[k] < rows.len()
                &&& out[k].doc_id@ == r.doc_id@
                &&& out[k].embedding@ == r.embedding@
                &&& out[k].clustering_embedding is Some <==> r.clustering_embedding is Some
                &&& r.clustering_embedding is Some ==> out[k].clustering_embedding->0@
                    == r.clustering_embedding->0@
                &&& forall|i: int|
                    0 <= i < rows.len() && (#[trigger] rows[i]).doc_id@ == out[k].doc_id@
                        ==> r.chunk_index <= rows[i].chunk_index
            },
{
    let ids = vector_ids(rows);
    let ranks = vector_chunks(rows);
    assert forall|k: int| 0 <= k < out.len() implies represents(rows, from[k] as int)
        && (#[trigger] out[k]).doc_id@ == rows[from[k] as int].doc_id@ by {
        assert(grouping::is_best(ids, ranks, from[k] as int));
    }
    assert forall|k: int|
        #![trigger out[k]]
        0 <= k < out.len() implies {
        let r = rows[from[k] as int];
        &&& 0 <= from[k] < rows.len()
        &&& out[k].doc_id@ == r.doc_id@
        &&& out[k].embedding@ == r.embedding@
        &&& out[k].clustering_embedding is Some <==> r.clustering_embedding is Some
        &&& r.clustering_embedding is Some ==> out[k].clustering_embedding->0@
            == r.clustering_embedding->0@
        &&& forall|i: int|
            0 <= i < rows.len() && (#[trigger] rows[i]).doc_id@ == out[k].doc_id@
                ==> r.chunk_index <= rows[i].chunk_index
    } by {
        let r = rows[from[k] as int];
        assert(represents(rows, from[k] as int));
        assert forall|i: int|
            0 <= i < rows.len() && (#[trigger] rows[i]).doc_id@
                == out[k].doc_id@ implies r.chunk_index <= rows[i].chunk_index by {
            assert(ids[i] == ids[from[k] as int]);
            assert(ranks[from[k] as int] <= ranks[i]);
        }
    }
    assert forall|i: int| 0 <= i < rows.len() implies exists|k: int|
        0 <= k < out.len() && (#[trigger] out[k]).doc_id@ == (#[trigger] rows[i]).doc_id@ by {
        let b = grouping::every_group_has_a_best(ids, ranks, i);
        assert(from.contains(b as usize));
        let k = choose|k: int| 0 <= k < from.len() && from[k] == b as usize;
        assert(ids[b] == ids[i]);
        assert(out[k].doc_id@ == rows[i].doc_id@);
    }
    assert forall|j: int, k: int|
        #![trigger out[j], out[k]]
        0 <= j < k < out.len() implies out[j].doc_id@ != out[k].doc_id@ by {
        let a = from[j] as int;
        let b = from[k] as int;
        assert(represents(rows, a) && represents(rows, b));
        if out[j].doc_id@ == out[k].doc_id@ {
            assert(ids[a] == ids[b]);
            assert(a == b);
        }
    }
}


/// What is said of a missing column is true: the column that is named is missing, and where all are
/// there nothing is said.
pub proof fn missing_columns_are_named(b: Batch, m: Seq<char>)
    requires
        missing_column(b) == Some(m),
    ensures
        m == "doc_id column missing"@ ==> b.doc_id is None,
        m == "doc_type column missing"@ ==> b.doc_type is None,
        m == "chunk_index column missing"@ ==> b.chunk_index is None,
        m == "chunk_count column missing"@ ==> b.chunk_count is None,
        m == "chunk_token_start column missing"@ ==> b.chunk_token_start is None,
        m == "doc_token_len column missing"@ ==> b.doc_token_len is None,
        m == "embedding column missing"@ ==> b.embedding is None,
        m == "clustering_embedding column missing"@ ==> b.clustering_embedding is None,
        m == "content column missing"@ ==> b.content is None,
        !(b.doc_id is Some && b.doc_type is Some && b.chunk_index is Some && b.chunk_count is Some
            && b.chunk_token_start is Some && b.doc_token_len is Some && b.embedding is Some
            && b.clustering_embedding is Some && b.content is Some),
{
    reveal_strlit("doc_id column missing");
    reveal_strlit("doc_type column missing");
    reveal_strlit("chunk_index column missing");
    reveal_strlit("chunk_count column missing");
    reveal_strlit("chunk_token_start column missing");
    reveal_strlit("doc_token_len column missing");
    reveal_strlit("embedding column missing");
    reveal_strlit("clustering_embedding column missing");
    reveal_strlit("content column missing");
    assert("doc_id column missing"@.len() == 21);
    assert("content column missing"@.len() == 22);
    assert("doc_type column missing"@.len() == 23);
    assert("embedding column missing"@.len() == 24);
    assert("chunk_index column missing"@.len() == 26);
    assert("chunk_index column missing"@[6] == 'i');
    assert("chunk_count column missing"@.len() == 26);
    assert("chunk_count column missing"@[6] == 'c');
    assert("doc_token_len column missing"@.len() == 28);
    assert("chunk_token_start column missing"@.len() == 32);
    assert("clustering_embedding column missing"@.len() == 35);
}

/// Two columns hold vectors, each read under its own name.
pub proof fn vector_columns_are_read_by_name(b: Batch, column: EmbeddingColumn)
    ensures
        column_name(column) == "embedding"@ ==> cells(b, column) == b.embedding,
        column_name(column) == "clustering_embedding"@ ==> cells(b, column)
            == b.clustering_embedding,
        column_name(column) == "embedding"@ || column_name(column) == "clustering_embedding"@,
{
    reveal_strlit("embedding");
    reveal_strlit("clustering_embedding");
    assert("embedding"@.len() == 9);
    assert("clustering_embedding"@.len() == 20);
}


/// Some row of the batches is of the document.
pub open spec fn is_scanned(batches: Seq<Batch>, id: Seq<char>) -> bool {
    exists|i: int, k: int|
        #![trigger batches[i].doc_id->0@[k]]
        0 <= i < batches.len() && batches[i].doc_id is Some && 0 <= k < batches[i].doc_id->0@.len()
            && batches[i].doc_id->0@[k]@ == id
}

proof fn lemma_scanned(batches: Seq<Batch>, n: int, id: Seq<char>)
    requires
        0 <= n <= batches.len(),
    ensures
        scanned_ids(batches, n).contains(id) <==> exists|i: int, k: int|
            #![trigger batches[i].doc_id->0@[k]]
            0 <= i < n && batches[i].doc_id is Some && 0 <= k < batches[i].doc_id->0@.len()
                && batches[i].doc_id->0@[k]@ == id,
    decreases n,
{
    if n > 0 {
        lemma_scanned(batches, n - 1, id);
        let head = scanned_ids(batches, n - 1);
        let own = readable_ids(batches[n - 1]);
        let all = head + own;
        if all.contains(id) {
            let x = choose|x: int| 0 <= x < all.len() && all[x] == id;
            if x < head.len() {
                assert(head[x] == id);
            } else {
                let k = x - head.len();
                assert(own[k] == id);
                assert(batches[n - 1].doc_id->0@[k]@ == id);
            }
        }
        if head.contains(id) {
            let x = choose|x: int| 0 <= x < head.len() && head[x] == id;
            assert(all[x] == id);
        }
        if exists|k: int|
            #![trigger batches[n - 1].doc_id->0@[k]]
            batches[n - 1].doc_id is Some && 0 <= k < batches[n - 1].doc_id->0@.len()
                && batches[n - 1].doc_id->0@[k]@ == id {
            let k = choose|k: int|
                #![trigger batches[n - 1].doc_id->0@[k]]
                0 <= k < batches[n - 1].doc_id->0@.len() && batches[n - 1].doc_id->0@[k]@ == id;
            assert(own[k] == id);
            assert(all[head.len() + k] == id);
        }
    }
}

/// A scan's document ids are those of its rows, and no others; the documents are counted each once,
/// however many rows they have.
pub proof fn scanned_documents_are_counted_once(
    batches: Seq<Batch>,
    ids: Seq<String>,
    n: u64,
    id: Seq<char>,
)
    requires
        grouping::views(ids) == scanned_ids(batches, batches.len() as int),
        n == scanned_ids(batches, batches.len() as int).to_set().len(),
    ensures
        (exists|j: int| 0 <= j < ids.len() && (#[trigger] ids[j])@ == id) <==> is_scanned(
            batches,
            id,
        ),
        n == Set::new(|x: Seq<char>| is_scanned(batches, x)).len(),
        n <= ids.len(),
{
    let all = scanned_ids(batches, batches.len() as int);
    lemma_scanned(batches, batches.len() as int, id);
    assert(all.len() == ids.len());
    if exists|j: int| 0 <= j < ids.len() && (#[trigger] ids[j])@ == id {
        let j = choose|j: int| 0 <= j < ids.len() && (#[trigger] ids[j])@ == id;
        assert(all[j] == grouping::views(ids)[j]);
        assert(all.contains(id));
    }
    if all.contains(id) {
        let j = choose|j: int| 0 <= j < all.len() && all[j] == id;
        assert(grouping::views(ids)[j] == ids[j]@);
    }
    assert forall|x: Seq<char>| all.to_set().contains(x) <==> #[trigger] is_scanned(batches, x) by {
        lemma_scanned(batches, batches.len() as int, x);
    }
    assert(all.to_set() =~= Set::new(|x: Seq<char>| is_scanned(batches, x)));
    all.lemma_cardinality_of_set();
}

/// Another batch adds the ids of its rows behind those of the batches in front of it; one without
/// ids adds none.
pub proof fn scanned_ids_add_up(batches: Seq<Batch>, n: int)
    requires
        0 <= n < batches.len(),
    ensures
        batches[n].doc_id is None ==> scanned_ids(batches, n + 1) == scanned_ids(batches, n),
        batches[n].doc_id matches Some(own) ==> {
            let all = scanned_ids(batches, n + 1);
            let head = scanned_ids(batches, n).len() as int;
            &&& all.len() == head + own@.len()
            &&& all.take(head) == scanned_ids(batches, n)
            &&& forall|k: int| 0 <= k < own@.len() ==> all[head + k] == (#[trigger] own@[k])@
        },
        scanned_ids(batches, 0).len() == 0,
{
    let head = scanned_ids(batches, n);
    let own = readable_ids(batches[n]);
    assert((head + own).take(head.len() as int) =~= head);
    if batches[n].doc_id is None {
        assert(head + own =~= head);
    }
}

} // verus!
