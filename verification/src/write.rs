//! Chunk rows as columns, and what a write does.

use crate::delta;
use crate::filter;
use crate::schema::ChunkRow;
use vstd::prelude::*;
use vstd::string::*;

verus! {

/// The type of a column.
#[derive(Debug, Clone, Copy, PartialEq, Eq, Structural)]
pub enum ColumnKind {
    Text,
    Number,
    /// A vector of single-precision numbers, with its dimension.
    Vector(usize),
}

/// A column of the chunk table. No column takes nulls.
#[derive(Debug)]
pub struct Column {
    pub name: String,
    pub kind: ColumnKind,
}

/// The columns of the chunk table, in order.
pub open spec fn schema_of(dim: usize) -> Seq<(Seq<char>, ColumnKind)> {
    seq![
        ("doc_id"@, ColumnKind::Text),
        ("doc_type"@, ColumnKind::Text),
        ("chunk_index"@, ColumnKind::Number),
        ("chunk_count"@, ColumnKind::Number),
        ("chunk_token_start"@, ColumnKind::Number),
        ("doc_token_len"@, ColumnKind::Number),
        ("embedding"@, ColumnKind::Vector(dim)),
        ("clustering_embedding"@, ColumnKind::Vector(dim)),
        ("content"@, ColumnKind::Text),
    ]
}

fn column(name: &str, kind: ColumnKind) -> (c: Column)
    ensures
        c.name@ == name@,
        c.kind == kind,
{
    Column { name: name.to_owned(), kind }
}

/// The columns of the chunk table.
pub fn chunk_schema(dim: usize) -> (r: Vec<Column>)
    ensures
        r.len() == schema_of(dim).len(),
        forall|i: int|
            0 <= i < r.len() ==> ((#[trigger] r@[i]).name@, r@[i].kind) == schema_of(dim)[i],
{
    let mut r: Vec<Column> = Vec::new();
    r.push(column("doc_id", ColumnKind::Text));
    r.push(column("doc_type", ColumnKind::Text));
    r.push(column("chunk_index", ColumnKind::Number));
    r.push(column("chunk_count", ColumnKind::Number));
    r.push(column("chunk_token_start", ColumnKind::Number));
    r.push(column("doc_token_len", ColumnKind::Number));
    r.push(column("embedding", ColumnKind::Vector(dim)));
    r.push(column("clustering_embedding", ColumnKind::Vector(dim)));
    r.push(column("content", ColumnKind::Text));
    r
}

/// Chunk rows by column. The vectors of all rows stand one after another.
#[derive(Debug)]
pub struct ChunkColumns {
    pub doc_ids: Vec<String>,
    pub doc_types: Vec<String>,
    pub chunk_indexes: Vec<i32>,
    pub chunk_counts: Vec<i32>,
    pub chunk_token_starts: Vec<i32>,
    pub doc_token_lens: Vec<i32>,
    pub embeddings: Vec<u32>,
    pub clustering_embeddings: Vec<u32>,
    pub contents: Vec<String>,
}

/// The embeddings of the first `n` rows, one after another.
pub open spec fn flat_embeddings(rows: Seq<ChunkRow>, n: int) -> Seq<u32>
    decreases n,
{
    if n <= 0 {
        Seq::empty()
    } else {
        flat_embeddings(rows, n - 1) + rows[n - 1].embedding@
    }
}

/// The clustering embeddings of the first `n` rows, one after another.
pub open spec fn flat_clustering(rows: Seq<ChunkRow>, n: int) -> Seq<u32>
    decreases n,
{
    if n <= 0 {
        Seq::empty()
    } else {
        flat_clustering(rows, n - 1) + rows[n - 1].clustering_embedding@
    }
}

/// The columns hold the first `n` rows.
pub open spec fn holds_rows(c: ChunkColumns, rows: Seq<ChunkRow>, n: int) -> bool {
    &&& c.doc_ids@.len() == n
    &&& c.doc_types@.len() == n
    &&& c.chunk_indexes@.len() == n
    &&& c.chunk_counts@.len() == n
    &&& c.chunk_token_starts@.len() == n
    &&& c.doc_token_lens@.len() == n
    &&& c.contents@.len() == n
    &&& forall|i: int| 0 <= i < n ==> (#[trigger] c.doc_ids@[i])@ == rows[i].doc_id@
    &&& forall|i: int| 0 <= i < n ==> (#[trigger] c.doc_types@[i])@ == rows[i].doc_type@
    &&& forall|i: int| 0 <= i < n ==> #[trigger] c.chunk_indexes@[i] == rows[i].chunk_index
    &&& forall|i: int| 0 <= i < n ==> #[trigger] c.chunk_counts@[i] == rows[i].chunk_count
    &&& forall|i: int|
        0 <= i < n ==> #[trigger] c.chunk_token_starts@[i] == rows[i].chunk_token_start
    &&& forall|i: int| 0 <= i < n ==> #[trigger] c.doc_token_lens@[i] == rows[i].doc_token_len
    &&& forall|i: int| 0 <= i < n ==> (#[trigger] c.contents@[i])@ == rows[i].content@
    &&& c.embeddings@ == flat_embeddings(rows, n)
    &&& c.clustering_embeddings@ == flat_clustering(rows, n)
}

fn append_bits(out: &mut Vec<u32>, bits: &Vec<u32>)
    ensures
        final(out)@ == old(out)@ + bits@,
{
    let mut i: usize = 0;
    assert(out@ =~= old(out)@ + bits@.take(0));
    while i < bits.len()
        invariant
            i <= bits.len(),
            out@ == old(out)@ + bits@.take(i as int),
        decreases bits.len() - i,
    {
        out.push(bits[i]);
        assert(out@ =~= old(out)@ + bits@.take(i + 1));
        i = i + 1;
    }
    assert(bits@.take(i as int) =~= bits@);
}

/// Columns without rows.
pub fn empty_columns() -> (c: ChunkColumns)
    ensures
        forall|rows: Seq<ChunkRow>| #[trigger] holds_rows(c, rows, 0),
{
    ChunkColumns {
        doc_ids: Vec::new(),
        doc_types: Vec::new(),
        chunk_indexes: Vec::new(),
        chunk_counts: Vec::new(),
        chunk_token_starts: Vec::new(),
        doc_token_lens: Vec::new(),
        embeddings: Vec::new(),
        clustering_embeddings: Vec::new(),
        contents: Vec::new(),
    }
}

/// Puts rows into columns.
pub fn rows_to_columns(rows: &Vec<ChunkRow>) -> (c: ChunkColumns)
    ensures
        holds_rows(c, rows@, rows@.len() as int),
{
    let mut c = empty_columns();
    let mut i: usize = 0;
    assert(holds_rows(c, rows@, 0));
    while i < rows.len()
        invariant
            i <= rows.len(),
            holds_rows(c, rows@, i as int),
        decreases rows.len() - i,
    {
        let row = &rows[i];
        c.doc_ids.push(row.doc_id.clone());
        c.doc_types.push(row.doc_type.clone());
        c.chunk_indexes.push(row.chunk_index);
        c.chunk_counts.push(row.chunk_count);
        c.chunk_token_starts.push(row.chunk_token_start);
        c.doc_token_lens.push(row.doc_token_len);
        c.contents.push(row.content.clone());
        append_bits(&mut c.embeddings, &row.embedding);
        append_bits(&mut c.clustering_embeddings, &row.clustering_embedding);
        i = i + 1;
    }
    c
}

/// Where all embeddings have the same dimension, each row's stands in its place.
pub proof fn embeddings_stand_in_place(rows: Seq<ChunkRow>, dim: int, n: int, i: int)
    requires
        0 <= i < n <= rows.len(),
        dim >= 0,
        forall|k: int|
            0 <= k < n ==> (#[trigger] rows[k]).embedding@.len() == dim
                && rows[k].clustering_embedding@.len() == dim,
    ensures
        flat_embeddings(rows, n).len() == n * dim,
        flat_clustering(rows, n).len() == n * dim,
        flat_embeddings(rows, n).subrange(i * dim, (i + 1) * dim) == rows[i].embedding@,
        flat_clustering(rows, n).subrange(i * dim, (i + 1) * dim) == rows[i].clustering_embedding@,
    decreases n,
{
    lemma_flat_length(rows, dim, n);
    lemma_flat_length(rows, dim, n - 1);
    assert(n * dim == (n - 1) * dim + dim) by (nonlinear_arith);
    assert((i + 1) * dim == i * dim + dim) by (nonlinear_arith);
    assert(0 <= i * dim) by (nonlinear_arith)
        requires
            0 <= i,
            dim >= 0,
    ;
    assert(rows[i].embedding@.len() == dim);
    if i == n - 1 {
        assert(flat_embeddings(rows, n).subrange(i * dim, (i + 1) * dim) =~= rows[i].embedding@);
        assert(flat_clustering(rows, n).subrange(i * dim, (i + 1) * dim)
            =~= rows[i].clustering_embedding@);
    } else {
        embeddings_stand_in_place(rows, dim, n - 1, i);
        assert((i + 1) * dim <= (n - 1) * dim) by (nonlinear_arith)
            requires
                i + 1 <= n - 1,
                dim >= 0,
        ;
        assert(flat_embeddings(rows, n).subrange(i * dim, (i + 1) * dim) =~= flat_embeddings(
            rows,
            n - 1,
        ).subrange(i * dim, (i + 1) * dim));
        assert(flat_clustering(rows, n).subrange(i * dim, (i + 1) * dim) =~= flat_clustering(
            rows,
            n - 1,
        ).subrange(i * dim, (i + 1) * dim));
    }
}

proof fn lemma_flat_length(rows: Seq<ChunkRow>, dim: int, n: int)
    requires
        0 <= n <= rows.len(),
        forall|k: int|
            0 <= k < n ==> (#[trigger] rows[k]).embedding@.len() == dim
                && rows[k].clustering_embedding@.len() == dim,
    ensures
        flat_embeddings(rows, n).len() == n * dim,
        flat_clustering(rows, n).len() == n * dim,
    decreases n,
{
    if n > 0 {
        lemma_flat_length(rows, dim, n - 1);
        assert(rows[n - 1].embedding@.len() == dim);
        assert(n * dim == (n - 1) * dim + dim) by (nonlinear_arith);
    } else {
        assert(0 * dim == 0);
    }
}

/// What writing a document does.
#[derive(Debug)]
pub enum WriteStep {
    /// Nothing.
    Nothing,
    /// Delete the rows that meet the condition, then append the new rows.
    Replace { condition: String },
    /// Delete the rows that meet the condition.
    Delete { condition: String },
}

/// Plans the writing of a document's rows: all its earlier rows go first. Without rows nothing is
/// done.
pub fn plan_upsert(doc_id: &str, rows: usize) -> (step: WriteStep)
    ensures
        match step {
            WriteStep::Nothing => rows == 0,
            WriteStep::Replace { condition } => rows > 0 && condition@ == filter::equals_text(doc_id@),
            WriteStep::Delete { .. } => false,
        },
{
    if rows == 0 {
        WriteStep::Nothing
    } else {
        WriteStep::Replace { condition: filter::doc_id_equals(doc_id) }
    }
}

/// Plans the deletion of a document. Where there is no dataset nothing is done, and none is created.
pub fn plan_delete(doc_id: &str, dataset_exists: bool) -> (step: WriteStep)
    ensures
        match step {
            WriteStep::Nothing => !dataset_exists,
            WriteStep::Replace { .. } => false,
            WriteStep::Delete { condition } => dataset_exists && condition@ == filter::equals_text(
                doc_id@,
            ),
        },
{
    if dataset_exists {
        WriteStep::Delete { condition: filter::doc_id_equals(doc_id) }
    } else {
        WriteStep::Nothing
    }
}

/// Replacing a document leaves it with the new chunks only, and every other document as it was.
pub proof fn replacing_leaves_no_stale_chunk(
    table: Seq<(Seq<char>, i32, Seq<char>)>,
    doc_ids: Seq<String>,
    new: Seq<(Seq<char>, i32, Seq<char>)>,
    other: Seq<char>,
)
    requires
        doc_ids.len() == 1,
        forall|i: int| 0 <= i < new.len() ==> (#[trigger] new[i]).0 == doc_ids[0]@,
        other != doc_ids[0]@,
    ensures
        delta::chunks(delta::applied(table, doc_ids, new), doc_ids[0]@) == delta::chunks(
            new,
            doc_ids[0]@,
        ),
        delta::chunks(delta::applied(table, doc_ids, new), other) == delta::chunks(table, other),
{
    let id = doc_ids[0]@;
    let out = delta::applied(table, doc_ids, new);
    let head = delta::kept(table, doc_ids, table.len() as int);
    assert(table.take(table.len() as int) =~= table);
    assert(filter::lists(doc_ids, id));
    assert(!filter::lists(doc_ids, other));
    assert forall|c: (i32, Seq<char>)| delta::chunks(out, id).contains(c) <==> delta::chunks(
        new,
        id,
    ).contains(c) by {
        let row = (id, c.0, c.1);
        delta::lemma_kept(table, doc_ids, table.len() as int, row);
        if delta::chunks(out, id).contains(c) {
            let i = choose|i: int| 0 <= i < out.len() && #[trigger] out[i] == row;
            if i < head.len() {
                assert(head[i] == row);
                assert(head.contains(row));
            } else {
                assert(new[i - head.len()] == row);
            }
        }
        if delta::chunks(new, id).contains(c) {
            let i = choose|i: int| 0 <= i < new.len() && #[trigger] new[i] == row;
            assert(out[head.len() + i] == row);
        }
    }
    assert(delta::chunks(out, id) =~= delta::chunks(new, id));
    assert forall|c: (i32, Seq<char>)| delta::chunks(out, other).contains(c) <==> delta::chunks(
        table,
        other,
    ).contains(c) by {
        let row = (other, c.0, c.1);
        delta::lemma_kept(table, doc_ids, table.len() as int, row);
        if delta::chunks(out, other).contains(c) {
            let i = choose|i: int| 0 <= i < out.len() && #[trigger] out[i] == row;
            if i < head.len() {
                assert(head[i] == row);
                assert(head.contains(row));
                let j = choose|j: int| 0 <= j < table.len() && table[j] == row;
                assert(table[j] == row);
            } else {
                assert(new[i - head.len()] == row);
            }
        }
        if delta::chunks(table, other).contains(c) {
            let j = choose|j: int| 0 <= j < table.len() && #[trigger] table[j] == row;
            assert(table.contains(row));
            assert(head.contains(row));
            let i = choose|i: int| 0 <= i < head.len() && head[i] == row;
            assert(out[i] == row);
        }
    }
    assert(delta::chunks(out, other) =~= delta::chunks(table, other));
}


/// The chunk table's columns have names of their own. Two of them hold vectors, both of the given
/// dimension; documents and their types, by which rows are found, are texts.
pub proof fn columns_fit_the_dimension(r: Seq<Column>, dim: usize)
    requires
        r.len() == schema_of(dim).len(),
        forall|i: int|
            0 <= i < r.len() ==> ((#[trigger] r[i]).name@, r[i].kind) == schema_of(dim)[i],
    ensures
        r.len() == 9,
        forall|i: int|
            0 <= i < r.len() && (#[trigger] r[i]).kind is Vector ==> r[i].kind->Vector_0 == dim,
        forall|i: int|
            0 <= i < r.len() ==> ((#[trigger] r[i]).kind is Vector <==> r[i].name@ == "embedding"@
                || r[i].name@ == "clustering_embedding"@),
        forall|i: int|
            0 <= i < r.len() ==> ((#[trigger] r[i]).kind is Text <==> r[i].name@ == "doc_id"@
                || r[i].name@ == "doc_type"@ || r[i].name@ == "content"@),
        forall|i: int, j: int|
            #![trigger r[i], r[j]]
            0 <= i < j < r.len() ==> r[i].name@ != r[j].name@,
{
    reveal_strlit("doc_id");
    reveal_strlit("doc_type");
    reveal_strlit("chunk_index");
    reveal_strlit("chunk_count");
    reveal_strlit("chunk_token_start");
    reveal_strlit("doc_token_len");
    reveal_strlit("embedding");
    reveal_strlit("clustering_embedding");
    reveal_strlit("content");
    let s = schema_of(dim);
    assert(s[0].0.len() == 6 && s[1].0.len() == 8 && s[2].0.len() == 11 && s[3].0.len() == 11);
    assert(s[4].0.len() == 17 && s[5].0.len() == 13 && s[6].0.len() == 9 && s[7].0.len() == 20);
    assert(s[8].0.len() == 7);
    assert(s[2].0[6] == 'i' && s[3].0[6] == 'c');
    assert forall|i: int, j: int|
        #![trigger r[i], r[j]]
        0 <= i < j < r.len() implies r[i].name@ != r[j].name@ by {
        assert(r[i].name@ == s[i].0);
        assert(r[j].name@ == s[j].0);
        assert(i == 0 || i == 1 || i == 2 || i == 3 || i == 4 || i == 5 || i == 6 || i == 7);
        assert(j == 1 || j == 2 || j == 3 || j == 4 || j == 5 || j == 6 || j == 7 || j == 8);
    }
    assert forall|i: int| 0 <= i < r.len() implies ((#[trigger] r[i]).kind is Vector <==> r[i].name@
        == "embedding"@ || r[i].name@ == "clustering_embedding"@) by {
        assert(i == 0 || i == 1 || i == 2 || i == 3 || i == 4 || i == 5 || i == 6 || i == 7 || i
            == 8);
    }
    assert forall|i: int| 0 <= i < r.len() implies ((#[trigger] r[i]).kind is Text <==> r[i].name@
        == "doc_id"@ || r[i].name@ == "doc_type"@ || r[i].name@ == "content"@) by {
        assert(i == 0 || i == 1 || i == 2 || i == 3 || i == 4 || i == 5 || i == 6 || i == 7 || i
            == 8);
    }
}

} // verus!
