//! Scan results: batches of optional columns, and the rows and hits extracted from them.

use crate::distance::Distance;
use crate::schema;
use crate::schema::{ChunkHit, DistanceKind, HitModel, StoreError};
use vstd::prelude::*;
use vstd::string::*;

verus! {

/// One slot of an embedding column. `values` is absent when the slot does not hold
/// single-precision numbers; the numbers are bit patterns.
#[derive(Debug)]
pub struct EmbeddingCell {
    pub null: bool,
    pub values: Option<Vec<u32>>,
}

/// A batch of rows. A column is absent when the scan did not yield it with the expected type.
#[derive(Debug)]
pub struct Batch {
    pub rows: usize,
    pub doc_id: Option<Vec<String>>,
    pub doc_type: Option<Vec<String>>,
    pub chunk_index: Option<Vec<i32>>,
    pub chunk_count: Option<Vec<i32>>,
    pub chunk_token_start: Option<Vec<i32>>,
    pub doc_token_len: Option<Vec<i32>>,
    pub content: Option<Vec<String>>,
    /// Distance column of a nearest-neighbour query.
    pub distance: Option<Vec<Distance>>,
    /// Distances `1 / (1 + score)` from the score column of a full-text query.
    pub score_distance: Option<Vec<Distance>>,
    pub embedding: Option<Vec<EmbeddingCell>>,
    pub clustering_embedding: Option<Vec<EmbeddingCell>>,
}

/// A present column has one value per row.
pub open spec fn column_fits<T>(column: Option<Vec<T>>, rows: int) -> bool {
    match column {
        Some(c) => c@.len() == rows,
        None => true,
    }
}

impl Batch {
    /// Every present column has one value per row.
    pub open spec fn well_formed(&self) -> bool {
        &&& column_fits(self.doc_id, self.rows as int)
        &&& column_fits(self.doc_type, self.rows as int)
        &&& column_fits(self.chunk_index, self.rows as int)
        &&& column_fits(self.chunk_count, self.rows as int)
        &&& column_fits(self.chunk_token_start, self.rows as int)
        &&& column_fits(self.doc_token_len, self.rows as int)
        &&& column_fits(self.content, self.rows as int)
        &&& column_fits(self.distance, self.rows as int)
        &&& column_fits(self.score_distance, self.rows as int)
        &&& column_fits(self.embedding, self.rows as int)
        &&& column_fits(self.clustering_embedding, self.rows as int)
    }

    /// The columns every hit is made of are present.
    pub open spec fn has_hit_columns(&self) -> bool {
        &&& self.doc_id is Some
        &&& self.chunk_index is Some
        &&& self.chunk_count is Some
        &&& self.chunk_token_start is Some
        &&& self.doc_token_len is Some
        &&& self.content is Some
    }
}

/// All batches are well formed.
pub open spec fn all_well_formed(batches: Seq<Batch>) -> bool {
    forall|i: int| 0 <= i < batches.len() ==> (#[trigger] batches[i]).well_formed()
}

/// A result with its error reduced to the message.
pub open spec fn outcome<T, M>(r: Result<T, StoreError>, m: M) -> Result<M, Seq<char>> {
    match r {
        Ok(_) => Ok(m),
        Err(e) => Err(e.message()),
    }
}

/// The stored vector of a slot, or why there is none.
pub open spec fn cell_vector(cell: EmbeddingCell, doc_id: Seq<char>) -> Result<
    Seq<u32>,
    Seq<char>,
> {
    if cell.null {
        Err("embedding extraction: null embedding for doc "@ + doc_id)
    } else {
        match cell.values {
            Some(v) => Ok(v@),
            None => Err("embedding extraction: embedding is not Float32 for doc "@ + doc_id),
        }
    }
}

/// A copy of a vector of bit patterns.
pub fn copy_bits(v: &Vec<u32>) -> (r: Vec<u32>)
    ensures
        r@ == v@,
{
    let mut out: Vec<u32> = Vec::new();
    let mut i: usize = 0;
    while i < v.len()
        invariant
            i <= v.len(),
            out@ == v@.take(i as int),
        decreases v.len() - i,
    {
        out.push(v[i]);
        i = i + 1;
        assert(v@.take(i as int) =~= v@.take(i - 1).push(v@[i - 1]));
    }
    assert(v@.take(i as int) =~= v@);
    out
}

/// One row's stored vector. A null slot or one of another type is an error.
pub fn extract_embedding_row(embeddings: &Vec<EmbeddingCell>, row: usize, doc_id: &str) -> (r:
    Result<Vec<u32>, StoreError>)
    requires
        row < embeddings.len(),
    ensures
        match r {
            Ok(v) => cell_vector(embeddings@[row as int], doc_id@) == Ok::<Seq<u32>, Seq<char>>(v@),
            Err(e) => cell_vector(embeddings@[row as int], doc_id@) == Err::<Seq<u32>, Seq<char>>(
                e.message(),
            ),
        },
{
    let cell = &embeddings[row];
    if cell.null {
        let e = schema::internal("embedding extraction: null embedding for doc ", doc_id, "");
        proof {
            reveal_strlit("");
            assert(e.message() =~= "embedding extraction: null embedding for doc "@ + doc_id@);
        }
        return Err(e);
    }
    match &cell.values {
        Some(v) => Ok(copy_bits(v)),
        None => {
            let e = schema::internal(
                "embedding extraction: embedding is not Float32 for doc ",
                doc_id,
                "",
            );
            proof {
                reveal_strlit("");
                assert(e.message() =~= "embedding extraction: embedding is not Float32 for doc "@
                    + doc_id@);
            }
            Err(e)
        },
    }
}

/// The stored vector of a row of an optional column; empty without the column.
pub open spec fn optional_vector(
    column: Option<Vec<EmbeddingCell>>,
    row: int,
    doc_id: Seq<char>,
) -> Result<Seq<u32>, Seq<char>> {
    match column {
        Some(c) => cell_vector(c@[row], doc_id),
        None => Ok(Seq::empty()),
    }
}

fn extract_optional(column: &Option<Vec<EmbeddingCell>>, row: usize, doc_id: &str) -> (r: Result<
    Vec<u32>,
    StoreError,
>)
    requires
        column matches Some(c) ==> row < c@.len(),
    ensures
        match r {
            Ok(v) => optional_vector(*column, row as int, doc_id@) == Ok::<Seq<u32>, Seq<char>>(v@),
            Err(e) => optional_vector(*column, row as int, doc_id@) == Err::<Seq<u32>, Seq<char>>(
                e.message(),
            ),
        },
{
    match column {
        Some(c) => extract_embedding_row(c, row, doc_id),
        None => Ok(Vec::new()),
    }
}

/// The hit in row `i` of a batch with all hit columns.
pub open spec fn hit_in_row(
    b: Batch,
    i: int,
    distance: Distance,
    kind: DistanceKind,
    embedding: Seq<u32>,
    clustering_embedding: Seq<u32>,
) -> HitModel {
    HitModel {
        doc_id: b.doc_id->0@[i]@,
        distance,
        distance_kind: kind,
        chunk_index: b.chunk_index->0@[i],
        chunk_count: b.chunk_count->0@[i],
        chunk_token_start: b.chunk_token_start->0@[i],
        doc_token_len: b.doc_token_len->0@[i],
        content: b.content->0@[i]@,
        embedding,
        clustering_embedding,
    }
}

/// The distance in row `i`; zero without a distance column.
pub open spec fn distance_in_row(b: Batch, i: int) -> Distance {
    match b.distance {
        Some(d) => d@[i],
        None => Distance { rank: 0 },
    }
}

/// The vector hit in row `i`, or the failure to extract one of its stored vectors.
pub open spec fn vector_hit(b: Batch, i: int) -> Result<HitModel, Seq<char>> {
    let id = b.doc_id->0@[i]@;
    match optional_vector(b.embedding, i, id) {
        Err(m) => Err(m),
        Ok(e) => match optional_vector(b.clustering_embedding, i, id) {
            Err(m) => Err(m),
            Ok(c) => Ok(
                hit_in_row(b, i, distance_in_row(b, i), DistanceKind::RawCosine, e, c),
            ),
        },
    }
}

/// The vector hits of the first `n` rows, or the first failure among them.
pub open spec fn vector_rows(b: Batch, n: int) -> Result<Seq<HitModel>, Seq<char>>
    decreases n,
{
    if n <= 0 {
        Ok(Seq::empty())
    } else {
        match vector_rows(b, n - 1) {
            Err(m) => Err(m),
            Ok(hits) => match vector_hit(b, n - 1) {
                Err(m) => Err(m),
                Ok(h) => Ok(hits.push(h)),
            },
        }
    }
}

/// The message for a ranked result without distances.
pub open spec fn missing_distance_message() -> Seq<char> {
    "vector search result is missing the `_distance` column — refusing to default distances to 0.0 (would corrupt ranking)"@
}

/// The vector hits of one batch. A ranked result without distances is a failure; a batch that
/// lacks a hit column has no hits.
pub open spec fn vector_batch(b: Batch, require_distance: bool) -> Result<
    Seq<HitModel>,
    Seq<char>,
> {
    if require_distance && b.distance is None && b.rows > 0 {
        Err(missing_distance_message())
    } else if b.has_hit_columns() {
        vector_rows(b, b.rows as int)
    } else {
        Ok(Seq::empty())
    }
}

/// The vector hits of the first `n` batches, or the first failure.
pub open spec fn vector_hits(batches: Seq<Batch>, require_distance: bool, n: int) -> Result<
    Seq<HitModel>,
    Seq<char>,
>
    decreases n,
{
    if n <= 0 {
        Ok(Seq::empty())
    } else {
        match vector_hits(batches, require_distance, n - 1) {
            Err(m) => Err(m),
            Ok(hits) => match vector_batch(batches[n - 1], require_distance) {
                Err(m) => Err(m),
                Ok(more) => Ok(hits + more),
            },
        }
    }
}

/// A failure in the first `n` rows is the failure of all longer prefixes.
proof fn lemma_vector_rows_fail(b: Batch, n: int, m: int)
    requires
        0 <= n <= m,
        vector_rows(b, n) is Err,
    ensures
        vector_rows(b, m) == vector_rows(b, n),
    decreases m,
{
    if n < m {
        lemma_vector_rows_fail(b, n, m - 1);
    }
}

/// A failure in the first `n` batches is the failure of all longer prefixes.
proof fn lemma_vector_hits_fail(batches: Seq<Batch>, require_distance: bool, n: int, m: int)
    requires
        0 <= n <= m,
        vector_hits(batches, require_distance, n) is Err,
    ensures
        vector_hits(batches, require_distance, m) == vector_hits(batches, require_distance, n),
    decreases m,
{
    if n < m {
        lemma_vector_hits_fail(batches, require_distance, n, m - 1);
    }
}

fn push_vector_rows(b: &Batch, out: &mut Vec<ChunkHit>) -> (r: Result<(), StoreError>)
    requires
        b.well_formed(),
        b.has_hit_columns(),
    ensures
        match r {
            Ok(_) => vector_rows(*b, b.rows as int) is Ok && schema::models(final(out)@)
                == schema::models(old(out)@) + vector_rows(*b, b.rows as int)->Ok_0,
            Err(e) => vector_rows(*b, b.rows as int) == Err::<Seq<HitModel>, Seq<char>>(e.message()),
        },
{
    let ghost start = schema::models(out@);
    let mut i: usize = 0;
    assert(schema::models(out@) =~= start + Seq::<HitModel>::empty());
    if let (Some(ids), Some(ci), Some(cc), Some(cts), Some(dtl), Some(cnt)) = (
        &b.doc_id,
        &b.chunk_index,
        &b.chunk_count,
        &b.chunk_token_start,
        &b.doc_token_len,
        &b.content,
    ) {
        while i < b.rows
            invariant
                i <= b.rows,
                b.well_formed(),
                b.has_hit_columns(),
                ids == b.doc_id->0,
                ci == b.chunk_index->0,
                cc == b.chunk_count->0,
                cts == b.chunk_token_start->0,
                dtl == b.doc_token_len->0,
                cnt == b.content->0,
                vector_rows(*b, i as int) is Ok,
                schema::models(out@) == start + vector_rows(*b, i as int)->Ok_0,
            decreases b.rows - i,
        {
            let distance: Distance = match &b.distance {
                Some(d) => d[i],
                None => Distance::zero(),
            };
            let embedding = match extract_optional(&b.embedding, i, ids[i].as_str()) {
                Ok(v) => v,
                Err(e) => {
                    proof {
                        lemma_vector_rows_fail(*b, i + 1, b.rows as int);
                    }
                    return Err(e);
                },
            };
            let clustering_embedding = match extract_optional(
                &b.clustering_embedding,
                i,
                ids[i].as_str(),
            ) {
                Ok(v) => v,
                Err(e) => {
                    proof {
                        lemma_vector_rows_fail(*b, i + 1, b.rows as int);
                    }
                    return Err(e);
                },
            };
            let ghost before = out@;
            out.push(
                ChunkHit {
                    doc_id: ids[i].clone(),
                    distance,
                    distance_kind: DistanceKind::RawCosine,
                    chunk_index: ci[i],
                    chunk_count: cc[i],
                    chunk_token_start: cts[i],
                    doc_token_len: dtl[i],
                    content: cnt[i].clone(),
                    embedding,
                    clustering_embedding,
                },
            );
            proof {
                let h = vector_hit(*b, i as int)->Ok_0;
                assert(out@.last()@ == h);
                assert(schema::models(out@) =~= schema::models(before).push(h));
                assert(start + vector_rows(*b, i + 1)->Ok_0 =~= (start + vector_rows(
                    *b,
                    i as int,
                )->Ok_0).push(h));
            }
            i = i + 1;
        }
    }
    Ok(())
}

/// The vector hits of a scan. A ranked search without a distance column fails rather than default
/// its distances; a plain scan has distance zero throughout.
pub fn batches_to_vector_hits(batches: &Vec<Batch>, require_distance: bool) -> (r: Result<
    Vec<ChunkHit>,
    StoreError,
>)
    requires
        all_well_formed(batches@),
    ensures
        match r {
            Ok(hits) => vector_hits(batches@, require_distance, batches@.len() as int) == Ok::<
                Seq<HitModel>,
                Seq<char>,
            >(schema::models(hits@)),
            Err(e) => vector_hits(batches@, require_distance, batches@.len() as int) == Err::<
                Seq<HitModel>,
                Seq<char>,
            >(e.message()),
        },
{
    let mut hits: Vec<ChunkHit> = Vec::new();
    let mut i: usize = 0;
    assert(schema::models(hits@) =~= Seq::<HitModel>::empty());
    while i < batches.len()
        invariant
            i <= batches.len(),
            all_well_formed(batches@),
            vector_hits(batches@, require_distance, i as int) == Ok::<Seq<HitModel>, Seq<char>>(
                schema::models(hits@),
            ),
        decreases batches.len() - i,
    {
        let b = &batches[i];
        if require_distance && b.distance.is_none() && b.rows > 0 {
            proof {
                lemma_vector_hits_fail(
                    batches@,
                    require_distance,
                    i + 1,
                    batches@.len() as int,
                );
            }
            let message =
                "vector search result is missing the `_distance` column — refusing to default distances to 0.0 (would corrupt ranking)".to_owned();
            return Err(StoreError::Internal(message));
        }
        let complete = b.doc_id.is_some() && b.chunk_index.is_some() && b.chunk_count.is_some()
            && b.chunk_token_start.is_some() && b.doc_token_len.is_some() && b.content.is_some();
        if complete {
            match push_vector_rows(b, &mut hits) {
                Ok(_) => {},
                Err(e) => {
                    proof {
                        lemma_vector_hits_fail(
                            batches@,
                            require_distance,
                            i + 1,
                            batches@.len() as int,
                        );
                    }
                    return Err(e);
                },
            }
        } else {
            assert(schema::models(hits@) + Seq::<HitModel>::empty() =~= schema::models(hits@));
        }
        i = i + 1;
    }
    Ok(hits)
}

/// The full-text distance in row `i`; one without a score column.
pub open spec fn score_distance_in_row(b: Batch, i: int) -> Distance {
    match b.score_distance {
        Some(d) => d@[i],
        None => Distance { rank: 0x3f80_0000 },
    }
}

/// The full-text hits of one batch; none when it lacks a hit column.
pub open spec fn fts_batch(b: Batch) -> Seq<HitModel> {
    if b.has_hit_columns() {
        Seq::new(
            b.rows as nat,
            |i: int|
                hit_in_row(
                    b,
                    i,
                    score_distance_in_row(b, i),
                    DistanceKind::Normalised,
                    Seq::empty(),
                    Seq::empty(),
                ),
        )
    } else {
        Seq::empty()
    }
}

/// The full-text hits of the first `n` batches.
pub open spec fn fts_hits(batches: Seq<Batch>, n: int) -> Seq<HitModel>
    decreases n,
{
    if n <= 0 {
        Seq::empty()
    } else {
        fts_hits(batches, n - 1) + fts_batch(batches[n - 1])
    }
}

/// The hits of a full-text scan, in scan order.
pub fn batches_to_fts_hits(batches: &Vec<Batch>) -> (hits: Vec<ChunkHit>)
    requires
        all_well_formed(batches@),
    ensures
        schema::models(hits@) == fts_hits(batches@, batches@.len() as int),
{
    let mut hits: Vec<ChunkHit> = Vec::new();
    let mut i: usize = 0;
    assert(schema::models(hits@) =~= Seq::<HitModel>::empty());
    while i < batches.len()
        invariant
            i <= batches.len(),
            all_well_formed(batches@),
            schema::models(hits@) == fts_hits(batches@, i as int),
        decreases batches.len() - i,
    {
        let b = &batches[i];
        let ghost start = schema::models(hits@);
        if let (Some(ids), Some(ci), Some(cc), Some(cts), Some(dtl), Some(cnt)) = (
            &b.doc_id,
            &b.chunk_index,
            &b.chunk_count,
            &b.chunk_token_start,
            &b.doc_token_len,
            &b.content,
        ) {
            let mut k: usize = 0;
            assert(schema::models(hits@) =~= start + fts_batch(*b).take(0));
            while k < b.rows
                invariant
                    k <= b.rows,
                    b.well_formed(),
                    b.has_hit_columns(),
                    ids == b.doc_id->0,
                    ci == b.chunk_index->0,
                    cc == b.chunk_count->0,
                    cts == b.chunk_token_start->0,
                    dtl == b.doc_token_len->0,
                    cnt == b.content->0,
                    schema::models(hits@) == start + fts_batch(*b).take(k as int),
                decreases b.rows - k,
            {
                let distance: Distance = match &b.score_distance {
                    Some(d) => d[k],
                    None => Distance { rank: 0x3f80_0000 },
                };
                let ghost before = hits@;
                hits.push(
                    ChunkHit {
                        doc_id: ids[k].clone(),
                        distance,
                        distance_kind: DistanceKind::Normalised,
                        chunk_index: ci[k],
                        chunk_count: cc[k],
                        chunk_token_start: cts[k],
                        doc_token_len: dtl[k],
                        content: cnt[k].clone(),
                        embedding: Vec::new(),
                        clustering_embedding: Vec::new(),
                    },
                );
                proof {
                    let h = fts_batch(*b)[k as int];
                    assert(hits@.last()@.embedding =~= Seq::<u32>::empty());
                    assert(hits@.last()@.clustering_embedding =~= Seq::<u32>::empty());
                    assert(hits@.last()@ == h);
                    assert(schema::models(hits@) =~= schema::models(before).push(h));
                    assert(start + fts_batch(*b).take(k + 1) =~= (start + fts_batch(*b).take(
                        k as int,
                    )).push(h));
                }
                k = k + 1;
            }
            assert(fts_batch(*b).take(b.rows as int) =~= fts_batch(*b));
        } else {
            assert(start + fts_batch(*b) =~= start);
        }
        i = i + 1;
    }
    hits
}

/// Each full-text hit of a batch stands for its own row: there is one hit per row, in the order of
/// the rows, and hit `i` has the `i`-th value of every column, its own score distance among them.
/// Without a score column the distance is one. A batch that lacks a hit column has no hits.
pub proof fn full_text_hits_stand_for_their_rows(b: Batch, hits: Seq<ChunkHit>)
    requires
        schema::models(hits) == fts_hits(seq![b], 1),
    ensures
        b.doc_id is None || b.chunk_index is None || b.chunk_count is None
            || b.chunk_token_start is None || b.doc_token_len is None || b.content is None
            ==> hits.len() == 0,
        b.doc_id is Some && b.chunk_index is Some && b.chunk_count is Some
            && b.chunk_token_start is Some && b.doc_token_len is Some && b.content is Some ==> {
            &&& hits.len() == b.rows
            &&& forall|i: int|
                0 <= i < b.rows ==> {
                    &&& (#[trigger] hits[i]).doc_id@ == b.doc_id->0@[i]@
                    &&& hits[i].chunk_index == b.chunk_index->0@[i]
                    &&& hits[i].chunk_count == b.chunk_count->0@[i]
                    &&& hits[i].chunk_token_start == b.chunk_token_start->0@[i]
                    &&& hits[i].doc_token_len == b.doc_token_len->0@[i]
                    &&& hits[i].content@ == b.content->0@[i]@
                    &&& hits[i].distance_kind == DistanceKind::Normalised
                    &&& b.score_distance is Some ==> hits[i].distance == b.score_distance->0@[i]
                    &&& b.score_distance is None ==> hits[i].distance.rank == 0x3f80_0000
                    &&& hits[i].embedding@.len() == 0
                    &&& hits[i].clustering_embedding@.len() == 0
                }
        },
{
    let one = seq![b];
    reveal_with_fuel(fts_hits, 2);
    assert(fts_hits(one, 1) =~= fts_batch(b));
    let m = schema::models(hits);
    assert(m.len() == hits.len());
    assert forall|i: int| 0 <= i < hits.len() implies m[i] == (#[trigger] hits[i])@ by {}
}

/// Full-text hits of two rows with different score distances have different distances, ordered as
/// the score distances are.
pub proof fn full_text_distances_are_not_mixed_up(b: Batch, hits: Seq<ChunkHit>, i: int, j: int)
    requires
        schema::models(hits) == fts_hits(seq![b], 1),
        b.well_formed(),
        b.doc_id is Some && b.chunk_index is Some && b.chunk_count is Some
            && b.chunk_token_start is Some && b.doc_token_len is Some && b.content is Some,
        b.score_distance is Some,
        0 <= i < b.rows,
        0 <= j < b.rows,
        b.score_distance->0@[i].rank < b.score_distance->0@[j].rank,
    ensures
        hits[i].distance.rank < hits[j].distance.rank,
{
    full_text_hits_stand_for_their_rows(b, hits);
    assert(hits[i].distance == b.score_distance->0@[i]);
    assert(hits[j].distance == b.score_distance->0@[j]);
}

/// Another batch adds its own hits behind those of the batches in front of it, and changes none.
pub proof fn full_text_batches_add_up(
    batches: Seq<Batch>,
    b: Batch,
    before: Seq<ChunkHit>,
    own: Seq<ChunkHit>,
    all: Seq<ChunkHit>,
)
    requires
        schema::models(before) == fts_hits(batches, batches.len() as int),
        schema::models(own) == fts_hits(seq![b], 1),
        schema::models(all) == fts_hits(batches.push(b), batches.push(b).len() as int),
    ensures
        all.len() == before.len() + own.len(),
        forall|k: int|
            0 <= k < before.len() ==> schema::same_hit(#[trigger] all[k], before[k]),
        forall|k: int|
            0 <= k < own.len() ==> schema::same_hit(all[before.len() + k], #[trigger] own[k]),
{
    let n = batches.len() as int;
    lemma_fts_hits_prefix(batches, batches.push(b), n);
    reveal_with_fuel(fts_hits, 2);
    assert(fts_hits(seq![b], 1) =~= fts_batch(b));
    let m = schema::models(all);
    assert(m == schema::models(before) + schema::models(own));
    assert(m.len() == all.len());
    assert forall|k: int| 0 <= k < before.len() implies schema::same_hit(
        #[trigger] all[k],
        before[k],
    ) by {
        assert(m[k] == all[k]@ && m[k] == schema::models(before)[k]);
    }
    assert forall|k: int| 0 <= k < own.len() implies schema::same_hit(
        all[before.len() + k],
        #[trigger] own[k],
    ) by {
        assert(m[before.len() + k] == all[before.len() + k]@);
        assert(m[before.len() + k] == schema::models(own)[k]);
    }
}

proof fn lemma_fts_hits_prefix(a: Seq<Batch>, b: Seq<Batch>, n: int)
    requires
        0 <= n <= a.len(),
        n <= b.len(),
        forall|i: int| 0 <= i < n ==> #[trigger] a[i] == b[i],
    ensures
        fts_hits(a, n) == fts_hits(b, n),
    decreases n,
{
    if n > 0 {
        lemma_fts_hits_prefix(a, b, n - 1);
        assert(a[n - 1] == b[n - 1]);
    }
}

/// A stored vector can be read from every slot of a column, or there is no such column.
pub open spec fn all_readable(column: Option<Vec<EmbeddingCell>>, rows: int) -> bool {
    match column {
        None => true,
        Some(c) => forall|i: int|
            0 <= i < rows ==> !(#[trigger] c@[i]).null && c@[i].values is Some,
    }
}

proof fn lemma_vector_rows(b: Batch, n: int)
    requires
        b.well_formed(),
        0 <= n <= b.rows,
    ensures
        vector_rows(b, n) is Ok <==> all_readable(b.embedding, n) && all_readable(
            b.clustering_embedding,
            n,
        ),
        vector_rows(b, n) matches Ok(hits) ==> hits.len() == n && forall|i: int|
            0 <= i < n ==> vector_hit(b, i) == Ok::<HitModel, Seq<char>>(#[trigger] hits[i]),
    decreases n,
{
    if n > 0 {
        lemma_vector_rows(b, n - 1);
        let id = b.doc_id->0@[n - 1]@;
        if b.embedding is Some {
            assert(optional_vector(b.embedding, n - 1, id) is Ok <==> !b.embedding->0@[n - 1].null
                && b.embedding->0@[n - 1].values is Some);
        }
        if b.clustering_embedding is Some {
            assert(optional_vector(b.clustering_embedding, n - 1, id) is Ok
                <==> !b.clustering_embedding->0@[n - 1].null
                && b.clustering_embedding->0@[n - 1].values is Some);
        }
    }
}

/// Each vector hit of a batch stands for its own row: there is one hit per row, in the order of the
/// rows, and hit `i` has the `i`-th value of every column: its distance where there are distances,
/// else zero, and both of its stored vectors where these are scanned. It fails where a stored vector
/// cannot be read, and where distances are asked for and there are none.
pub proof fn vector_hits_stand_for_their_rows(
    b: Batch,
    require_distance: bool,
    hits: Seq<ChunkHit>,
)
    requires
        b.well_formed(),
        b.doc_id is Some && b.chunk_index is Some && b.chunk_count is Some
            && b.chunk_token_start is Some && b.doc_token_len is Some && b.content is Some,
    ensures
        vector_hits(seq![b], require_distance, 1) is Ok <==> all_readable(
            b.embedding,
            b.rows as int,
        ) && all_readable(b.clustering_embedding, b.rows as int) && (require_distance ==> b.rows == 0
            || b.distance is Some),
        vector_hits(seq![b], require_distance, 1) == Ok::<Seq<HitModel>, Seq<char>>(
            schema::models(hits),
        ) ==> {
            &&& hits.len() == b.rows
            &&& forall|i: int|
                0 <= i < b.rows ==> {
                    &&& (#[trigger] hits[i]).doc_id@ == b.doc_id->0@[i]@
                    &&& hits[i].chunk_index == b.chunk_index->0@[i]
                    &&& hits[i].chunk_count == b.chunk_count->0@[i]
                    &&& hits[i].chunk_token_start == b.chunk_token_start->0@[i]
                    &&& hits[i].doc_token_len == b.doc_token_len->0@[i]
                    &&& hits[i].content@ == b.content->0@[i]@
                    &&& hits[i].distance_kind == DistanceKind::RawCosine
                    &&& b.distance is Some ==> hits[i].distance == b.distance->0@[i]
                    &&& b.distance is None ==> hits[i].distance.rank == 0
                    &&& b.embedding is Some ==> hits[i].embedding@
                        == b.embedding->0@[i].values->0@
                    &&& b.embedding is None ==> hits[i].embedding@.len() == 0
                    &&& b.clustering_embedding is Some ==> hits[i].clustering_embedding@
                        == b.clustering_embedding->0@[i].values->0@
                    &&& b.clustering_embedding is None ==> hits[i].clustering_embedding@.len() == 0
                }
        },
{
    reveal_with_fuel(vector_hits, 2);
    lemma_vector_rows(b, b.rows as int);
    if vector_batch(b, require_distance) is Ok {
        let one = vector_batch(b, require_distance)->Ok_0;
        assert(Seq::<HitModel>::empty() + one =~= one);
        let m = schema::models(hits);
        assert(m.len() == hits.len());
        assert forall|i: int| 0 <= i < hits.len() implies m[i] == (#[trigger] hits[i])@ by {}
    }
}

/// Another batch adds its own vector hits behind those of the batches in front of it, and changes
/// none. All fail together with any of them.
pub proof fn vector_batches_add_up(
    batches: Seq<Batch>,
    b: Batch,
    require_distance: bool,
    before: Seq<ChunkHit>,
    own: Seq<ChunkHit>,
    all: Seq<ChunkHit>,
)
    ensures
        vector_hits(batches.push(b), require_distance, batches.push(b).len() as int) is Ok <==> vector_hits(
            batches,
            require_distance,
            batches.len() as int,
        ) is Ok && vector_hits(seq![b], require_distance, 1) is Ok,
        vector_hits(batches, require_distance, batches.len() as int) == Ok::<
            Seq<HitModel>,
            Seq<char>,
        >(schema::models(before)) && vector_hits(seq![b], require_distance, 1) == Ok::<
            Seq<HitModel>,
            Seq<char>,
        >(schema::models(own)) && vector_hits(
            batches.push(b),
            require_distance,
            batches.push(b).len() as int,
        ) == Ok::<Seq<HitModel>, Seq<char>>(schema::models(all)) ==> {
            &&& all.len() == before.len() + own.len()
            &&& forall|k: int|
                0 <= k < before.len() ==> schema::same_hit(#[trigger] all[k], before[k])
            &&& forall|k: int|
                0 <= k < own.len() ==> schema::same_hit(all[before.len() + k], #[trigger] own[k])
        },
{
    let n = batches.len() as int;
    lemma_vector_hits_prefix(batches, batches.push(b), require_distance, n);
    reveal_with_fuel(vector_hits, 2);
    let part = vector_batch(b, require_distance);
    if part is Ok {
        assert(Seq::<HitModel>::empty() + part->Ok_0 =~= part->Ok_0);
    }
    let m = schema::models(all);
    let x = schema::models(before);
    let y = schema::models(own);
    if vector_hits(batches, require_distance, n) == Ok::<Seq<HitModel>, Seq<char>>(x)
        && vector_hits(seq![b], require_distance, 1) == Ok::<Seq<HitModel>, Seq<char>>(y)
        && vector_hits(batches.push(b), require_distance, n + 1) == Ok::<Seq<HitModel>, Seq<char>>(
        m,
    ) {
        assert(m == x + y);
        assert(m.len() == all.len());
        assert forall|k: int| 0 <= k < before.len() implies schema::same_hit(
            #[trigger] all[k],
            before[k],
        ) by {
            assert(m[k] == all[k]@ && m[k] == x[k]);
        }
        assert forall|k: int| 0 <= k < own.len() implies schema::same_hit(
            all[before.len() + k],
            #[trigger] own[k],
        ) by {
            assert(m[before.len() + k] == all[before.len() + k]@);
            assert(m[before.len() + k] == y[k]);
        }
    }
}

proof fn lemma_vector_hits_prefix(a: Seq<Batch>, b: Seq<Batch>, require_distance: bool, n: int)
    requires
        0 <= n <= a.len(),
        n <= b.len(),
        forall|i: int| 0 <= i < n ==> #[trigger] a[i] == b[i],
    ensures
        vector_hits(a, require_distance, n) == vector_hits(b, require_distance, n),
    decreases n,
{
    if n > 0 {
        lemma_vector_hits_prefix(a, b, require_distance, n - 1);
        assert(a[n - 1] == b[n - 1]);
    }
}


/// A vector that is absent or is none of single-precision numbers is an error that names the
/// document; any other is read as it is.
pub proof fn unreadable_vectors_are_told_by_document(cell: EmbeddingCell, doc_id: Seq<char>)
    ensures
        cell.null || cell.values is None ==> cell_vector(cell, doc_id) is Err,
        cell_vector(cell, doc_id) is Err ==> cell_vector(cell, doc_id)->Err_0.skip(
            cell_vector(cell, doc_id)->Err_0.len() - doc_id.len(),
        ) == doc_id,
        !cell.null && cell.values is Some ==> cell_vector(cell, doc_id) == Ok::<
            Seq<u32>,
            Seq<char>,
        >(cell.values->0@),
{
    if cell_vector(cell, doc_id) is Err {
        let m = cell_vector(cell, doc_id)->Err_0;
        assert(m.skip(m.len() - doc_id.len()) =~= doc_id);
    }
}

/// Where distances are required none is made up: a batch with rows but without distances fails the
/// reading.
pub proof fn distances_are_not_made_up(batches: Seq<Batch>, n: int, i: int)
    requires
        0 <= i < n <= batches.len(),
        vector_hits(batches, true, n) is Ok,
    ensures
        batches[i].rows == 0 || batches[i].distance is Some,
    decreases n,
{
    if i < n - 1 {
        distances_are_not_made_up(batches, n - 1, i);
    }
}

} // verus!
