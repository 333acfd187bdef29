//! Types and constants of the store.

use crate::distance::Distance;
use crate::text;
use vstd::prelude::*;
use vstd::string::*;

verus! {

/// Default branch of a dataset.
pub const MAIN_BRANCH: &'static str = "main";

/// Reserved prefix of internal branches.
pub const RESERVED_PREFIX: &'static str = ".-";

/// Reserved prefix of rebuild branches.
pub const COMPACT_REBUILD_PREFIX: &'static str = ".-compact_rebuild_";

/// Upper bound on the number of points a near-duplicate scan considers.
pub const DEFAULT_DUPLICATE_MAX_POINTS: usize = 50_000;

/// Upper bound on the number of document pairs a near-duplicate scan reports.
pub const DEFAULT_DUPLICATE_MAX_PAIRS: usize = 10_000;

/// A failure of the store.
#[derive(Debug, Clone)]
pub enum StoreError {
    /// An internal failure, with its message.
    Internal(String),
}

impl StoreError {
    /// The message of the failure.
    pub open spec fn message(&self) -> Seq<char> {
        match self {
            StoreError::Internal(m) => m@,
        }
    }
}

/// The error with the message `a` + `b` + `c`.
pub fn internal(a: &str, b: &str, c: &str) -> (e: StoreError)
    ensures
        e.message() == a@ + b@ + c@,
{
    let mut m = a.to_owned();
    m.append(b);
    m.append(c);
    StoreError::Internal(m)
}

/// How a search ranks its hits.
#[derive(Debug, Clone, Copy, PartialEq, Eq, Structural)]
pub enum SearchMode {
    Vector,
    Fts,
    Hybrid,
}

/// A chunk row. Embedding components are single-precision bit patterns.
#[derive(Debug, Clone)]
pub struct ChunkRow {
    pub doc_id: String,
    pub doc_type: String,
    pub chunk_index: i32,
    pub chunk_count: i32,
    pub chunk_token_start: i32,
    pub doc_token_len: i32,
    pub embedding: Vec<u32>,
    /// Clustering-role embedding; stored, indexed only where clustering is enabled.
    pub clustering_embedding: Vec<u32>,
    pub content: String,
}

/// Search query parameters.
#[derive(Debug, Clone)]
pub struct SearchQuery {
    pub query_embedding: Vec<u32>,
    pub query_text: String,
    pub mode: SearchMode,
    pub start: usize,
    pub count: usize,
    pub doc_type_filter: Vec<String>,
    pub doc_id_filter: Vec<String>,
    pub snippet: bool,
}

/// Suggest (typeahead) query parameters.
#[derive(Debug, Clone)]
pub struct SuggestQuery {
    pub query_text: String,
    pub count: usize,
    pub doc_type_filter: Vec<String>,
    pub doc_id_filter: Vec<String>,
}

/// A document-level suggest hit with snippet and next words for smart compose.
#[derive(Debug, Clone)]
pub struct SuggestHit {
    pub id: String,
    /// The matched chunk content.
    pub snippet: Option<String>,
    /// Start byte offset of the query match within `snippet`.
    pub match_start: Option<usize>,
    /// End byte offset of the query match within `snippet`.
    pub match_end: Option<usize>,
    /// Likely next words after the query match, nearest first.
    pub next_words: Vec<String>,
}

/// Result of a suggest (typeahead) operation.
#[derive(Debug, Clone)]
pub struct SuggestResult {
    pub total_approx: usize,
    pub completions: Vec<String>,
    pub hits: Vec<SuggestHit>,
}

/// Whether the distance of a hit is raw or already normalised.
#[derive(Debug, Clone, Copy, PartialEq, Eq, Structural)]
pub enum DistanceKind {
    /// Raw cosine distance in `[0, 2]`.
    RawCosine,
    /// Already normalised to `[0, 1]`.
    Normalised,
}

/// Chunk-level hit, before the reduction to documents.
#[derive(Debug, Clone)]
pub struct ChunkHit {
    pub doc_id: String,
    pub distance: Distance,
    pub distance_kind: DistanceKind,
    pub chunk_index: i32,
    pub chunk_count: i32,
    pub chunk_token_start: i32,
    pub doc_token_len: i32,
    pub content: String,
    /// Stored document-role embedding, filled by the plain chunk lookup only.
    pub embedding: Vec<u32>,
    /// Stored clustering-role embedding, filled by the plain chunk lookup only.
    pub clustering_embedding: Vec<u32>,
}

/// The contents of a [`ChunkHit`].
pub struct HitModel {
    pub doc_id: Seq<char>,
    pub distance: Distance,
    pub distance_kind: DistanceKind,
    pub chunk_index: i32,
    pub chunk_count: i32,
    pub chunk_token_start: i32,
    pub doc_token_len: i32,
    pub content: Seq<char>,
    pub embedding: Seq<u32>,
    pub clustering_embedding: Seq<u32>,
}

impl View for ChunkHit {
    type V = HitModel;

    open spec fn view(&self) -> HitModel {
        HitModel {
            doc_id: self.doc_id@,
            distance: self.distance,
            distance_kind: self.distance_kind,
            chunk_index: self.chunk_index,
            chunk_count: self.chunk_count,
            chunk_token_start: self.chunk_token_start,
            doc_token_len: self.doc_token_len,
            content: self.content@,
            embedding: self.embedding@,
            clustering_embedding: self.clustering_embedding@,
        }
    }
}

/// The contents of a [`ChunkRow`].
pub struct RowModel {
    pub doc_id: Seq<char>,
    pub doc_type: Seq<char>,
    pub chunk_index: i32,
    pub chunk_count: i32,
    pub chunk_token_start: i32,
    pub doc_token_len: i32,
    pub embedding: Seq<u32>,
    pub clustering_embedding: Seq<u32>,
    pub content: Seq<char>,
}

impl View for ChunkRow {
    type V = RowModel;

    open spec fn view(&self) -> RowModel {
        RowModel {
            doc_id: self.doc_id@,
            doc_type: self.doc_type@,
            chunk_index: self.chunk_index,
            chunk_count: self.chunk_count,
            chunk_token_start: self.chunk_token_start,
            doc_token_len: self.doc_token_len,
            embedding: self.embedding@,
            clustering_embedding: self.clustering_embedding@,
            content: self.content@,
        }
    }
}

/// The views of a list of values.
pub open spec fn models<T: View>(s: Seq<T>) -> Seq<T::V> {
    s.map_values(|t: T| t@)
}

/// Two hits hold the same, field by field.
pub open spec fn same_hit(a: ChunkHit, b: ChunkHit) -> bool {
    &&& a.doc_id@ == b.doc_id@
    &&& a.distance == b.distance
    &&& a.distance_kind == b.distance_kind
    &&& a.chunk_index == b.chunk_index
    &&& a.chunk_count == b.chunk_count
    &&& a.chunk_token_start == b.chunk_token_start
    &&& a.doc_token_len == b.doc_token_len
    &&& a.content@ == b.content@
    &&& a.embedding@ == b.embedding@
    &&& a.clustering_embedding@ == b.clustering_embedding@
}

/// Two rows hold the same, field by field.
pub open spec fn same_row(a: ChunkRow, b: ChunkRow) -> bool {
    &&& a.doc_id@ == b.doc_id@
    &&& a.doc_type@ == b.doc_type@
    &&& a.chunk_index == b.chunk_index
    &&& a.chunk_count == b.chunk_count
    &&& a.chunk_token_start == b.chunk_token_start
    &&& a.doc_token_len == b.doc_token_len
    &&& a.embedding@ == b.embedding@
    &&& a.clustering_embedding@ == b.clustering_embedding@
    &&& a.content@ == b.content@
}

/// Equal contents are equal fields, and the other way round: nothing of a hit or a row is left out
/// of its contents, and nothing in them stands for something else.
pub proof fn contents_are_fields(g: ChunkHit, h: ChunkHit, a: ChunkRow, b: ChunkRow)
    ensures
        g@ == h@ <==> same_hit(g, h),
        a@ == b@ <==> same_row(a, b),
        h@.doc_id == h.doc_id@,
        h@.distance == h.distance,
        h@.distance_kind == h.distance_kind,
        h@.chunk_index == h.chunk_index,
        h@.chunk_count == h.chunk_count,
        h@.chunk_token_start == h.chunk_token_start,
        h@.doc_token_len == h.doc_token_len,
        h@.content == h.content@,
        h@.embedding == h.embedding@,
        h@.clustering_embedding == h.clustering_embedding@,
        b@.doc_id == b.doc_id@,
        b@.doc_type == b.doc_type@,
        b@.chunk_index == b.chunk_index,
        b@.chunk_count == b.chunk_count,
        b@.chunk_token_start == b.chunk_token_start,
        b@.doc_token_len == b.doc_token_len,
        b@.embedding == b.embedding@,
        b@.clustering_embedding == b.clustering_embedding@,
        b@.content == b.content@,
{
}

/// Position of a hit's chunk in its document.
#[derive(Debug, Clone)]
pub struct ChunkInfo {
    pub index: u32,
    pub count: u32,
    pub token_start: u32,
    pub doc_token_len: u32,
    pub snippet: Option<String>,
}

/// Document-level search hit.
#[derive(Debug, Clone)]
pub struct SearchHit {
    pub id: String,
    pub distance: Distance,
    pub chunk: ChunkInfo,
}

/// A nearest-neighbour observation between two chunks, on the normalised distance scale.
#[derive(Debug, Clone)]
pub struct NeighbourObservation {
    pub doc_a: String,
    pub doc_b: String,
    pub normalized_distance: Distance,
    pub content_a: Option<String>,
    pub content_b: Option<String>,
}

/// One document of a near-duplicate pair.
#[derive(Debug, Clone)]
pub struct DuplicateMember {
    pub id: String,
    pub snippet: Option<String>,
}

/// A near-duplicate pair: two members, the smaller id first.
#[derive(Debug, Clone)]
pub struct DuplicateGroup {
    pub group: Vec<DuplicateMember>,
    pub distance: Distance,
}

/// A neighbouring document and its normalised distance.
#[derive(Debug, Clone)]
pub struct Neighbour {
    pub id: String,
    pub distance: Distance,
}

/// The neighbours of one document.
#[derive(Debug, Clone)]
pub struct NeighbourList {
    pub id: String,
    pub neighbours: Vec<Neighbour>,
}

/// The two directional neighbour maps of entity resolution, one entry per document.
#[derive(Debug, Clone)]
pub struct ResolveNeighbourMaps {
    /// For each document of the set: its nearest documents in the target population.
    pub set_to_target: Vec<NeighbourList>,
    /// For each document of the target: its nearest documents in the set population.
    pub target_to_set: Vec<NeighbourList>,
}

/// Scope of a near-duplicate scan: the set population, and optionally a target population. Every
/// reported neighbour belongs to the target where there is one, else to the set. Empty set lists
/// stand for the whole snapshot.
#[derive(Debug, Clone)]
pub struct DuplicateScope {
    pub set_doc_types: Vec<String>,
    pub set_doc_ids: Vec<String>,
    pub target_doc_types: Vec<String>,
    pub target_doc_ids: Vec<String>,
}

impl Default for DuplicateScope {
    /// The whole snapshot, without a target.
    fn default() -> (r: Self)
        ensures
            r.set_doc_types@.len() == 0,
            r.set_doc_ids@.len() == 0,
            r.target_doc_types@.len() == 0,
            r.target_doc_ids@.len() == 0,
    {
        DuplicateScope {
            set_doc_types: Vec::new(),
            set_doc_ids: Vec::new(),
            target_doc_types: Vec::new(),
            target_doc_ids: Vec::new(),
        }
    }
}

impl DuplicateScope {
    /// Whether a distinct target population is configured.
    pub open spec fn targets(&self) -> bool {
        self.target_doc_types@.len() > 0 || self.target_doc_ids@.len() > 0
    }

    /// Whether a distinct target population is configured.
    pub fn has_target(&self) -> (r: bool)
        ensures
            r == self.targets(),
    {
        !self.target_doc_types.is_empty() || !self.target_doc_ids.is_empty()
    }
}

/// A branch name in the reserved rebuild namespace.
pub open spec fn names_rebuild_branch(branch: Seq<char>) -> bool {
    COMPACT_REBUILD_PREFIX@.is_prefix_of(branch)
}

/// A branch name in the reserved namespace.
pub open spec fn names_reserved_branch(branch: Seq<char>) -> bool {
    RESERVED_PREFIX@.is_prefix_of(branch)
}

/// The name of the rebuild branch of an epoch.
pub open spec fn rebuild_branch_name(epoch: nat) -> Seq<char> {
    COMPACT_REBUILD_PREFIX@ + text::decimal(epoch)
}

/// The name of the rebuild branch of an epoch.
pub fn compact_rebuild_branch_name(epoch: u64) -> (r: String)
    ensures
        r@ == rebuild_branch_name(epoch as nat),
{
    let mut name = COMPACT_REBUILD_PREFIX.to_owned();
    text::push_decimal(&mut name, epoch);
    name
}

/// Whether a branch name belongs to the reserved rebuild namespace.
pub fn is_compact_rebuild_branch(branch: &str) -> (r: bool)
    ensures
        r == names_rebuild_branch(branch@),
{
    text::has_prefix(branch, COMPACT_REBUILD_PREFIX)
}

/// Whether a branch name is in the reserved namespace.
pub fn is_reserved_branch_name(branch: &str) -> (r: bool)
    ensures
        r == names_reserved_branch(branch@),
{
    text::has_prefix(branch, RESERVED_PREFIX)
}

/// Every rebuild branch is recognised as one, and lies in the reserved namespace.
pub proof fn rebuild_branches_are_reserved(epoch: nat)
    ensures
        names_rebuild_branch(rebuild_branch_name(epoch)),
        names_reserved_branch(rebuild_branch_name(epoch)),
{
    assert(rebuild_branch_name(epoch).subrange(0, COMPACT_REBUILD_PREFIX@.len() as int)
        =~= COMPACT_REBUILD_PREFIX@);
    rebuild_names_are_reserved_names(rebuild_branch_name(epoch));
}

/// The rebuild namespace is part of the reserved one.
pub proof fn rebuild_names_are_reserved_names(branch: Seq<char>)
    requires
        names_rebuild_branch(branch),
    ensures
        names_reserved_branch(branch),
{
    reveal_strlit(".-");
    reveal_strlit(".-compact_rebuild_");
    let p = COMPACT_REBUILD_PREFIX@;
    assert(branch.subrange(0, p.len() as int)[0] == branch[0]);
    assert(branch.subrange(0, p.len() as int)[1] == branch[1]);
    assert(branch.subrange(0, 2) =~= RESERVED_PREFIX@);
}

/// The default branch is never a reserved one.
pub proof fn main_is_not_reserved()
    ensures
        !names_reserved_branch(MAIN_BRANCH@),
        !names_rebuild_branch(MAIN_BRANCH@),
{
    reveal_strlit("main");
    reveal_strlit(".-");
    if names_reserved_branch(MAIN_BRANCH@) {
        assert(MAIN_BRANCH@.subrange(0, 2)[0] == '.');
    }
    if names_rebuild_branch(MAIN_BRANCH@) {
        rebuild_names_are_reserved_names(MAIN_BRANCH@);
    }
}

/// Different epochs have different rebuild branches.
pub proof fn epochs_have_distinct_branches(a: nat, b: nat)
    requires
        rebuild_branch_name(a) == rebuild_branch_name(b),
    ensures
        a == b,
{
    let n = COMPACT_REBUILD_PREFIX@.len() as int;
    assert(rebuild_branch_name(a).skip(n) =~= text::decimal(a));
    assert(rebuild_branch_name(b).skip(n) =~= text::decimal(b));
    text::decimal_is_injective(a, b);
}

} // verus!
