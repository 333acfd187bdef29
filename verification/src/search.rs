//! Search planning and result fusion: over-fetching, full-text fallbacks and reciprocal rank fusion.

use crate::batch;
use crate::dedup;
use crate::distance;
use crate::grouping;
use crate::order;
use crate::order::Ranked;
use crate::schema;
use crate::schema::{ChunkHit, DistanceKind, HitModel, SearchHit, SearchMode, StoreError};
use crate::text;
use vstd::prelude::*;
use vstd::string::*;

verus! {

/// The smaller of a number and the largest `usize`.
pub open spec fn saturated(n: int) -> int {
    if n <= usize::MAX {
        n
    } else {
        usize::MAX as int
    }
}

/// How many rows a search fetches: three times the requested range, to allow for several chunks
/// per document.
pub fn overfetch(start: usize, count: usize) -> (k: usize)
    ensures
        k == saturated(3 * saturated(start + count)),
        3 * (start + count) <= usize::MAX ==> k == 3 * (start + count),
{
    let range = start.saturating_add(count);
    match range.checked_mul(3) {
        Some(k) => k,
        None => usize::MAX,
    }
}

/// An over-fetch is never smaller than the requested range.
pub proof fn overfetch_covers_the_range(start: usize, count: usize)
    ensures
        start + count <= usize::MAX ==> saturated(3 * saturated(start + count)) >= start + count,
{
}

/// A failure message that says that the full-text index does not exist.
pub open spec fn tells_missing_index(message: Seq<char>) -> bool {
    text::occurs(message, "INVERTED index"@) || text::occurs(message, "full text search"@)
}

/// Whether a failure message says that the full-text index does not exist.
pub fn is_missing_index(message: &str) -> (r: bool)
    ensures
        r == tells_missing_index(message@),
{
    text::has_substring(message, "INVERTED index") || text::has_substring(
        message,
        "full text search",
    )
}

/// The hits of a full-text search whose scan failed: none when the index does not exist at the
/// searched version, else the failure.
pub fn hits_of_failed_fts(stage: &str, message: &str) -> (r: Result<Vec<ChunkHit>, StoreError>)
    ensures
        match r {
            Ok(hits) => tells_missing_index(message@) && hits@.len() == 0,
            Err(e) => !tells_missing_index(message@) && e.message() == stage@ + message@,
        },
        r matches Err(e) ==> stage@.is_prefix_of(e.message()) && message@.is_suffix_of(e.message()),
{
    if is_missing_index(message) {
        Ok(Vec::new())
    } else {
        let mut m = stage.to_owned();
        m.append(message);
        proof {
            assert(m@.subrange(0, stage@.len() as int) =~= stage@);
            assert(m@.subrange(m@.len() - message@.len(), m@.len() as int) =~= message@);
        }
        Err(StoreError::Internal(m))
    }
}

/// The searches that a mode calls for.
pub struct SearchPlan {
    pub vector: bool,
    pub fts: bool,
}

/// The searches that a mode calls for.
pub fn plan_search(mode: SearchMode) -> (p: SearchPlan)
    ensures
        p.vector == (mode != SearchMode::Fts),
        p.fts == (mode != SearchMode::Vector),
        mode == SearchMode::Hybrid <==> p.vector && p.fts,
        mode == SearchMode::Vector <==> p.vector && !p.fts,
        mode == SearchMode::Fts <==> p.fts && !p.vector,
{
    match mode {
        SearchMode::Vector => SearchPlan { vector: true, fts: false },
        SearchMode::Fts => SearchPlan { vector: false, fts: true },
        SearchMode::Hybrid => SearchPlan { vector: true, fts: true },
    }
}

/// Weight of a 0-based rank: `1 / (60 + rank + 1)` in units of 2^-64.
pub open spec fn weight(rank: int) -> int {
    0x1_0000_0000_0000_0000int / (61 + rank)
}

/// The key by which hits are fused: document and chunk.
pub open spec fn fusion_key(h: ChunkHit) -> (Seq<char>, i32) {
    (h.doc_id@, h.chunk_index)
}

/// The rank of position `i` in the list it came from; the first `split` hits are the vector hits.
pub open spec fn rank_in_list(split: int, i: int) -> int {
    if i < split {
        i
    } else {
        i - split
    }
}

/// The fused score of a key over the first `n` hits: the sum of the weights of its ranks.
pub open spec fn score(hits: Seq<ChunkHit>, split: int, key: (Seq<char>, i32), n: int) -> int
    decreases n,
{
    if n <= 0 {
        0
    } else {
        score(hits, split, key, n - 1) + if fusion_key(hits[n - 1]) == key {
            weight(rank_in_list(split, n - 1))
        } else {
            0
        }
    }
}

/// The hit that stands for a key among the first `n`: the last vector hit; without one, the last
/// full-text hit. A full-text hit never displaces a raw cosine one.
pub open spec fn representative(
    hits: Seq<ChunkHit>,
    split: int,
    key: (Seq<char>, i32),
    n: int,
) -> Option<int>
    decreases n,
{
    if n <= 0 {
        None
    } else {
        let earlier = representative(hits, split, key, n - 1);
        if fusion_key(hits[n - 1]) != key {
            earlier
        } else if n - 1 < split {
            Some(n - 1)
        } else {
            match earlier {
                Some(r) => if hits[r].distance_kind == DistanceKind::RawCosine {
                    Some(r)
                } else {
                    Some(n - 1)
                },
                None => Some(n - 1),
            }
        }
    }
}

/// `out` holds the hit that stands for each key once, the highest score first; `from` holds the
/// position of each.
pub open spec fn fuses(
    hits: Seq<ChunkHit>,
    split: int,
    from: Seq<int>,
    out: Seq<HitModel>,
) -> bool {
    &&& from.len() == out.len()
    &&& forall|k: int|
        0 <= k < out.len() ==> 0 <= #[trigger] from[k] < hits.len() && representative(
            hits,
            split,
            fusion_key(hits[from[k]]),
            hits.len() as int,
        ) == Some(from[k]) && out[k] == hits[from[k]]@
    &&& forall|i: int|
        0 <= i < hits.len() ==> is_fused(hits, from, fusion_key(#[trigger] hits[i]))
    &&& forall|j: int, k: int|
        #![trigger from[j], from[k]]
        0 <= j < k < out.len() ==> fusion_key(hits[from[j]]) != fusion_key(hits[from[k]]) && score(
            hits,
            split,
            fusion_key(hits[from[j]]),
            hits.len() as int,
        ) >= score(hits, split, fusion_key(hits[from[k]]), hits.len() as int)
}

/// `out` is the fusion of the vector and the full-text hits.
pub open spec fn is_fusion(
    vector_hits: Seq<ChunkHit>,
    fts_hits: Seq<ChunkHit>,
    out: Seq<HitModel>,
) -> bool {
    exists|from: Seq<int>|
        fuses(vector_hits + fts_hits, vector_hits.len() as int, from, out)
}

/// Some fused hit has the key.
pub open spec fn is_fused(hits: Seq<ChunkHit>, from: Seq<int>, key: (Seq<char>, i32)) -> bool {
    exists|k: int| 0 <= k < from.len() && fusion_key(hits[#[trigger] from[k]]) == key
}

/// A score in descending order.
pub struct Descending {
    pub key: u128,
}

impl Ranked for Descending {
    open spec fn before(a: Self, b: Self) -> bool {
        a.key >= b.key
    }

    proof fn lemma_order(a: Self, b: Self, c: Self) {
    }

    fn is_before(&self, other: &Self) -> (r: bool) {
        self.key >= other.key
    }
}

/// A copy of a hit.
pub fn copy_hit(h: &ChunkHit) -> (r: ChunkHit)
    ensures
        r@ == h@,
{
    ChunkHit {
        doc_id: h.doc_id.clone(),
        distance: h.distance,
        distance_kind: h.distance_kind,
        chunk_index: h.chunk_index,
        chunk_count: h.chunk_count,
        chunk_token_start: h.chunk_token_start,
        doc_token_len: h.doc_token_len,
        content: h.content.clone(),
        embedding: batch::copy_bits(&h.embedding),
        clustering_embedding: batch::copy_bits(&h.clustering_embedding),
    }
}

/// Scores and representatives of all keys, by group number.
struct Fusion {
    scores: Vec<Descending>,
    from: Vec<usize>,
}

/// The keys of a list of hits.
spec fn fusion_keys(hits: Seq<ChunkHit>) -> Seq<(Seq<char>, i32)> {
    hits.map_values(|h: ChunkHit| fusion_key(h))
}

fn accumulate(hits: &Vec<ChunkHit>, split: usize) -> (r: Fusion)
    requires
        split <= hits.len(),
    ensures
        r.scores.len() == r.from.len(),
        forall|g: int|
            #![trigger r.from@[g]]
            0 <= g < r.from.len() ==> {
                &&& r.from@[g] < hits.len()
                &&& representative(
                    hits@,
                    split as int,
                    fusion_key(hits@[r.from@[g] as int]),
                    hits@.len() as int,
                ) == Some(r.from@[g] as int)
                &&& r.scores@[g].key == score(
                    hits@,
                    split as int,
                    fusion_key(hits@[r.from@[g] as int]),
                    hits@.len() as int,
                )
            },
        forall|g: int, h: int|
            #![trigger r.from@[g], r.from@[h]]
            0 <= g < h < r.from.len() ==> fusion_key(hits@[r.from@[g] as int]) != fusion_key(
                hits@[r.from@[h] as int],
            ),
        forall|i: int|
            0 <= i < hits.len() ==> is_fused(
                hits@,
                r.from@.map_values(|x: usize| x as int),
                fusion_key(#[trigger] hits@[i]),
            ),
{
    let n = hits.len();
    let mut ids: Vec<String> = Vec::new();
    let mut chunks: Vec<i32> = Vec::new();
    let mut i: usize = 0;
    while i < n
        invariant
            i <= n,
            n == hits.len(),
            ids.len() == i,
            chunks.len() == i,
            forall|k: int| 0 <= k < i ==> (#[trigger] ids@[k])@ == hits@[k].doc_id@,
            forall|k: int| 0 <= k < i ==> (#[trigger] chunks@[k]) == hits@[k].chunk_index,
        decreases n - i,
    {
        ids.push(hits[i].doc_id.clone());
        chunks.push(hits[i].chunk_index);
        i = i + 1;
    }
    let ghost keys = fusion_keys(hits@);
    assert(grouping::pairs(grouping::views(ids@), chunks@) =~= keys);
    let numbering = grouping::group_numbered_keys(&ids, &chunks);
    let mut scores: Vec<Descending> = Vec::new();
    let mut from: Vec<usize> = Vec::new();
    let mut g: usize = 0;
    while g < numbering.count
        invariant
            g <= numbering.count,
            scores.len() == g,
            from.len() == g,
            forall|h: int| 0 <= h < g ==> (#[trigger] scores@[h]).key == 0,
            forall|h: int| 0 <= h < g ==> (#[trigger] from@[h]) == n,
        decreases numbering.count - g,
    {
        scores.push(Descending { key: 0 });
        from.push(n);
        g = g + 1;
    }
    let mut i: usize = 0;
    while i < n
        invariant
            i <= n,
            n == hits.len(),
            split <= n,
            keys == fusion_keys(hits@),
            numbering.fits(keys),
            scores.len() == numbering.count,
            from.len() == numbering.count,
            forall|j: int|
                #![trigger numbering.group_of@[j]]
                0 <= j < n ==> {
                    let g = numbering.group_of@[j] as int;
                    &&& scores@[g].key == score(hits@, split as int, keys[j], i as int)
                    &&& scores@[g].key <= i * 0x800_0000_0000_0000
                    &&& match representative(hits@, split as int, keys[j], i as int) {
                        Some(r) => from@[g] == r && 0 <= r < i && keys[r] == keys[j],
                        None => from@[g] == n,
                    }
                },
        decreases n - i,
    {
        let group = numbering.group_of[i];
        let rank: usize = if i < split {
            i
        } else {
            i - split
        };
        let w: u128 = 0x1_0000_0000_0000_0000u128 / (61 + (rank as u128));
        proof {
            assert(w == weight(rank_in_list(split as int, i as int)));
            assert(w <= 0x800_0000_0000_0000) by (nonlinear_arith)
                requires
                    w == 0x1_0000_0000_0000_0000int / (61 + rank),
            ;
            assert(scores@[group as int].key <= i * 0x800_0000_0000_0000);
        }
        let ghost old_scores = scores@;
        let ghost old_from = from@;
        let total = scores[group].key + w;
        scores.set(group, Descending { key: total });
        let current = from[group];
        if i < split || current == n {
            from.set(group, i);
        } else {
            match hits[current].distance_kind {
                DistanceKind::RawCosine => {},
                DistanceKind::Normalised => {
                    from.set(group, i);
                },
            }
        }
        proof {
            assert forall|j: int| #![trigger numbering.group_of@[j]] 0 <= j < n implies {
                let g = numbering.group_of@[j] as int;
                &&& scores@[g].key == score(hits@, split as int, keys[j], i + 1)
                &&& scores@[g].key <= (i + 1) * 0x800_0000_0000_0000
                &&& match representative(hits@, split as int, keys[j], i + 1) {
                    Some(r) => from@[g] == r && 0 <= r < i + 1 && keys[r] == keys[j],
                    None => from@[g] == n,
                }
            } by {
                assert(keys[i as int] == fusion_key(hits@[i as int]));
                assert(numbering.group_of@[i as int] == group);
                assert(numbering.group_of@[j] == numbering.group_of@[i as int] <==> keys[j]
                    == keys[i as int]);
            }
        }
        i = i + 1;
    }
    proof {
        assert forall|g: int| #![trigger from@[g]] 0 <= g < from.len() implies from@[g] < n && {
            let key = keys[from@[g] as int];
            &&& numbering.group_of@[from@[g] as int] == g
            &&& representative(hits@, split as int, key, n as int) == Some(from@[g] as int)
            &&& scores@[g].key == score(hits@, split as int, key, n as int)
        } by {
            assert(numbering.group_of@.contains(g as usize));
            let j = choose|j: int|
                0 <= j < numbering.group_of@.len() && numbering.group_of@[j] == g as usize;
            lemma_representative_exists(hits@, split as int, j, n as int);
            assert(keys[j] == fusion_key(hits@[j]));
            let r = representative(hits@, split as int, keys[j], n as int)->0;
            assert(from@[g] == r);
            assert(numbering.group_of@[r] == numbering.group_of@[j]);
        }
        let positions = from@.map_values(|x: usize| x as int);
        assert forall|i: int| 0 <= i < hits.len() implies is_fused(
            hits@,
            positions,
            fusion_key(#[trigger] hits@[i]),
        ) by {
            let g = numbering.group_of@[i] as int;
            assert(from@[g] < n);
            assert(keys[from@[g] as int] == keys[i]);
            assert(fusion_key(hits@[positions[g]]) == fusion_key(hits@[i]));
        }
        assert forall|g: int, h: int|
            #![trigger from@[g], from@[h]]
            0 <= g < h < from.len() implies fusion_key(hits@[from@[g] as int]) != fusion_key(
            hits@[from@[h] as int],
        ) by {
            assert(numbering.group_of@[from@[g] as int] == g);
            assert(numbering.group_of@[from@[h] as int] == h);
            assert(keys[from@[g] as int] != keys[from@[h] as int]);
        }
    }
    Fusion { scores, from }
}

proof fn lemma_representative_exists(hits: Seq<ChunkHit>, split: int, j: int, n: int)
    requires
        0 <= j < n,
    ensures
        representative(hits, split, fusion_key(hits[j]), n) is Some,
    decreases n,
{
    if j < n - 1 {
        lemma_representative_exists(hits, split, j, n - 1);
    }
}

/// Fuses the two ranked lists: each hit scores the sum of `1 / (60 + rank)` over the lists it
/// appears in, and the hits come out with the highest score first, at their own distances.
pub fn rrf_merge(vector_hits: Vec<ChunkHit>, fts_hits: Vec<ChunkHit>) -> (out: Vec<ChunkHit>)
    requires
        vector_hits.len() + fts_hits.len() <= usize::MAX,
    ensures
        is_fusion(vector_hits@, fts_hits@, schema::models(out@)),
{
    let split = vector_hits.len();
    let mut hits = vector_hits;
    let mut more = fts_hits;
    hits.append(&mut more);
    let ghost all = hits@;
    let fusion = accumulate(&hits, split);
    let order = order::sorted_positions(&fusion.scores);
    let ghost from = Seq::new(order@.len(), |k: int| fusion.from@[order@[k] as int] as int);
    let mut out: Vec<ChunkHit> = Vec::new();
    let mut k: usize = 0;
    while k < order.len()
        invariant
            k <= order.len(),
            out.len() == k,
            all == hits@,
            order::sorts(fusion.scores@, order@),
            fusion.scores.len() == fusion.from.len(),
            from == Seq::new(order@.len(), |k: int| fusion.from@[order@[k] as int] as int),
            forall|g: int|
                0 <= g < fusion.from.len() ==> (#[trigger] fusion.from@[g]) < hits.len(),
            forall|j: int| 0 <= j < k ==> (#[trigger] out@[j])@ == all[from[j]]@,
        decreases order.len() - k,
    {
        out.push(copy_hit(&hits[fusion.from[order[k]]]));
        k = k + 1;
    }
    proof {
        let m = schema::models(out@);
        assert(fusion.from.len() <= usize::MAX);
        assert forall|k: int| 0 <= k < m.len() implies 0 <= #[trigger] from[k] < all.len()
            && representative(all, split as int, fusion_key(all[from[k]]), all.len() as int)
            == Some(from[k]) && m[k] == all[from[k]]@ by {
            let g = order@[k] as int;
            assert(fusion.from@[g] < hits.len());
            assert(out@[k]@ == all[from[k]]@);
        }
        assert forall|i: int| 0 <= i < all.len() implies is_fused(
            all,
            from,
            fusion_key(#[trigger] all[i]),
        ) by {
            let positions = fusion.from@.map_values(|x: usize| x as int);
            assert(is_fused(all, positions, fusion_key(all[i])));
            let g = choose|g: int|
                0 <= g < positions.len() && fusion_key(all[#[trigger] positions[g]]) == fusion_key(
                    all[i],
                );
            assert(order@.contains(g as usize));
            let k = choose|k: int| 0 <= k < order@.len() && order@[k] == g as usize;
            assert(fusion_key(all[from[k]]) == fusion_key(all[i]));
        }
        assert forall|j: int, k: int|
            #![trigger from[j], from[k]]
            0 <= j < k < m.len() implies fusion_key(all[from[j]]) != fusion_key(all[from[k]])
            && score(all, split as int, fusion_key(all[from[j]]), all.len() as int) >= score(
            all,
            split as int,
            fusion_key(all[from[k]]),
            all.len() as int,
        ) by {
            let g = order@[j] as int;
            let h = order@[k] as int;
            assert(order::precedes(fusion.scores@, g, h));
            assert(fusion.from@[g] < hits.len());
            assert(fusion.from@[h] < hits.len());
            assert(g != h);
        }
        assert(fuses(all, split as int, from, m));
    }
    out
}

/// The hits of a hybrid search: a failure of the vector side comes first, then one of the full-text
/// side, else the two lists are fused.
pub fn hybrid_hits(
    vector: Result<Vec<ChunkHit>, StoreError>,
    fts: Result<Vec<ChunkHit>, StoreError>,
) -> (r: Result<Vec<ChunkHit>, StoreError>)
    requires
        vector is Ok && fts is Ok ==> vector->Ok_0@.len() + fts->Ok_0@.len() <= usize::MAX,
    ensures
        vector is Err ==> r is Err && r->Err_0.message() == vector->Err_0.message(),
        vector is Ok && fts is Err ==> r is Err && r->Err_0.message() == fts->Err_0.message(),
        vector is Ok && fts is Ok ==> r is Ok && is_fusion(
            vector->Ok_0@,
            fts->Ok_0@,
            schema::models(r->Ok_0@),
        ),
{
    match vector {
        Err(e) => Err(e),
        Ok(v) => match fts {
            Err(e) => Err(e),
            Ok(f) => Ok(rrf_merge(v, f)),
        },
    }
}

/// A hit found by the vector search is reported with its vector distance, whatever the full-text
/// search found.
pub proof fn vector_distance_is_preferred(
    hits: Seq<ChunkHit>,
    split: int,
    i: int,
    n: int,
)
    requires
        0 <= i < split <= hits.len(),
        i < n <= hits.len(),
        forall|j: int|
            0 <= j < split ==> (#[trigger] hits[j]).distance_kind == DistanceKind::RawCosine,
    ensures
        representative(hits, split, fusion_key(hits[i]), n) matches Some(r) && 0 <= r < split
            && fusion_key(hits[r]) == fusion_key(hits[i]),
    decreases n,
{
    if i < n - 1 {
        vector_distance_is_preferred(hits, split, i, n - 1);
    }
}

/// A better rank weighs more.
pub proof fn better_ranks_weigh_more(a: int, b: int)
    requires
        0 <= a < b,
    ensures
        weight(a) >= weight(b),
        a < 0x7fff_ffc0 ==> weight(a) > weight(b),
{
    let x = 61 + a;
    let y = 61 + b;
    let n = 0x1_0000_0000_0000_0000int;
    assert(n / x >= n / y) by (nonlinear_arith)
        requires
            0 < x < y,
            n == 0x1_0000_0000_0000_0000int,
    ;
    if a < 0x7fff_ffc0 {
        let z = x + 1;
        assert(n / z >= n / y) by (nonlinear_arith)
            requires
                0 < z <= y,
                n == 0x1_0000_0000_0000_0000int,
        ;
        assert(n / x > n / z) by {
            let q = n / z;
            assert(q * z <= n) by (nonlinear_arith)
                requires
                    q == n / z,
                    z > 0,
                    n > 0,
            ;
            assert(q >= z) by (nonlinear_arith)
                requires
                    q == n / z,
                    0 < z <= 0x8000_0000,
                    n == 0x1_0000_0000_0000_0000int,
            ;
            assert((q + 1) * x <= n) by (nonlinear_arith)
                requires
                    q * z <= n,
                    z == x + 1,
                    q >= x + 1,
                    x > 0,
            ;
            assert(n / x >= q + 1) by (nonlinear_arith)
                requires
                    (q + 1) * x <= n,
                    x > 0,
                    n > 0,
            ;
        }
    }
}

/// Adding the full-text list never lowers a score, and raises it for every hit it holds.
pub proof fn appearing_in_both_lists_raises_the_score(
    hits: Seq<ChunkHit>,
    split: int,
    key: (Seq<char>, i32),
    n: int,
)
    requires
        0 <= split <= n <= hits.len(),
    ensures
        score(hits, split, key, n) >= score(hits, split, key, split),
        forall|i: int|
            split <= i < n && fusion_key(#[trigger] hits[i]) == key ==> score(hits, split, key, n)
                >= score(hits, split, key, split) + weight(i - split),
    decreases n,
{
    if n > split {
        appearing_in_both_lists_raises_the_score(hits, split, key, n - 1);
        assert(weight(n - 1 - split) >= 0) by (nonlinear_arith)
            requires
                weight(n - 1 - split) == 0x1_0000_0000_0000_0000int / (61 + (n - 1 - split)),
                n - 1 >= split,
        ;
    }
}

/// Fusion keeps every chunk of both lists, as a chunk of its own: each hit's document and chunk
/// number come out, no two hits come out with the same document and chunk number, and each that
/// comes out is one of those that went in.
pub proof fn fusion_keeps_every_chunk_once(
    vector_hits: Seq<ChunkHit>,
    fts_hits: Seq<ChunkHit>,
    out: Seq<ChunkHit>,
)
    requires
        is_fusion(vector_hits, fts_hits, schema::models(out)),
    ensures
        forall|i: int|
            0 <= i < vector_hits.len() ==> exists|k: int|
                0 <= k < out.len() && (#[trigger] out[k]).doc_id@ == (
                #[trigger] vector_hits[i]).doc_id@ && out[k].chunk_index
                    == vector_hits[i].chunk_index,
        forall|i: int|
            0 <= i < fts_hits.len() ==> exists|k: int|
                0 <= k < out.len() && (#[trigger] out[k]).doc_id@ == (#[trigger] fts_hits[i]).doc_id@
                    && out[k].chunk_index == fts_hits[i].chunk_index,
        forall|j: int, k: int|
            #![trigger out[j], out[k]]
            0 <= j < k < out.len() ==> out[j].doc_id@ != out[k].doc_id@ || out[j].chunk_index
                != out[k].chunk_index,
        forall|k: int|
            0 <= k < out.len() ==> (exists|i: int|
                0 <= i < vector_hits.len() && schema::same_hit(
                    #[trigger] out[k],
                    #[trigger] vector_hits[i],
                )) || (exists|i: int|
                0 <= i < fts_hits.len() && schema::same_hit(
                    #[trigger] out[k],
                    #[trigger] fts_hits[i],
                )),
{
    let all = vector_hits + fts_hits;
    let split = vector_hits.len() as int;
    let m = schema::models(out);
    let from = choose|from: Seq<int>| fuses(all, split, from, m);
    assert forall|i: int| 0 <= i < all.len() implies exists|k: int|
        0 <= k < out.len() && (#[trigger] out[k]).doc_id@ == (#[trigger] all[i]).doc_id@
            && out[k].chunk_index == all[i].chunk_index by {
        assert(is_fused(all, from, fusion_key(all[i])));
        let k = choose|k: int|
            0 <= k < from.len() && fusion_key(all[#[trigger] from[k]]) == fusion_key(all[i]);
        assert(m[k] == all[from[k]]@);
        assert(m[k] == out[k]@);
        assert(out[k].doc_id@ == all[i].doc_id@);
    }
    assert forall|i: int| 0 <= i < vector_hits.len() implies exists|k: int|
        0 <= k < out.len() && (#[trigger] out[k]).doc_id@ == (#[trigger] vector_hits[i]).doc_id@
            && out[k].chunk_index == vector_hits[i].chunk_index by {
        assert(all[i] == vector_hits[i]);
    }
    assert forall|i: int| 0 <= i < fts_hits.len() implies exists|k: int|
        0 <= k < out.len() && (#[trigger] out[k]).doc_id@ == (#[trigger] fts_hits[i]).doc_id@
            && out[k].chunk_index == fts_hits[i].chunk_index by {
        assert(all[split + i] == fts_hits[i]);
    }
    assert forall|j: int, k: int|
        #![trigger out[j], out[k]]
        0 <= j < k < out.len() implies out[j].doc_id@ != out[k].doc_id@ || out[j].chunk_index
        != out[k].chunk_index by {
        assert(m[j] == out[j]@ && m[k] == out[k]@);
        assert(m[j] == all[from[j]]@ && m[k] == all[from[k]]@);
        assert(fusion_key(all[from[j]]) != fusion_key(all[from[k]]));
    }
    assert forall|k: int| 0 <= k < out.len() implies (exists|i: int|
        0 <= i < vector_hits.len() && schema::same_hit(
            #[trigger] out[k],
            #[trigger] vector_hits[i],
        )) || (exists|i: int|
        0 <= i < fts_hits.len() && schema::same_hit(#[trigger] out[k], #[trigger] fts_hits[i])) by {
        let x = from[k];
        assert(m[k] == out[k]@ && m[k] == all[x]@);
        if x < split {
            assert(schema::same_hit(out[k], vector_hits[x]));
        } else {
            assert(schema::same_hit(out[k], fts_hits[x - split]));
        }
    }
}

/// No two hits of a list have the same document and chunk number.
pub open spec fn chunks_differ(hits: Seq<ChunkHit>) -> bool {
    forall|a: int, b: int|
        #![trigger hits[a], hits[b]]
        0 <= a < b < hits.len() ==> hits[a].doc_id@ != hits[b].doc_id@ || hits[a].chunk_index
            != hits[b].chunk_index
}

/// Every vector hit comes out of the fusion as it went in, at its own distance, whatever the
/// full-text search found. So the smallest vector distance of a document is still there.
pub proof fn vector_hits_survive_the_fusion(
    vector_hits: Seq<ChunkHit>,
    fts_hits: Seq<ChunkHit>,
    out: Seq<ChunkHit>,
)
    requires
        is_fusion(vector_hits, fts_hits, schema::models(out)),
        chunks_differ(vector_hits),
        forall|i: int|
            0 <= i < vector_hits.len() ==> (#[trigger] vector_hits[i]).distance_kind
                == DistanceKind::RawCosine,
    ensures
        forall|i: int|
            0 <= i < vector_hits.len() ==> exists|k: int|
                0 <= k < out.len() && schema::same_hit(
                    #[trigger] out[k],
                    #[trigger] vector_hits[i],
                ),
{
    let all = vector_hits + fts_hits;
    let split = vector_hits.len() as int;
    let m = schema::models(out);
    let from = choose|from: Seq<int>| fuses(all, split, from, m);
    assert forall|i: int| 0 <= i < vector_hits.len() implies exists|k: int|
        0 <= k < out.len() && schema::same_hit(#[trigger] out[k], #[trigger] vector_hits[i]) by {
        assert(all[i] == vector_hits[i]);
        assert(is_fused(all, from, fusion_key(all[i])));
        let k = choose|k: int|
            0 <= k < from.len() && fusion_key(all[#[trigger] from[k]]) == fusion_key(all[i]);
        assert(m[k] == all[from[k]]@ && m[k] == out[k]@);
        assert forall|j: int| 0 <= j < split implies (#[trigger] all[j]).distance_kind
            == DistanceKind::RawCosine by {
            assert(all[j] == vector_hits[j]);
        }
        vector_distance_is_preferred(all, split, i, all.len() as int);
        let r = representative(all, split, fusion_key(all[i]), all.len() as int)->0;
        assert(r == from[k]);
        assert(all[r] == vector_hits[r]);
        assert(r == i);
        assert(schema::same_hit(out[k], vector_hits[i]));
    }
}

/// Without vector hits the full-text hits come out as they went in.
pub proof fn full_text_hits_survive_without_vector_hits(
    fts_hits: Seq<ChunkHit>,
    out: Seq<ChunkHit>,
    i: int,
) -> (k: int)
    requires
        is_fusion(Seq::<ChunkHit>::empty(), fts_hits, schema::models(out)),
        chunks_differ(fts_hits),
        0 <= i < fts_hits.len(),
    ensures
        0 <= k < out.len(),
        schema::same_hit(out[k], fts_hits[i]),
{
    fusion_keeps_every_chunk_once(Seq::<ChunkHit>::empty(), fts_hits, out);
    let f = fts_hits[i];
    let k = choose|k: int|
        0 <= k < out.len() && (#[trigger] out[k]).doc_id@ == f.doc_id@ && out[k].chunk_index
            == f.chunk_index;
    let h = out[k];
    let j = choose|j: int| 0 <= j < fts_hits.len() && schema::same_hit(h, #[trigger] fts_hits[j]);
    assert(i == j);
    k
}

/// A weight is the reciprocal of sixty and the rank counted from one, cut to units of 2^-64.
pub proof fn weights_are_reciprocal_ranks(rank: int)
    requires
        0 <= rank,
    ensures
        weight(rank) * (61 + rank) <= 0x1_0000_0000_0000_0000int,
        0x1_0000_0000_0000_0000int < (weight(rank) + 1) * (61 + rank),
{
    let d = 61 + rank;
    let n = 0x1_0000_0000_0000_0000int;
    let w = weight(rank);
    assert(w * d <= n && n < (w + 1) * d) by (nonlinear_arith)
        requires
            w == n / d,
            d > 0,
    ;
}

/// A hit's document and chunk number stand at position `a` of a list, or nowhere in it if `a` is
/// negative.
pub open spec fn stands_at(hits: Seq<ChunkHit>, h: ChunkHit, a: int) -> bool {
    if a < 0 {
        forall|i: int|
            0 <= i < hits.len() ==> (#[trigger] hits[i]).doc_id@ != h.doc_id@
                || hits[i].chunk_index != h.chunk_index
    } else {
        a < hits.len() && hits[a].doc_id@ == h.doc_id@ && hits[a].chunk_index == h.chunk_index
    }
}

/// What a position in a list is worth: `1 / (61 + position)` in units of 2^-64, and nothing where
/// there is none.
pub open spec fn worth(a: int) -> int {
    if a < 0 {
        0
    } else {
        0x1_0000_0000_0000_0000int / (61 + a)
    }
}

proof fn lemma_score_of_one(
    hits: Seq<ChunkHit>,
    split: int,
    h: ChunkHit,
    a: int,
    lo: int,
    n: int,
)
    requires
        0 <= lo <= n <= hits.len(),
        lo == 0 || lo == split,
        lo == split || n <= split,
        stands_at(hits.subrange(lo, n), h, a),
        chunks_differ(hits.subrange(lo, n)),
    ensures
        score(hits, split, fusion_key(h), n) == score(hits, split, fusion_key(h), lo) + worth(a),
    decreases n - lo,
{
    let part = hits.subrange(lo, n);
    if n > lo {
        let last = n - 1 - lo;
        assert(part[last] == hits[n - 1]);
        let head = hits.subrange(lo, n - 1);
        assert forall|i: int| 0 <= i < head.len() implies #[trigger] head[i] == part[i] by {}
        assert forall|x: int, y: int|
            #![trigger head[x], head[y]]
            0 <= x < y < head.len() implies head[x].doc_id@ != head[y].doc_id@
            || head[x].chunk_index != head[y].chunk_index by {
            assert(head[x] == part[x] && head[y] == part[y]);
        }
        if a == last {
            assert(stands_at(head, h, -1)) by {
                assert forall|i: int| 0 <= i < head.len() implies (#[trigger] head[i]).doc_id@
                    != h.doc_id@ || head[i].chunk_index != h.chunk_index by {
                    assert(head[i] == part[i] && part[last] == part[a]);
                }
            }
            lemma_score_of_one(hits, split, h, -1, lo, n - 1);
            assert(rank_in_list(split, n - 1) == a);
            assert(weight(a) == worth(a));
        } else {
            if a >= 0 {
                assert(head[a] == part[a]);
                assert(part[a].doc_id@ != part[last].doc_id@ || part[a].chunk_index
                    != part[last].chunk_index);
            } else {
                assert forall|i: int| 0 <= i < head.len() implies (#[trigger] head[i]).doc_id@
                    != h.doc_id@ || head[i].chunk_index != h.chunk_index by {
                    assert(head[i] == part[i]);
                }
                assert(part[last].doc_id@ != h.doc_id@ || part[last].chunk_index != h.chunk_index);
            }
            assert(fusion_key(hits[n - 1]) != fusion_key(h));
            lemma_score_of_one(hits, split, h, a, lo, n - 1);
        }
    }
}

/// Hits come out in the order of the sums of their reciprocal ranks in the two lists.
pub proof fn fused_hits_stand_by_their_ranks(
    vector_hits: Seq<ChunkHit>,
    fts_hits: Seq<ChunkHit>,
    out: Seq<ChunkHit>,
    j: int,
    k: int,
    a: int,
    b: int,
    c: int,
    d: int,
)
    requires
        is_fusion(vector_hits, fts_hits, schema::models(out)),
        chunks_differ(vector_hits),
        chunks_differ(fts_hits),
        0 <= j < k < out.len(),
        stands_at(vector_hits, out[j], a),
        stands_at(fts_hits, out[j], b),
        stands_at(vector_hits, out[k], c),
        stands_at(fts_hits, out[k], d),
    ensures
        worth(a) + worth(b) >= worth(c) + worth(d),
{
    let all = vector_hits + fts_hits;
    let split = vector_hits.len() as int;
    let n = all.len() as int;
    let m = schema::models(out);
    let from = choose|from: Seq<int>| fuses(all, split, from, m);
    assert(m[j] == out[j]@ && m[j] == all[from[j]]@);
    assert(m[k] == out[k]@ && m[k] == all[from[k]]@);
    assert(all.subrange(0, split) =~= vector_hits);
    assert(all.subrange(split, n) =~= fts_hits);
    assert(fusion_key(all[from[j]]) == fusion_key(out[j]));
    assert(fusion_key(all[from[k]]) == fusion_key(out[k]));
    lemma_score_of_one(all, split, out[j], a, 0, split);
    lemma_score_of_one(all, split, out[j], b, split, n);
    lemma_score_of_one(all, split, out[k], c, 0, split);
    lemma_score_of_one(all, split, out[k], d, split, n);
}

/// Among chunks that only the vector search found, a better rank comes first; a chunk that the
/// full-text search found too is not behind one that is ranked no better and was not.
pub proof fn found_by_both_comes_first(
    vector_hits: Seq<ChunkHit>,
    fts_hits: Seq<ChunkHit>,
    out: Seq<ChunkHit>,
    j: int,
    k: int,
    a: int,
    b: int,
    c: int,
)
    requires
        is_fusion(vector_hits, fts_hits, schema::models(out)),
        chunks_differ(vector_hits),
        chunks_differ(fts_hits),
        0 <= j < out.len(),
        0 <= k < out.len(),
        j != k,
        0 <= a < c < 0x7fff_ffc0,
        stands_at(vector_hits, out[j], a),
        stands_at(fts_hits, out[j], b),
        stands_at(vector_hits, out[k], c),
        stands_at(fts_hits, out[k], -1),
    ensures
        j < k,
{
    if k < j {
        fused_hits_stand_by_their_ranks(vector_hits, fts_hits, out, k, j, c, -1, a, b);
        better_ranks_weigh_more(a, c);
        assert(weight(a) == worth(a) && weight(c) == worth(c));
        if b >= 0 {
            assert(worth(b) >= 0) by (nonlinear_arith)
                requires
                    worth(b) == 0x1_0000_0000_0000_0000int / (61 + b),
                    b >= 0,
            ;
        }
    }
}

/// What a search reports of a document is its nearest chunk over both lists: each document that the
/// vector search found is reported, by a chunk no farther than any of its vector hits; and without
/// full-text hits at half of the smallest raw distance, but for the last unit.
pub proof fn a_fused_search_reports_the_nearest_chunk(
    vector_hits: Seq<ChunkHit>,
    fts_hits: Seq<ChunkHit>,
    out: Seq<ChunkHit>,
    snippet: bool,
    from: Seq<int>,
    documents: Seq<SearchHit>,
    i: int,
) -> (k: int)
    requires
        is_fusion(vector_hits, fts_hits, schema::models(out)),
        dedup::reduces(out, snippet, from, documents),
        chunks_differ(vector_hits),
        forall|j: int|
            0 <= j < vector_hits.len() ==> (#[trigger] vector_hits[j]).distance_kind
                == DistanceKind::RawCosine && -0x7f80_0000 < vector_hits[j].distance.rank
                < 0x7f80_0000,
        0 <= i < vector_hits.len(),
    ensures
        0 <= k < documents.len(),
        documents[k].id@ == vector_hits[i].doc_id@,
        0 <= from[k] < out.len(),
        out[from[k]].doc_id@ == vector_hits[i].doc_id@,
        distance::value(out[from[k]].distance) <= distance::value(vector_hits[i].distance),
        fts_hits.len() == 0 ==> 2 * distance::value(documents[k].distance) <= distance::value(
            vector_hits[i].distance,
        ) + 1,
{
    let v = vector_hits[i];
    vector_hits_survive_the_fusion(vector_hits, fts_hits, out);
    fusion_keeps_every_chunk_once(vector_hits, fts_hits, out);
    let x = choose|x: int| 0 <= x < out.len() && schema::same_hit(#[trigger] out[x], v);
    dedup::every_document_comes_out_once(out, snippet, from, documents);
    let k = dedup::every_document_is_reported(out, snippet, from, documents, x);
    dedup::documents_are_reported_by_their_nearest_chunk(out, snippet, from, documents, k);
    assert(out[x].doc_id@ == documents[k].id@);
    let h = out[from[k]];
    if fts_hits.len() == 0 {
        let j = choose|j: int|
            0 <= j < vector_hits.len() && schema::same_hit(h, #[trigger] vector_hits[j]);
        assert(vector_hits[j].distance_kind == DistanceKind::RawCosine);
    }
    k
}


/// A failure tells of a missing index wherever the message speaks of an inverted index or of full
/// text search, and nowhere else.
pub proof fn missing_indexes_are_told_anywhere(front: Seq<char>, behind: Seq<char>, message: Seq<char>)
    ensures
        tells_missing_index(front + "INVERTED index"@ + behind),
        tells_missing_index(front + "full text search"@ + behind),
        tells_missing_index(message) ==> message.len() >= 14,
{
    reveal_strlit("INVERTED index");
    reveal_strlit("full text search");
    let a = front + "INVERTED index"@ + behind;
    let b = front + "full text search"@ + behind;
    let n = front.len() as int;
    assert(a.subrange(n, n + 14) =~= "INVERTED index"@);
    assert(b.subrange(n, n + 16) =~= "full text search"@);
    assert(text::occurs_at(a, "INVERTED index"@, n));
    assert(text::occurs_at(b, "full text search"@, n));
}

} // verus!
