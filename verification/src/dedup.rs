//! Reduction of chunk-level results to documents: search hits and near-duplicate pairs.

use crate::distance;
use crate::distance::Distance;
use crate::grouping;
use crate::order;
use crate::order::{Ascending, Ranked};
use crate::schema::{
    ChunkHit, ChunkInfo, DistanceKind, DuplicateGroup, DuplicateMember, NeighbourObservation,
    SearchHit,
};
use crate::text;
use vstd::prelude::*;

verus! {

/// The document ids of a list of hits.
pub open spec fn hit_ids(hits: Seq<ChunkHit>) -> Seq<Seq<char>> {
    hits.map_values(|h: ChunkHit| h.doc_id@)
}

/// The distance ranks of a list of hits.
pub open spec fn hit_ranks(hits: Seq<ChunkHit>) -> Seq<i64> {
    hits.map_values(|h: ChunkHit| h.distance.place() as i64)
}

/// Hit `i` is the best chunk of its document: nearest, and the first among the equally near.
pub open spec fn is_best_chunk(hits: Seq<ChunkHit>, i: int) -> bool {
    grouping::is_best(hit_ids(hits), hit_ranks(hits), i)
}

/// The distance reported for a hit: raw cosine distances are halved, others pass unchanged.
pub open spec fn reported_distance(h: ChunkHit) -> Distance {
    match h.distance_kind {
        DistanceKind::RawCosine => distance::half(h.distance),
        DistanceKind::Normalised => h.distance,
    }
}

/// An optional text and its view.
pub open spec fn optional_view(s: Option<String>) -> Option<Seq<char>> {
    match s {
        Some(t) => Some(t@),
        None => None,
    }
}

/// `r` reports the chunk `h`.
pub open spec fn reports(r: SearchHit, h: ChunkHit, snippet: bool) -> bool {
    &&& r.id@ == h.doc_id@
    &&& r.distance == reported_distance(h)
    &&& r.chunk.index == h.chunk_index as u32
    &&& r.chunk.count == h.chunk_count as u32
    &&& r.chunk.token_start == h.chunk_token_start as u32
    &&& r.chunk.doc_token_len == h.doc_token_len as u32
    &&& optional_view(r.chunk.snippet) == if snippet {
        Some(h.content@)
    } else {
        None::<Seq<char>>
    }
}

/// `out` reports the best chunk of every document once, nearest first; `from` holds the position
/// of each reported chunk.
pub open spec fn reduces(
    hits: Seq<ChunkHit>,
    snippet: bool,
    from: Seq<int>,
    out: Seq<SearchHit>,
) -> bool {
    &&& from.len() == out.len()
    &&& forall|k: int|
        0 <= k < out.len() ==> is_best_chunk(hits, #[trigger] from[k]) && reports(
            out[k],
            hits[from[k]],
            snippet,
        )
    &&& forall|i: int| is_best_chunk(hits, i) ==> #[trigger] from.contains(i)
    &&& forall|j: int, k: int|
        #![trigger from[j], from[k]]
        0 <= j < k < out.len() ==> from[j] != from[k] && out[j].distance.place()
            <= out[k].distance.place()
}

fn ids_of_hits(hits: &Vec<ChunkHit>) -> (r: Vec<String>)
    ensures
        r.len() == hits.len(),
        grouping::views(r@) == hit_ids(hits@),
{
    let mut ids: Vec<String> = Vec::new();
    let mut i: usize = 0;
    while i < hits.len()
        invariant
            i <= hits.len(),
            ids.len() == i,
            forall|k: int| 0 <= k < i ==> (#[trigger] ids@[k])@ == hits@[k].doc_id@,
        decreases hits.len() - i,
    {
        ids.push(hits[i].doc_id.clone());
        i = i + 1;
    }
    assert(grouping::views(ids@) =~= hit_ids(hits@));
    ids
}

/// Positions of the best chunk of each document, listed in order of the documents' first
/// appearance.
pub fn best_chunks(hits: &Vec<ChunkHit>) -> (best: Vec<usize>)
    ensures
        grouping::lists_best(hit_ids(hits@), hit_ranks(hits@), best@),
{
    let ids = ids_of_hits(hits);
    let mut ranks: Vec<i64> = Vec::new();
    let mut i: usize = 0;
    while i < hits.len()
        invariant
            i <= hits.len(),
            ranks.len() == i,
            forall|k: int| 0 <= k < i ==> (#[trigger] ranks@[k]) == hits@[k].distance.place(),
        decreases hits.len() - i,
    {
        ranks.push(hits[i].distance.order_place() as i64);
        i = i + 1;
    }
    assert(ranks@ =~= hit_ranks(hits@));
    grouping::best_by_key(&ids, &ranks)
}

/// The distance reported for a hit.
pub fn report_distance(h: &ChunkHit) -> (r: Distance)
    ensures
        r == reported_distance(*h),
{
    match h.distance_kind {
        DistanceKind::RawCosine => h.distance.halved(),
        DistanceKind::Normalised => h.distance,
    }
}

fn report(h: &ChunkHit, snippet: bool) -> (r: SearchHit)
    ensures
        reports(r, *h, snippet),
{
    SearchHit {
        id: h.doc_id.clone(),
        distance: report_distance(h),
        chunk: ChunkInfo {
            index: #[verifier::truncate] (h.chunk_index as u32),
            count: #[verifier::truncate] (h.chunk_count as u32),
            token_start: #[verifier::truncate] (h.chunk_token_start as u32),
            doc_token_len: #[verifier::truncate] (h.doc_token_len as u32),
            snippet: if snippet {
                Some(h.content.clone())
            } else {
                None
            },
        },
    }
}

/// Reduces chunk-level hits to documents: the best chunk of each document, nearest first.
pub fn dedup_chunks_to_documents(hits: Vec<ChunkHit>, snippet: bool) -> (r: Vec<SearchHit>)
    ensures
        exists|from: Seq<int>| reduces(hits@, snippet, from, r@),
{
    let best = best_chunks(&hits);
    let mut keys: Vec<Ascending> = Vec::new();
    let mut g: usize = 0;
    while g < best.len()
        invariant
            g <= best.len(),
            keys.len() == g,
            forall|k: int|
                0 <= k < best.len() ==> is_best_chunk(hits@, (#[trigger] best@[k]) as int),
            forall|k: int|
                0 <= k < g ==> (#[trigger] keys@[k]).key == reported_distance(
                    hits@[best@[k] as int],
                ).place(),
        decreases best.len() - g,
    {
        keys.push(Ascending { key: report_distance(&hits[best[g]]).order_place() as i64 });
        g = g + 1;
    }
    let order = order::sorted_positions(&keys);
    let ghost from = Seq::new(order@.len(), |k: int| best@[order@[k] as int] as int);
    let mut out: Vec<SearchHit> = Vec::new();
    let mut k: usize = 0;
    while k < order.len()
        invariant
            k <= order.len(),
            out.len() == k,
            order::sorts(keys@, order@),
            keys.len() == best.len(),
            forall|g: int|
                0 <= g < best.len() ==> is_best_chunk(hits@, (#[trigger] best@[g]) as int),
            from == Seq::new(order@.len(), |k: int| best@[order@[k] as int] as int),
            forall|j: int| 0 <= j < k ==> reports(#[trigger] out@[j], hits@[from[j]], snippet),
        decreases order.len() - k,
    {
        let position = order[k];
        out.push(report(&hits[best[position]], snippet));
        k = k + 1;
    }
    proof {
        assert(hits.len() <= usize::MAX);
        assert forall|i: int| is_best_chunk(hits@, i) implies #[trigger] from.contains(i) by {
            assert(best@.contains(i as usize));
            let g = choose|g: int| 0 <= g < best@.len() && best@[g] == i as usize;
            assert(order@.contains(g as usize));
            let k = choose|k: int| 0 <= k < order@.len() && order@[k] == g as usize;
            assert(from[k] == i);
        }
        assert forall|j: int, k: int|
            #![trigger from[j], from[k]]
            0 <= j < k < out.len() implies from[j] != from[k] && out@[j].distance.place()
            <= out@[k].distance.place() by {
            assert(order::precedes(keys@, order@[j] as int, order@[k] as int));
            assert(reports(out@[j], hits@[from[j]], snippet));
            assert(reports(out@[k], hits@[from[k]], snippet));
        }
        assert(reduces(hits@, snippet, from, out@));
    }
    out
}

/// Every document with a hit is reported, at a distance no larger than that of any of its hits
/// with the same kind.
pub proof fn every_document_is_reported(
    hits: Seq<ChunkHit>,
    snippet: bool,
    from: Seq<int>,
    out: Seq<SearchHit>,
    i: int,
) -> (k: int)
    requires
        reduces(hits, snippet, from, out),
        0 <= i < hits.len(),
    ensures
        0 <= k < out.len(),
        out[k].id@ == hits[i].doc_id@,
        hits[from[k]].distance.place() <= hits[i].distance.place(),
{
    let b = grouping::every_group_has_a_best(hit_ids(hits), hit_ranks(hits), i);
    assert(from.contains(b));
    let k = choose|k: int| 0 <= k < from.len() && from[k] == b;
    assert(hit_ids(hits)[i] == hit_ids(hits)[b]);
    k
}

/// No document is reported twice.
pub proof fn no_document_is_reported_twice(
    hits: Seq<ChunkHit>,
    snippet: bool,
    from: Seq<int>,
    out: Seq<SearchHit>,
    j: int,
    k: int,
)
    requires
        reduces(hits, snippet, from, out),
        0 <= j < k < out.len(),
    ensures
        out[j].id@ != out[k].id@,
{
    let a = from[j];
    let b = from[k];
    assert(is_best_chunk(hits, a) && is_best_chunk(hits, b));
    assert(a != b);
    if out[j].id@ == out[k].id@ {
        assert(hit_ids(hits)[a] == hit_ids(hits)[b]);
    }
}

/// An observation counts towards a near-duplicate pair: it lies within the threshold and joins two
/// different documents.
pub open spec fn counts(obs: NeighbourObservation, threshold: Distance) -> bool {
    obs.normalized_distance.within(threshold) && obs.doc_a@ != obs.doc_b@
}

/// The two documents of an observation, the smaller id first.
pub open spec fn pair_of(obs: NeighbourObservation) -> (Seq<char>, Seq<char>) {
    if text::text_le(obs.doc_a@, obs.doc_b@) {
        (obs.doc_a@, obs.doc_b@)
    } else {
        (obs.doc_b@, obs.doc_a@)
    }
}

/// The two chunk texts of an observation, in the order of [`pair_of`].
pub open spec fn snippets_of(obs: NeighbourObservation) -> (Option<Seq<char>>, Option<Seq<char>>) {
    if text::text_le(obs.doc_a@, obs.doc_b@) {
        (optional_view(obs.content_a), optional_view(obs.content_b))
    } else {
        (optional_view(obs.content_b), optional_view(obs.content_a))
    }
}

/// Observation `i` is the one kept for its pair: it counts, and is the nearest of the pair, the
/// first among the equally near.
pub open spec fn is_kept(
    observations: Seq<NeighbourObservation>,
    threshold: Distance,
    i: int,
) -> bool {
    &&& 0 <= i < observations.len()
    &&& counts(observations[i], threshold)
    &&& forall|j: int|
        0 <= j < observations.len() && counts(#[trigger] observations[j], threshold) && pair_of(
            observations[j],
        ) == pair_of(observations[i])
            ==> observations[i].normalized_distance.rank <= observations[j].normalized_distance.rank
            && (j < i ==> observations[i].normalized_distance.rank
            < observations[j].normalized_distance.rank)
}

/// `g` reports the pair of an observation.
pub open spec fn reports_pair(g: DuplicateGroup, obs: NeighbourObservation) -> bool {
    &&& g.distance == obs.normalized_distance
    &&& g.group@.len() == 2
    &&& g.group@[0].id@ == pair_of(obs).0
    &&& g.group@[1].id@ == pair_of(obs).1
    &&& optional_view(g.group@[0].snippet) == snippets_of(obs).0
    &&& optional_view(g.group@[1].snippet) == snippets_of(obs).1
}

/// Pair order: by distance, then by the smaller id, then by the larger id.
pub open spec fn pair_before(a: NeighbourObservation, b: NeighbourObservation) -> bool {
    let x = a.normalized_distance.rank;
    let y = b.normalized_distance.rank;
    let (a_lo, a_hi) = pair_of(a);
    let (b_lo, b_hi) = pair_of(b);
    x < y || (x == y && text::text_le(a_lo, b_lo) && (a_lo == b_lo ==> text::text_le(a_hi, b_hi)))
}

/// `from` lists every kept observation once in pair order, and `out` reports the first of them, at
/// most `max_pairs`.
pub open spec fn pairs_up(
    observations: Seq<NeighbourObservation>,
    threshold: Distance,
    max_pairs: int,
    from: Seq<int>,
    out: Seq<DuplicateGroup>,
) -> bool {
    &&& out.len() == if from.len() <= max_pairs {
        from.len() as int
    } else {
        max_pairs
    }
    &&& forall|k: int| 0 <= k < from.len() ==> is_kept(observations, threshold, #[trigger] from[k])
    &&& forall|i: int| is_kept(observations, threshold, i) ==> #[trigger] from.contains(i)
    &&& forall|j: int, k: int|
        #![trigger from[j], from[k]]
        0 <= j < k < from.len() ==> from[j] != from[k] && pair_before(
            observations[from[j]],
            observations[from[k]],
        )
    &&& forall|k: int|
        0 <= k < out.len() ==> reports_pair(#[trigger] out[k], observations[from[k]])
}

/// Sort key of a near-duplicate pair.
pub struct PairKey {
    pub rank: i32,
    pub lo: String,
    pub hi: String,
}

impl Ranked for PairKey {
    open spec fn before(a: Self, b: Self) -> bool {
        a.rank < b.rank || (a.rank == b.rank && text::text_le(a.lo@, b.lo@) && (a.lo@ == b.lo@
            ==> text::text_le(a.hi@, b.hi@)))
    }

    proof fn lemma_order(a: Self, b: Self, c: Self) {
        text::text_le_is_a_linear_order(a.lo@, b.lo@, c.lo@);
        text::text_le_is_a_linear_order(b.lo@, c.lo@, a.lo@);
        text::text_le_is_a_linear_order(a.hi@, b.hi@, c.hi@);
    }

    fn is_before(&self, other: &Self) -> (r: bool) {
        if self.rank != other.rank {
            self.rank < other.rank
        } else if self.lo == other.lo {
            proof {
                text::text_le_is_a_linear_order(self.lo@, other.lo@, other.lo@);
            }
            text::str_le(self.hi.as_str(), other.hi.as_str())
        } else {
            text::str_le(self.lo.as_str(), other.lo.as_str())
        }
    }
}

fn copy_text(s: &Option<String>) -> (r: Option<String>)
    ensures
        optional_view(r) == optional_view(*s),
{
    match s {
        Some(t) => Some(t.clone()),
        None => None,
    }
}

/// The pair that an observation stands for, the smaller id first, with the chunk texts in the same
/// order.
pub fn canonical_observation(obs: &NeighbourObservation) -> (r: DuplicateGroup)
    ensures
        reports_pair(r, *obs),
{
    let a = DuplicateMember { id: obs.doc_a.clone(), snippet: copy_text(&obs.content_a) };
    let b = DuplicateMember { id: obs.doc_b.clone(), snippet: copy_text(&obs.content_b) };
    let mut group: Vec<DuplicateMember> = Vec::new();
    if text::str_le(obs.doc_a.as_str(), obs.doc_b.as_str()) {
        group.push(a);
        group.push(b);
    } else {
        group.push(b);
        group.push(a);
    }
    DuplicateGroup { group, distance: obs.normalized_distance }
}

/// Reduces chunk-level observations to near-duplicate document pairs: the nearest observation of
/// each pair within the threshold, nearest pair first, at most `max_pairs`.
pub fn pairs_from_neighbours(
    observations: &Vec<NeighbourObservation>,
    threshold: Distance,
    max_pairs: usize,
) -> (r: Vec<DuplicateGroup>)
    ensures
        exists|from: Seq<int>| pairs_up(observations@, threshold, max_pairs as int, from, r@),
{
    let mut counted: Vec<usize> = Vec::new();
    let mut lo: Vec<String> = Vec::new();
    let mut hi: Vec<String> = Vec::new();
    let mut ranks: Vec<i64> = Vec::new();
    let mut i: usize = 0;
    while i < observations.len()
        invariant
            i <= observations.len(),
            counted.len() == lo.len() == hi.len() == ranks.len(),
            forall|k: int|
                #![trigger counted@[k]]
                0 <= k < counted.len() ==> {
                    &&& counted@[k] < i
                    &&& counts(observations@[counted@[k] as int], threshold)
                    &&& (lo@[k]@, hi@[k]@) == pair_of(observations@[counted@[k] as int])
                    &&& ranks@[k] == observations@[counted@[k] as int].normalized_distance.rank
                },
            forall|j: int, k: int|
                #![trigger counted@[j], counted@[k]]
                0 <= j < k < counted.len() ==> counted@[j] < counted@[k],
            forall|j: int|
                0 <= j < i && counts(#[trigger] observations@[j], threshold) ==> counted@.contains(
                    j as usize,
                ),
        decreases observations.len() - i,
    {
        let obs = &observations[i];
        let ghost before = counted@;
        if obs.normalized_distance.is_within(threshold) && !(obs.doc_a == obs.doc_b) {
            counted.push(i);
            if text::str_le(obs.doc_a.as_str(), obs.doc_b.as_str()) {
                lo.push(obs.doc_a.clone());
                hi.push(obs.doc_b.clone());
            } else {
                lo.push(obs.doc_b.clone());
                hi.push(obs.doc_a.clone());
            }
            ranks.push(obs.normalized_distance.rank as i64);
            assert(counted@[before.len() as int] == i);
        }
        proof {
            assert forall|j: int|
                0 <= j < i + 1 && counts(
                    #[trigger] observations@[j],
                    threshold,
                ) implies counted@.contains(j as usize) by {
                if j < i {
                    assert(before.contains(j as usize));
                    let k = choose|k: int| 0 <= k < before.len() && before[k] == j as usize;
                    assert(counted@[k] == j as usize);
                }
            }
        }
        i = i + 1;
    }
    let ghost names = grouping::pairs(grouping::views(lo@), grouping::views(hi@));
    let best = grouping::best_by_key_pair(&lo, &hi, &ranks);
    let ghost kept = Seq::new(best@.len(), |g: int| counted@[best@[g] as int] as int);
    proof {
        lemma_best_is_kept(observations@, threshold, counted@, names, ranks@);
    }
    let mut keys: Vec<PairKey> = Vec::new();
    let mut g: usize = 0;
    while g < best.len()
        invariant
            g <= best.len(),
            keys.len() == g,
            counted.len() == lo.len() == hi.len() == ranks.len(),
            names == grouping::pairs(grouping::views(lo@), grouping::views(hi@)),
            kept == Seq::new(best@.len(), |g: int| counted@[best@[g] as int] as int),
            forall|k: int|
                0 <= k < best.len() ==> grouping::is_best(
                    names,
                    ranks@,
                    (#[trigger] best@[k]) as int,
                ),
            forall|k: int|
                #![trigger counted@[k]]
                0 <= k < counted.len() ==> {
                    &&& counted@[k] < observations.len()
                    &&& (lo@[k]@, hi@[k]@) == pair_of(observations@[counted@[k] as int])
                },
            forall|k: int|
                #![trigger keys@[k]]
                0 <= k < g ==> {
                    &&& keys@[k].rank == observations@[kept[k]].normalized_distance.rank
                    &&& (keys@[k].lo@, keys@[k].hi@) == pair_of(observations@[kept[k]])
                },
        decreases best.len() - g,
    {
        let c = best[g];
        let obs = &observations[counted[c]];
        keys.push(
            PairKey { rank: obs.normalized_distance.rank, lo: lo[c].clone(), hi: hi[c].clone() },
        );
        g = g + 1;
    }
    let order = order::sorted_positions(&keys);
    let ghost from = Seq::new(order@.len(), |k: int| kept[order@[k] as int]);
    let mut out: Vec<DuplicateGroup> = Vec::new();
    let mut k: usize = 0;
    while k < order.len() && k < max_pairs
        invariant
            k <= order.len(),
            k <= max_pairs,
            out.len() == k,
            order::sorts(keys@, order@),
            keys.len() == best.len(),
            counted.len() == names.len(),
            kept == Seq::new(best@.len(), |g: int| counted@[best@[g] as int] as int),
            from == Seq::new(order@.len(), |k: int| kept[order@[k] as int]),
            forall|k: int|
                0 <= k < best.len() ==> grouping::is_best(
                    names,
                    ranks@,
                    (#[trigger] best@[k]) as int,
                ),
            forall|k: int|
                0 <= k < counted.len() ==> (#[trigger] counted@[k]) < observations.len(),
            forall|j: int|
                0 <= j < k ==> reports_pair(#[trigger] out@[j], observations@[from[j]]),
        decreases order.len() - k,
    {
        let c = best[order[k]];
        out.push(canonical_observation(&observations[counted[c]]));
        k = k + 1;
    }
    proof {
        assert forall|k: int| 0 <= k < from.len() implies is_kept(
            observations@,
            threshold,
            #[trigger] from[k],
        ) by {
            let g = order@[k] as int;
            assert(grouping::is_best(names, ranks@, best@[g] as int));
        }
        assert forall|i: int| is_kept(observations@, threshold, i) implies #[trigger] from.contains(
            i,
        ) by {
            assert(counted@.contains(i as usize));
            let c = choose|c: int| 0 <= c < counted@.len() && counted@[c] == i as usize;
            assert(grouping::is_best(names, ranks@, c));
            assert(best@.contains(c as usize));
            let g = choose|g: int| 0 <= g < best@.len() && best@[g] == c as usize;
            assert(order@.contains(g as usize));
            let k = choose|k: int| 0 <= k < order@.len() && order@[k] == g as usize;
            assert(from[k] == i);
        }
        assert forall|j: int, k: int|
            #![trigger from[j], from[k]]
            0 <= j < k < from.len() implies from[j] != from[k] && pair_before(
            observations@[from[j]],
            observations@[from[k]],
        ) by {
            assert(order::precedes(keys@, order@[j] as int, order@[k] as int));
            let x = order@[j] as int;
            let y = order@[k] as int;
            assert(x != y);
            assert(best@[x] != best@[y]);
            assert(counted@[best@[x] as int] != counted@[best@[y] as int]) by {
                assert(grouping::is_best(names, ranks@, best@[x] as int));
                assert(grouping::is_best(names, ranks@, best@[y] as int));
            }
            assert(keys@[x].rank == observations@[kept[x]].normalized_distance.rank);
            assert(keys@[y].rank == observations@[kept[y]].normalized_distance.rank);
        }
        assert(pairs_up(observations@, threshold, max_pairs as int, from, out@));
    }
    out
}

/// The best of the counted observations are the kept ones.
proof fn lemma_best_is_kept(
    observations: Seq<NeighbourObservation>,
    threshold: Distance,
    counted: Seq<usize>,
    names: Seq<(Seq<char>, Seq<char>)>,
    ranks: Seq<i64>,
)
    requires
        observations.len() <= usize::MAX,
        counted.len() == names.len() == ranks.len(),
        forall|k: int|
            #![trigger counted[k]]
            0 <= k < counted.len() ==> {
                &&& counted[k] < observations.len()
                &&& counts(observations[counted[k] as int], threshold)
                &&& names[k] == pair_of(observations[counted[k] as int])
                &&& ranks[k] == observations[counted[k] as int].normalized_distance.rank
            },
        forall|j: int, k: int|
            #![trigger counted[j], counted[k]]
            0 <= j < k < counted.len() ==> counted[j] < counted[k],
        forall|j: int|
            0 <= j < observations.len() && counts(#[trigger] observations[j], threshold)
                ==> counted.contains(j as usize),
    ensures
        forall|c: int|
            #![trigger counted[c]]
            0 <= c < counted.len() ==> (grouping::is_best(names, ranks, c) <==> is_kept(
                observations,
                threshold,
                counted[c] as int,
            )),
{
    assert forall|c: int| #![trigger counted[c]] 0 <= c < counted.len() implies (grouping::is_best(
        names,
        ranks,
        c,
    ) <==> is_kept(observations, threshold, counted[c] as int)) by {
        let i = counted[c] as int;
        if grouping::is_best(names, ranks, c) {
            assert forall|j: int|
                0 <= j < observations.len() && counts(#[trigger] observations[j], threshold)
                    && pair_of(observations[j]) == pair_of(
                    observations[i],
                ) implies observations[i].normalized_distance.rank
                <= observations[j].normalized_distance.rank && (j < i
                ==> observations[i].normalized_distance.rank
                < observations[j].normalized_distance.rank) by {
                assert(counted.contains(j as usize));
                let d = choose|d: int| 0 <= d < counted.len() && counted[d] == j as usize;
                assert(names[d] == names[c]);
                if d > c {
                    assert(counted[c] < counted[d]);
                }
            }
        }
        if is_kept(observations, threshold, i) {
            assert forall|d: int|
                0 <= d < names.len() && #[trigger] names[d] == names[c] implies ranks[c]
                <= ranks[d] && (d < c ==> ranks[c] < ranks[d]) by {
                assert(counted[d] < observations.len());
                assert(counts(observations[counted[d] as int], threshold));
            }
        }
    }
}

/// A reported pair never holds the same document twice, and its ids are in order.
pub proof fn pairs_join_distinct_documents_in_order(
    observations: Seq<NeighbourObservation>,
    threshold: Distance,
    max_pairs: int,
    from: Seq<int>,
    out: Seq<DuplicateGroup>,
    k: int,
)
    requires
        pairs_up(observations, threshold, max_pairs, from, out),
        0 <= k < out.len(),
        max_pairs >= 0,
    ensures
        out[k].group@.len() == 2,
        out[k].group@[0].id@ != out[k].group@[1].id@,
        text::text_le(out[k].group@[0].id@, out[k].group@[1].id@),
        out[k].distance.within(threshold),
{
    let obs = observations[from[k]];
    assert(is_kept(observations, threshold, from[k]));
    assert(reports_pair(out[k], obs));
    text::text_le_is_a_linear_order(obs.doc_a@, obs.doc_b@, obs.doc_b@);
}

/// Swapping the two documents of an observation changes neither its pair nor its chunk texts.
pub proof fn observations_are_symmetric(a: NeighbourObservation, b: NeighbourObservation)
    requires
        a.doc_a@ == b.doc_b@,
        a.doc_b@ == b.doc_a@,
        a.doc_a@ != a.doc_b@,
        optional_view(a.content_a) == optional_view(b.content_b),
        optional_view(a.content_b) == optional_view(b.content_a),
    ensures
        pair_of(a) == pair_of(b),
        snippets_of(a) == snippets_of(b),
{
    text::text_le_is_a_linear_order(a.doc_a@, a.doc_b@, a.doc_a@);
}

/// No pair of documents is reported twice.
pub proof fn no_pair_is_reported_twice(
    observations: Seq<NeighbourObservation>,
    threshold: Distance,
    max_pairs: int,
    from: Seq<int>,
    out: Seq<DuplicateGroup>,
    j: int,
    k: int,
)
    requires
        pairs_up(observations, threshold, max_pairs, from, out),
        0 <= j < k < out.len(),
        max_pairs >= 0,
    ensures
        out[j].group@[0].id@ != out[k].group@[0].id@ || out[j].group@[1].id@
            != out[k].group@[1].id@,
{
    let x = from[j];
    let y = from[k];
    assert(is_kept(observations, threshold, x) && is_kept(observations, threshold, y));
    assert(reports_pair(out[j], observations[x]));
    assert(reports_pair(out[k], observations[y]));
    assert(x != y);
    if pair_of(observations[x]) == pair_of(observations[y]) {
        assert(counts(observations[x], threshold) && counts(observations[y], threshold));
    }
}

/// Where an observation stands among pairs: its distance, and its two documents in order.
pub open spec fn standing(obs: NeighbourObservation) -> (int, Seq<char>, Seq<char>) {
    (obs.normalized_distance.rank as int, pair_of(obs).0, pair_of(obs).1)
}

/// Pair order: by distance, then by the smaller id, then by the larger id.
pub open spec fn not_after(
    a: (int, Seq<char>, Seq<char>),
    b: (int, Seq<char>, Seq<char>),
) -> bool {
    a.0 < b.0 || (a.0 == b.0 && text::text_le(a.1, b.1) && (a.1 == b.1 ==> text::text_le(
        a.2,
        b.2,
    )))
}

/// Different standings in pair order.
spec fn is_ascending(s: Seq<(int, Seq<char>, Seq<char>)>) -> bool {
    forall|j: int, k: int|
        #![trigger s[j], s[k]]
        0 <= j < k < s.len() ==> s[j] != s[k] && not_after(s[j], s[k])
}

/// There is one way to put the same standings in pair order.
proof fn lemma_one_order(
    s: Seq<(int, Seq<char>, Seq<char>)>,
    t: Seq<(int, Seq<char>, Seq<char>)>,
)
    requires
        is_ascending(s),
        is_ascending(t),
        forall|x: (int, Seq<char>, Seq<char>)| #[trigger] s.contains(x) <==> t.contains(x),
    ensures
        s == t,
    decreases s.len(),
{
    if s.len() == 0 {
        if t.len() > 0 {
            assert(t.contains(t[0]));
            assert(s.contains(t[0]));
        }
        assert(s =~= t);
    } else {
        let x = s.last();
        assert(s.contains(x));
        assert(t.len() > 0);
        let y = t.last();
        assert(t.contains(y));
        assert(s.contains(y));
        let j = choose|j: int| 0 <= j < t.len() && t[j] == x;
        let k = choose|k: int| 0 <= k < s.len() && s[k] == y;
        assert(x == y) by {
            if x != y {
                assert(not_after(t[j], t[t.len() - 1]));
                assert(not_after(s[k], s[s.len() - 1]));
                text::text_le_is_a_linear_order(x.1, y.1, x.1);
                text::text_le_is_a_linear_order(x.2, y.2, x.2);
            }
        }
        let a = s.drop_last();
        let b = t.drop_last();
        assert forall|z: (int, Seq<char>, Seq<char>)| #[trigger]
            a.contains(z) <==> b.contains(z) by {
            if a.contains(z) {
                let i = choose|i: int| 0 <= i < a.len() && a[i] == z;
                assert(s[i] == z && s[i] != s[s.len() - 1]);
                assert(s.contains(z));
                let h = choose|h: int| 0 <= h < t.len() && t[h] == z;
                assert(b[h] == z);
            }
            if b.contains(z) {
                let i = choose|i: int| 0 <= i < b.len() && b[i] == z;
                assert(t[i] == z && t[i] != t[t.len() - 1]);
                assert(t.contains(z));
                assert(s.contains(z));
                let h = choose|h: int| 0 <= h < s.len() && s[h] == z;
                assert(a[h] == z);
            }
        }
        lemma_one_order(a, b);
        assert(s =~= a.push(x));
        assert(t =~= b.push(y));
    }
}

/// The standings of the listed observations.
spec fn standings(observations: Seq<NeighbourObservation>, from: Seq<int>) -> Seq<
    (int, Seq<char>, Seq<char>),
> {
    Seq::new(from.len(), |k: int| standing(observations[from[k]]))
}

/// Kept observations that stand alike are the same.
proof fn lemma_kept_is_one(
    observations: Seq<NeighbourObservation>,
    threshold: Distance,
    i: int,
    j: int,
)
    requires
        is_kept(observations, threshold, i),
        is_kept(observations, threshold, j),
        pair_of(observations[i]) == pair_of(observations[j]),
    ensures
        i == j,
{
    assert(counts(observations[i], threshold) && counts(observations[j], threshold));
}

proof fn lemma_standings_ascend(
    observations: Seq<NeighbourObservation>,
    threshold: Distance,
    max_pairs: int,
    from: Seq<int>,
    out: Seq<DuplicateGroup>,
)
    requires
        pairs_up(observations, threshold, max_pairs, from, out),
    ensures
        is_ascending(standings(observations, from)),
{
    let s = standings(observations, from);
    assert forall|j: int, k: int|
        #![trigger s[j], s[k]]
        0 <= j < k < s.len() implies s[j] != s[k] && not_after(s[j], s[k]) by {
        assert(from[j] != from[k]);
        assert(is_kept(observations, threshold, from[j]));
        assert(is_kept(observations, threshold, from[k]));
        if s[j] == s[k] {
            lemma_kept_is_one(observations, threshold, from[j], from[k]);
        }
    }
}

/// Pairs are reported nearest first, those of equal distance by their ids.
pub proof fn pairs_come_nearest_first(
    observations: Seq<NeighbourObservation>,
    threshold: Distance,
    max_pairs: int,
    from: Seq<int>,
    out: Seq<DuplicateGroup>,
    j: int,
    k: int,
)
    requires
        pairs_up(observations, threshold, max_pairs, from, out),
        max_pairs >= 0,
        0 <= j < k < out.len(),
    ensures
        not_after(
            (out[j].distance.rank as int, out[j].group@[0].id@, out[j].group@[1].id@),
            (out[k].distance.rank as int, out[k].group@[0].id@, out[k].group@[1].id@),
        ),
{
    assert(reports_pair(out[j], observations[from[j]]));
    assert(reports_pair(out[k], observations[from[k]]));
    assert(from[j] != from[k]);
}

/// Two reports name the same documents at the same distance.
pub open spec fn same_pair(g: DuplicateGroup, h: DuplicateGroup) -> bool {
    &&& g.distance == h.distance
    &&& g.group@.len() == 2
    &&& h.group@.len() == 2
    &&& g.group@[0].id@ == h.group@[0].id@
    &&& g.group@[1].id@ == h.group@[1].id@
}

/// Two reports are the same, chunk texts and all.
pub open spec fn same_report(g: DuplicateGroup, h: DuplicateGroup) -> bool {
    &&& same_pair(g, h)
    &&& optional_view(g.group@[0].snippet) == optional_view(h.group@[0].snippet)
    &&& optional_view(g.group@[1].snippet) == optional_view(h.group@[1].snippet)
}

/// A smaller cap keeps the nearest pairs: what is reported under it is the beginning of what is
/// reported under a larger one.
pub proof fn a_smaller_cap_keeps_the_nearest(
    observations: Seq<NeighbourObservation>,
    threshold: Distance,
    small: int,
    large: int,
    from_small: Seq<int>,
    from_large: Seq<int>,
    some: Seq<DuplicateGroup>,
    all: Seq<DuplicateGroup>,
)
    requires
        pairs_up(observations, threshold, small, from_small, some),
        pairs_up(observations, threshold, large, from_large, all),
        0 <= small <= large,
    ensures
        some.len() == if all.len() <= small {
            all.len() as int
        } else {
            small
        },
        forall|k: int| 0 <= k < some.len() ==> same_report(#[trigger] some[k], all[k]),
{
    let s = standings(observations, from_small);
    let t = standings(observations, from_large);
    lemma_standings_ascend(observations, threshold, small, from_small, some);
    lemma_standings_ascend(observations, threshold, large, from_large, all);
    assert forall|x: (int, Seq<char>, Seq<char>)| #[trigger] s.contains(x) <==> t.contains(x) by {
        if s.contains(x) {
            let k = choose|k: int| 0 <= k < s.len() && s[k] == x;
            assert(is_kept(observations, threshold, from_small[k]));
            assert(from_large.contains(from_small[k]));
            let h = choose|h: int| 0 <= h < from_large.len() && from_large[h] == from_small[k];
            assert(t[h] == x);
        }
        if t.contains(x) {
            let k = choose|k: int| 0 <= k < t.len() && t[k] == x;
            assert(is_kept(observations, threshold, from_large[k]));
            assert(from_small.contains(from_large[k]));
            let h = choose|h: int| 0 <= h < from_small.len() && from_small[h] == from_large[k];
            assert(s[h] == x);
        }
    }
    lemma_one_order(s, t);
    assert(from_small.len() == s.len() && from_large.len() == t.len());
    assert forall|k: int| 0 <= k < some.len() implies same_report(#[trigger] some[k], all[k]) by {
        assert(s[k] == t[k]);
        assert(is_kept(observations, threshold, from_small[k]));
        assert(is_kept(observations, threshold, from_large[k]));
        lemma_kept_is_one(observations, threshold, from_small[k], from_large[k]);
        assert(reports_pair(some[k], observations[from_small[k]]));
        assert(reports_pair(all[k], observations[from_large[k]]));
    }
}

/// Two observations join the same documents in the same direction at the same distance.
pub open spec fn alike(a: NeighbourObservation, b: NeighbourObservation) -> bool {
    a.doc_a@ == b.doc_a@ && a.doc_b@ == b.doc_b@ && a.normalized_distance == b.normalized_distance
}

/// `b` holds the observations of `a` in another order; `p` holds the position in `a` of each.
pub open spec fn reorders(
    a: Seq<NeighbourObservation>,
    b: Seq<NeighbourObservation>,
    p: Seq<int>,
) -> bool {
    &&& p.len() == a.len()
    &&& b.len() == a.len()
    &&& forall|k: int| 0 <= k < p.len() ==> 0 <= #[trigger] p[k] < a.len() && alike(a[p[k]], b[k])
    &&& forall|i: int| 0 <= i < a.len() ==> #[trigger] p.contains(i)
}

/// Every observation of `a` has one like it in `b`.
spec fn is_found_in(a: Seq<NeighbourObservation>, b: Seq<NeighbourObservation>) -> bool {
    forall|i: int| 0 <= i < a.len() ==> has_alike(#[trigger] a[i], b)
}

spec fn has_alike(obs: NeighbourObservation, b: Seq<NeighbourObservation>) -> bool {
    exists|j: int| 0 <= j < b.len() && alike(obs, #[trigger] b[j])
}

/// A nearest observation of a pair has the standing of a kept one.
proof fn lemma_first_of_the_nearest(
    observations: Seq<NeighbourObservation>,
    threshold: Distance,
    i: int,
) -> (k: int)
    requires
        0 <= i < observations.len(),
        counts(observations[i], threshold),
        forall|j: int|
            0 <= j < observations.len() && counts(#[trigger] observations[j], threshold) && pair_of(
                observations[j],
            ) == pair_of(observations[i]) ==> observations[i].normalized_distance.rank
                <= observations[j].normalized_distance.rank,
    ensures
        is_kept(observations, threshold, k),
        standing(observations[k]) == standing(observations[i]),
    decreases i,
{
    if exists|j: int|
        0 <= j < i && counts(#[trigger] observations[j], threshold) && standing(observations[j])
            == standing(observations[i]) {
        let j = choose|j: int|
            0 <= j < i && counts(#[trigger] observations[j], threshold) && standing(observations[j])
                == standing(observations[i]);
        assert(pair_of(observations[j]) == pair_of(observations[i]));
        lemma_first_of_the_nearest(observations, threshold, j)
    } else {
        assert forall|j: int|
            0 <= j < observations.len() && counts(#[trigger] observations[j], threshold) && pair_of(
                observations[j],
            ) == pair_of(observations[i]) implies observations[i].normalized_distance.rank
            <= observations[j].normalized_distance.rank && (j < i
            ==> observations[i].normalized_distance.rank
            < observations[j].normalized_distance.rank) by {
            if j < i {
                assert(standing(observations[j]) != standing(observations[i]));
            }
        }
        i
    }
}

/// The standing of a kept observation is one among other observations of the same kind.
proof fn lemma_standing_carries_over(
    a: Seq<NeighbourObservation>,
    b: Seq<NeighbourObservation>,
    threshold: Distance,
    i: int,
) -> (k: int)
    requires
        is_found_in(a, b),
        is_found_in(b, a),
        is_kept(a, threshold, i),
    ensures
        is_kept(b, threshold, k),
        standing(b[k]) == standing(a[i]),
{
    assert(has_alike(a[i], b));
    let j = choose|j: int| 0 <= j < b.len() && alike(a[i], #[trigger] b[j]);
    assert(counts(b[j], threshold));
    assert forall|h: int|
        0 <= h < b.len() && counts(#[trigger] b[h], threshold) && pair_of(b[h]) == pair_of(
            b[j],
        ) implies b[j].normalized_distance.rank <= b[h].normalized_distance.rank by {
        assert(has_alike(b[h], a));
        let g = choose|g: int| 0 <= g < a.len() && alike(b[h], #[trigger] a[g]);
        assert(counts(a[g], threshold));
        assert(pair_of(a[g]) == pair_of(a[i]));
    }
    lemma_first_of_the_nearest(b, threshold, j)
}

/// Reordering the observations changes neither the reported pairs nor their distances.
pub proof fn order_of_observations_is_immaterial(
    a: Seq<NeighbourObservation>,
    b: Seq<NeighbourObservation>,
    p: Seq<int>,
    threshold: Distance,
    max_pairs: int,
    from_a: Seq<int>,
    from_b: Seq<int>,
    out_a: Seq<DuplicateGroup>,
    out_b: Seq<DuplicateGroup>,
)
    requires
        reorders(a, b, p),
        pairs_up(a, threshold, max_pairs, from_a, out_a),
        pairs_up(b, threshold, max_pairs, from_b, out_b),
        max_pairs >= 0,
    ensures
        out_a.len() == out_b.len(),
        forall|k: int| 0 <= k < out_a.len() ==> same_pair(#[trigger] out_a[k], out_b[k]),
{
    assert(is_found_in(a, b)) by {
        assert forall|i: int| 0 <= i < a.len() implies has_alike(#[trigger] a[i], b) by {
            assert(p.contains(i));
            let k = choose|k: int| 0 <= k < p.len() && p[k] == i;
            assert(alike(a[i], b[k]));
        }
    }
    assert(is_found_in(b, a)) by {
        assert forall|k: int| 0 <= k < b.len() implies has_alike(#[trigger] b[k], a) by {
            assert(0 <= p[k] < a.len());
            assert(alike(b[k], a[p[k]]));
        }
    }
    let s = standings(a, from_a);
    let t = standings(b, from_b);
    lemma_standings_ascend(a, threshold, max_pairs, from_a, out_a);
    lemma_standings_ascend(b, threshold, max_pairs, from_b, out_b);
    assert forall|x: (int, Seq<char>, Seq<char>)| #[trigger] s.contains(x) <==> t.contains(x) by {
        if s.contains(x) {
            let k = choose|k: int| 0 <= k < s.len() && s[k] == x;
            assert(is_kept(a, threshold, from_a[k]));
            let i = lemma_standing_carries_over(a, b, threshold, from_a[k]);
            assert(from_b.contains(i));
            let h = choose|h: int| 0 <= h < from_b.len() && from_b[h] == i;
            assert(t[h] == x);
        }
        if t.contains(x) {
            let k = choose|k: int| 0 <= k < t.len() && t[k] == x;
            assert(is_kept(b, threshold, from_b[k]));
            let i = lemma_standing_carries_over(b, a, threshold, from_b[k]);
            assert(from_a.contains(i));
            let h = choose|h: int| 0 <= h < from_a.len() && from_a[h] == i;
            assert(s[h] == x);
        }
    }
    lemma_one_order(s, t);
    assert(from_a.len() == s.len() && from_b.len() == t.len());
    assert forall|k: int| 0 <= k < out_a.len() implies same_pair(#[trigger] out_a[k], out_b[k]) by {
        assert(s[k] == t[k]);
        assert(reports_pair(out_a[k], a[from_a[k]]));
        assert(reports_pair(out_b[k], b[from_b[k]]));
    }
}

/// A reported distance is on the [0, 1] scale: half of a raw cosine distance, and any other distance
/// as it is.
pub proof fn reported_distances_are_on_the_unit_scale(h: ChunkHit)
    ensures
        h.distance_kind == DistanceKind::Normalised ==> reported_distance(h) == h.distance,
        h.distance_kind == DistanceKind::RawCosine && -0x7f80_0000 < h.distance.rank < 0x7f80_0000
            ==> -1 <= distance::value(h.distance) - 2 * distance::value(reported_distance(h)) <= 1,
        h.distance_kind == DistanceKind::RawCosine && 0x100_0000 <= h.distance.rank < 0x7f80_0000
            ==> 2 * distance::value(reported_distance(h)) == distance::value(h.distance),
        h.distance_kind == DistanceKind::RawCosine && 0 <= h.distance.rank <= 0x4000_0000 ==> 0
            <= reported_distance(h).rank <= 0x3f80_0000,
{
    if h.distance.is_finite() {
        distance::halving_halves_the_value(h.distance);
    }
    if 0 <= h.distance.rank <= 0x4000_0000 {
        distance::halving_maps_cosine_distances_onto_the_unit_scale(h.distance);
    }
}

/// A document is reported by its nearest chunk, with that chunk's own place and text, at that
/// chunk's distance on the reported scale.
pub proof fn documents_are_reported_by_their_nearest_chunk(
    hits: Seq<ChunkHit>,
    snippet: bool,
    from: Seq<int>,
    out: Seq<SearchHit>,
    k: int,
)
    requires
        reduces(hits, snippet, from, out),
        0 <= k < out.len(),
    ensures
        0 <= from[k] < hits.len(),
        ({
            let h = hits[from[k]];
            let r = out[k];
            &&& r.id@ == h.doc_id@
            &&& h.chunk_index >= 0 ==> r.chunk.index == h.chunk_index
            &&& h.chunk_count >= 0 ==> r.chunk.count == h.chunk_count
            &&& h.chunk_token_start >= 0 ==> r.chunk.token_start == h.chunk_token_start
            &&& h.doc_token_len >= 0 ==> r.chunk.doc_token_len == h.doc_token_len
            &&& r.chunk.snippet is Some <==> snippet
            &&& snippet ==> r.chunk.snippet->0@ == h.content@
            &&& h.distance_kind == DistanceKind::Normalised ==> r.distance == h.distance
            &&& h.distance_kind == DistanceKind::RawCosine && -0x7f80_0000 < h.distance.rank
                < 0x7f80_0000 ==> -1 <= distance::value(h.distance) - 2 * distance::value(r.distance)
                <= 1
            &&& h.distance_kind == DistanceKind::RawCosine && 0x100_0000 <= h.distance.rank
                < 0x7f80_0000 ==> 2 * distance::value(r.distance) == distance::value(h.distance)
            &&& forall|i: int|
                0 <= i < hits.len() && (#[trigger] hits[i]).doc_id@ == r.id@ && -0x7f80_0000
                    <= hits[i].distance.rank <= 0x7f80_0000 ==> -0x7f80_0000 <= h.distance.rank
                    <= 0x7f80_0000 && distance::value(h.distance) <= distance::value(
                    hits[i].distance,
                )
        }),
{
    let x = from[k];
    let h = hits[x];
    assert(is_best_chunk(hits, x));
    assert(reports(out[k], h, snippet));
    reported_distances_are_on_the_unit_scale(h);
    assert forall|i: int|
        0 <= i < hits.len() && (#[trigger] hits[i]).doc_id@ == out[k].id@ && -0x7f80_0000
            <= hits[i].distance.rank <= 0x7f80_0000 implies -0x7f80_0000 <= h.distance.rank
        <= 0x7f80_0000 && distance::value(h.distance) <= distance::value(hits[i].distance) by {
        assert(hit_ids(hits)[i] == hit_ids(hits)[x]);
        assert(hit_ranks(hits)[x] <= hit_ranks(hits)[i]);
        distance::places_order_as_values(hits[i].distance, h.distance);
    }
}

/// Documents come out nearest first, in the order of the values of their reported distances, with
/// those whose distance is no number behind.
pub proof fn documents_come_nearest_first(
    hits: Seq<ChunkHit>,
    snippet: bool,
    from: Seq<int>,
    out: Seq<SearchHit>,
    j: int,
    k: int,
)
    requires
        reduces(hits, snippet, from, out),
        0 <= j < k < out.len(),
        -0x7f80_0000 <= out[k].distance.rank <= 0x7f80_0000,
    ensures
        -0x7f80_0000 <= out[j].distance.rank <= 0x7f80_0000,
        distance::value(out[j].distance) <= distance::value(out[k].distance),
{
    assert(from[j] != from[k]);
    distance::places_order_as_values(out[k].distance, out[j].distance);
}

/// Every document with a hit is reported once.
pub proof fn every_document_comes_out_once(
    hits: Seq<ChunkHit>,
    snippet: bool,
    from: Seq<int>,
    out: Seq<SearchHit>,
)
    requires
        reduces(hits, snippet, from, out),
    ensures
        forall|i: int|
            0 <= i < hits.len() ==> exists|k: int|
                0 <= k < out.len() && (#[trigger] out[k]).id@ == (#[trigger] hits[i]).doc_id@,
        forall|j: int, k: int|
            #![trigger out[j], out[k]]
            0 <= j < k < out.len() ==> out[j].id@ != out[k].id@,
{
    assert forall|i: int| 0 <= i < hits.len() implies exists|k: int|
        0 <= k < out.len() && (#[trigger] out[k]).id@ == (#[trigger] hits[i]).doc_id@ by {
        let k = every_document_is_reported(hits, snippet, from, out, i);
        assert(out[k].id@ == hits[i].doc_id@);
    }
    assert forall|j: int, k: int|
        #![trigger out[j], out[k]]
        0 <= j < k < out.len() implies out[j].id@ != out[k].id@ by {
        no_document_is_reported_twice(hits, snippet, from, out, j, k);
    }
}

/// Two observations join the same two documents, in either direction.
pub open spec fn join_the_same(a: NeighbourObservation, b: NeighbourObservation) -> bool {
    (a.doc_a@ == b.doc_a@ && a.doc_b@ == b.doc_b@) || (a.doc_a@ == b.doc_b@ && a.doc_b@
        == b.doc_a@)
}

proof fn lemma_join_is_pair(a: NeighbourObservation, b: NeighbourObservation)
    ensures
        join_the_same(a, b) <==> pair_of(a) == pair_of(b),
{
    text::text_le_is_a_linear_order(a.doc_a@, a.doc_b@, a.doc_a@);
    text::text_le_is_a_linear_order(b.doc_a@, b.doc_b@, b.doc_a@);
}

/// A reported pair is that of an observation of two different documents within the threshold, the
/// nearest that joins these two documents; each member carries the text observed for it, and the
/// smaller id stands first.
pub proof fn pairs_report_their_nearest_observation(
    observations: Seq<NeighbourObservation>,
    threshold: Distance,
    max_pairs: int,
    from: Seq<int>,
    out: Seq<DuplicateGroup>,
    k: int,
)
    requires
        pairs_up(observations, threshold, max_pairs, from, out),
        0 <= k < out.len(),
        max_pairs >= 0,
    ensures
        0 <= from[k] < observations.len(),
        ({
            let o = observations[from[k]];
            let a = out[k].group@[0];
            let b = out[k].group@[1];
            &&& out[k].group@.len() == 2
            &&& o.doc_a@ != o.doc_b@
            &&& out[k].distance == o.normalized_distance
            &&& (a.id@ == o.doc_a@ && b.id@ == o.doc_b@ && optional_view(a.snippet)
                == optional_view(o.content_a) && optional_view(b.snippet) == optional_view(
                o.content_b,
            )) || (a.id@ == o.doc_b@ && b.id@ == o.doc_a@ && optional_view(a.snippet)
                == optional_view(o.content_b) && optional_view(b.snippet) == optional_view(
                o.content_a,
            ))
            &&& text::text_le(a.id@, b.id@)
            &&& -0x7f80_0000 <= out[k].distance.rank <= 0x7f80_0000
            &&& -0x7f80_0000 <= threshold.rank <= 0x7f80_0000
            &&& distance::value(out[k].distance) <= distance::value(threshold)
            &&& forall|i: int|
                #![trigger observations[i]]
                0 <= i < observations.len() && join_the_same(observations[i], o) && -0x7f80_0000
                    <= observations[i].normalized_distance.rank ==> distance::value(
                    out[k].distance,
                ) <= distance::value(observations[i].normalized_distance)
        }),
{
    let o = observations[from[k]];
    assert(is_kept(observations, threshold, from[k]));
    assert(reports_pair(out[k], o));
    text::text_le_is_a_linear_order(o.doc_a@, o.doc_b@, o.doc_a@);
    distance::ranks_order_as_values(threshold, o.normalized_distance);
    assert forall|i: int|
        #![trigger observations[i]]
        0 <= i < observations.len() && join_the_same(observations[i], o) && -0x7f80_0000
            <= observations[i].normalized_distance.rank implies distance::value(out[k].distance)
        <= distance::value(observations[i].normalized_distance) by {
        lemma_join_is_pair(observations[i], o);
        distance::ranks_order_as_values(
            observations[i].normalized_distance,
            o.normalized_distance,
        );
        if counts(observations[i], threshold) {
            assert(o.normalized_distance.rank <= observations[i].normalized_distance.rank);
        }
    }
}

proof fn lemma_nearest_of_pair(
    observations: Seq<NeighbourObservation>,
    threshold: Distance,
    i: int,
) -> (k: int)
    requires
        0 <= i < observations.len(),
        counts(observations[i], threshold),
    ensures
        is_kept(observations, threshold, k),
        pair_of(observations[k]) == pair_of(observations[i]),
        observations[k].normalized_distance.rank <= observations[i].normalized_distance.rank,
    decreases observations[i].normalized_distance.rank + 0x8000_0000,
{
    if exists|j: int|
        0 <= j < observations.len() && counts(#[trigger] observations[j], threshold) && pair_of(
            observations[j],
        ) == pair_of(observations[i]) && observations[j].normalized_distance.rank
            < observations[i].normalized_distance.rank {
        let j = choose|j: int|
            0 <= j < observations.len() && counts(#[trigger] observations[j], threshold) && pair_of(
                observations[j],
            ) == pair_of(observations[i]) && observations[j].normalized_distance.rank
                < observations[i].normalized_distance.rank;
        lemma_nearest_of_pair(observations, threshold, j)
    } else {
        lemma_first_of_the_nearest(observations, threshold, i)
    }
}

/// Every observation of two different documents whose distance is no larger than the threshold has
/// its pair reported, at a distance no larger; or as many pairs as asked for are reported, all of
/// them no farther.
pub proof fn near_observations_are_reported(
    observations: Seq<NeighbourObservation>,
    threshold: Distance,
    max_pairs: int,
    from: Seq<int>,
    out: Seq<DuplicateGroup>,
    i: int,
)
    requires
        pairs_up(observations, threshold, max_pairs, from, out),
        max_pairs >= 0,
        0 <= i < observations.len(),
        observations[i].doc_a@ != observations[i].doc_b@,
        -0x7f80_0000 <= observations[i].normalized_distance.rank <= 0x7f80_0000,
        -0x7f80_0000 <= threshold.rank <= 0x7f80_0000,
        distance::value(observations[i].normalized_distance) <= distance::value(threshold),
    ensures
        (exists|k: int|
            0 <= k < out.len() && ((#[trigger] out[k]).group@[0].id@ == observations[i].doc_a@
                && out[k].group@[1].id@ == observations[i].doc_b@ || out[k].group@[0].id@
                == observations[i].doc_b@ && out[k].group@[1].id@ == observations[i].doc_a@)
                && distance::value(out[k].distance) <= distance::value(
                observations[i].normalized_distance,
            )) || (out.len() == max_pairs && forall|k: int|
            0 <= k < out.len() ==> distance::value((#[trigger] out[k]).distance)
                <= distance::value(observations[i].normalized_distance)),
{
    let o = observations[i];
    distance::ranks_order_as_values(threshold, o.normalized_distance);
    assert(counts(o, threshold));
    let x = lemma_nearest_of_pair(observations, threshold, i);
    assert(from.contains(x));
    let k = choose|k: int| 0 <= k < from.len() && from[k] == x;
    distance::ranks_order_as_values(
        o.normalized_distance,
        observations[x].normalized_distance,
    );
    if k < out.len() {
        assert(reports_pair(out[k], observations[x]));
        lemma_join_is_pair(o, observations[x]);
        text::text_le_is_a_linear_order(o.doc_a@, o.doc_b@, o.doc_a@);
        assert(distance::value(out[k].distance) <= distance::value(o.normalized_distance));
    } else {
        assert forall|h: int| 0 <= h < out.len() implies distance::value(
            (#[trigger] out[h]).distance,
        ) <= distance::value(o.normalized_distance) by {
            assert(reports_pair(out[h], observations[from[h]]));
            assert(from[h] != from[k]);
            distance::ranks_order_as_values(o.normalized_distance, out[h].distance);
        }
    }
}

} // verus!
