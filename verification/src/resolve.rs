//! Nearest-neighbour selection for near-duplicate scans and cross-population resolution.

use crate::batch;
use crate::batch::Batch;
use crate::dedup;
use crate::distance;
use crate::distance::Distance;
use crate::grouping;
use crate::order;
use crate::order::Ascending;
use crate::scan::IndexedPoint;
use crate::schema::{
    ChunkHit, DistanceKind, Neighbour, NeighbourList, NeighbourObservation, StoreError,
};
use crate::text;
use vstd::prelude::*;
use vstd::string::*;

verus! {

/// Candidate populations up to this size are compared exhaustively; larger ones go through the
/// vector index.
pub const ADAPTIVE_ANN_CANDIDATE_THRESHOLD: usize = 30_000;

/// Rows fetched by the neighbour query of a near-duplicate scan.
pub const NEIGHBOUR_K: usize = 8;

/// How the neighbours of a point are found.
#[derive(Debug, Clone, Copy, PartialEq, Eq, Structural)]
pub enum ProbeStrategy {
    /// Compare with every candidate.
    Flat,
    /// Query the vector index.
    Ann,
}

/// The strategy for a candidate population.
pub fn choose_strategy(candidates: usize) -> (r: ProbeStrategy)
    ensures
        r == ProbeStrategy::Flat <==> candidates <= ADAPTIVE_ANN_CANDIDATE_THRESHOLD,
        r == ProbeStrategy::Ann <==> candidates > ADAPTIVE_ANN_CANDIDATE_THRESHOLD,
        r == ProbeStrategy::Ann <==> candidates > 30_000,
{
    if candidates <= ADAPTIVE_ANN_CANDIDATE_THRESHOLD {
        ProbeStrategy::Flat
    } else {
        ProbeStrategy::Ann
    }
}

/// Rows fetched by the index query of a resolution, which may miss some neighbours.
pub fn ann_fetch(k: usize) -> (r: usize)
    requires
        2 * k <= usize::MAX,
    ensures
        r == 2 * k,
        r - k == k,
{
    k * 2
}

/// The message that refuses a near-duplicate scan.
pub open spec fn duplicate_refusal(points: nat, max_points: nat) -> Seq<char> {
    "near-duplicate scan refused: set population has "@ + text::decimal(points)
        + " points, exceeds the bound of "@ + text::decimal(max_points)
        + " (would not be a safely bounded run) — narrow the `set` scope or chunk the request"@
}

/// Admits a near-duplicate scan: a set population beyond the bound is refused, never truncated.
pub fn check_duplicate_bound(points: usize, max_points: usize) -> (r: Result<(), StoreError>)
    ensures
        r is Ok <==> points <= max_points,
        r is Err <==> points > max_points,
        r matches Err(e) ==> e.message() == duplicate_refusal(points as nat, max_points as nat),
{
    if points > max_points {
        let mut m = "near-duplicate scan refused: set population has ".to_owned();
        text::push_decimal(&mut m, points as u64);
        m.append(" points, exceeds the bound of ");
        text::push_decimal(&mut m, max_points as u64);
        m.append(
            " (would not be a safely bounded run) — narrow the `set` scope or chunk the request",
        );
        return Err(StoreError::Internal(m));
    }
    Ok(())
}

/// The message that refuses a resolution.
pub open spec fn resolve_refusal(set: nat, target: nat, max_points: nat) -> Seq<char> {
    "resolve refused: combined population has "@ + text::decimal(set + target) + " points (set="@
        + text::decimal(set) + ", target="@ + text::decimal(target) + "), exceeds the bound of "@
        + text::decimal(max_points) + " — narrow the scope"@
}

/// Admits a resolution: the two populations together may not exceed the bound.
pub fn check_resolve_bound(set: usize, target: usize, max_points: usize) -> (r: Result<
    (),
    StoreError,
>)
    requires
        set + target <= usize::MAX,
    ensures
        r is Ok <==> set + target <= max_points,
        r is Err <==> target > max_points - set,
        r matches Err(e) ==> e.message() == resolve_refusal(
            set as nat,
            target as nat,
            max_points as nat,
        ),
{
    let total = set + target;
    if total > max_points {
        let mut m = "resolve refused: combined population has ".to_owned();
        text::push_decimal(&mut m, total as u64);
        m.append(" points (set=");
        text::push_decimal(&mut m, set as u64);
        m.append(", target=");
        text::push_decimal(&mut m, target as u64);
        m.append("), exceeds the bound of ");
        text::push_decimal(&mut m, max_points as u64);
        m.append(" — narrow the scope");
        return Err(StoreError::Internal(m));
    }
    Ok(())
}

/// Candidate `i` is admitted: within the threshold, and not of the probe's own document.
pub open spec fn admitted(
    ids: Seq<Seq<char>>,
    distances: Seq<Distance>,
    own: Option<Seq<char>>,
    threshold: Distance,
    i: int,
) -> bool {
    &&& 0 <= i < ids.len()
    &&& distances[i].within(threshold)
    &&& own != Some(ids[i])
}

/// Candidate `i` stands for its document: admitted, the nearest of the document's admitted
/// candidates, and the first among the equally near.
pub open spec fn is_nearest(
    ids: Seq<Seq<char>>,
    distances: Seq<Distance>,
    own: Option<Seq<char>>,
    threshold: Distance,
    i: int,
) -> bool {
    &&& admitted(ids, distances, own, threshold, i)
    &&& forall|j: int|
        admitted(ids, distances, own, threshold, j) && #[trigger] ids[j] == ids[i]
            ==> distances[i].rank <= distances[j].rank && (j < i ==> distances[i].rank
            < distances[j].rank)
}

/// `from` lists the candidates that stand for a document once, nearest first, and `out` names the
/// first `k` of them.
pub open spec fn selects(
    ids: Seq<Seq<char>>,
    distances: Seq<Distance>,
    own: Option<Seq<char>>,
    threshold: Distance,
    k: int,
    from: Seq<int>,
    out: Seq<Neighbour>,
) -> bool {
    &&& out.len() == if from.len() <= k {
        from.len() as int
    } else {
        k
    }
    &&& forall|j: int|
        0 <= j < from.len() ==> is_nearest(ids, distances, own, threshold, #[trigger] from[j])
    &&& forall|i: int| is_nearest(ids, distances, own, threshold, i) ==> #[trigger] from.contains(i)
    &&& forall|i: int, j: int|
        #![trigger from[i], from[j]]
        0 <= i < j < from.len() ==> from[i] != from[j] && distances[from[i]].rank
            <= distances[from[j]].rank
    &&& forall|j: int|
        0 <= j < out.len() ==> (#[trigger] out[j]).id@ == ids[from[j]] && out[j].distance
            == distances[from[j]]
}

/// An optional text and its view.
pub open spec fn own_id(own: Option<&str>) -> Option<Seq<char>> {
    match own {
        Some(s) => Some(s@),
        None => None,
    }
}

/// The `k` nearest documents among the candidates within the threshold, never the probe's own.
pub fn select_top_k(
    ids: &Vec<String>,
    distances: &Vec<Distance>,
    own: Option<&str>,
    threshold: Distance,
    k: usize,
) -> (out: Vec<Neighbour>)
    requires
        ids.len() == distances.len(),
    ensures
        exists|from: Seq<int>|
            selects(
                grouping::views(ids@),
                distances@,
                own_id(own),
                threshold,
                k as int,
                from,
                out@,
            ),
{
    let ghost names = grouping::views(ids@);
    let ghost o = own_id(own);
    let mut kept: Vec<usize> = Vec::new();
    let mut kept_ids: Vec<String> = Vec::new();
    let mut ranks: Vec<i64> = Vec::new();
    let mut i: usize = 0;
    while i < ids.len()
        invariant
            i <= ids.len(),
            ids.len() == distances.len(),
            names == grouping::views(ids@),
            o == own_id(own),
            kept.len() == kept_ids.len() == ranks.len(),
            forall|c: int|
                #![trigger kept@[c]]
                0 <= c < kept.len() ==> {
                    &&& kept@[c] < i
                    &&& admitted(names, distances@, o, threshold, kept@[c] as int)
                    &&& kept_ids@[c]@ == names[kept@[c] as int]
                    &&& ranks@[c] == distances@[kept@[c] as int].rank
                },
            forall|c: int, d: int|
                #![trigger kept@[c], kept@[d]]
                0 <= c < d < kept.len() ==> kept@[c] < kept@[d],
            forall|j: int|
                0 <= j < i && #[trigger] admitted(names, distances@, o, threshold, j)
                    ==> kept@.contains(j as usize),
        decreases ids.len() - i,
    {
        let is_own: bool = match own {
            Some(s) => text_eq(ids[i].as_str(), s),
            None => false,
        };
        let ghost before = kept@;
        if distances[i].is_within(threshold) && !is_own {
            kept.push(i);
            kept_ids.push(ids[i].clone());
            ranks.push(distances[i].rank as i64);
            assert(kept@[before.len() as int] == i);
        }
        proof {
            assert forall|j: int|
                0 <= j < i + 1 && #[trigger] admitted(
                    names,
                    distances@,
                    o,
                    threshold,
                    j,
                ) implies kept@.contains(j as usize) by {
                if j < i {
                    assert(before.contains(j as usize));
                    let c = choose|c: int| 0 <= c < before.len() && before[c] == j as usize;
                    assert(kept@[c] == j as usize);
                }
            }
        }
        i = i + 1;
    }
    let ghost kept_names = grouping::views(kept_ids@);
    let best = grouping::ranked_best_by_key(&kept_ids, &ranks);
    proof {
        assert(ids.len() <= usize::MAX);
        lemma_best_is_nearest(names, distances@, o, threshold, kept@, kept_names, ranks@);
    }
    let ghost from = Seq::new(best@.len(), |j: int| kept@[best@[j] as int] as int);
    let mut out: Vec<Neighbour> = Vec::new();
    let mut j: usize = 0;
    while j < best.len() && j < k
        invariant
            j <= best.len(),
            j <= k,
            out.len() == j,
            ids.len() == distances.len(),
            kept.len() == kept_ids.len(),
            names == grouping::views(ids@),
            kept_names == grouping::views(kept_ids@),
            grouping::lists_best(kept_names, ranks@, best@),
            from == Seq::new(best@.len(), |j: int| kept@[best@[j] as int] as int),
            forall|c: int| 0 <= c < kept.len() ==> (#[trigger] kept@[c]) < ids.len(),
            forall|x: int|
                0 <= x < j ==> (#[trigger] out@[x]).id@ == names[from[x]] && out@[x].distance
                    == distances@[from[x]],
        decreases best.len() - j,
    {
        assert(grouping::is_best(kept_names, ranks@, best@[j as int] as int));
        let position = kept[best[j]];
        out.push(Neighbour { id: ids[position].clone(), distance: distances[position] });
        j = j + 1;
    }
    proof {
        assert forall|x: int| 0 <= x < from.len() implies is_nearest(
            names,
            distances@,
            o,
            threshold,
            #[trigger] from[x],
        ) by {
            assert(grouping::is_best(kept_names, ranks@, best@[x] as int));
        }
        assert forall|i: int| is_nearest(
            names,
            distances@,
            o,
            threshold,
            i,
        ) implies #[trigger] from.contains(i) by {
            assert(admitted(names, distances@, o, threshold, i));
            assert(kept@.contains(i as usize));
            let c = choose|c: int| 0 <= c < kept@.len() && kept@[c] == i as usize;
            assert(grouping::is_best(kept_names, ranks@, c));
            assert(best@.contains(c as usize));
            let x = choose|x: int| 0 <= x < best@.len() && best@[x] == c as usize;
            assert(from[x] == i);
        }
        assert forall|x: int, y: int|
            #![trigger from[x], from[y]]
            0 <= x < y < from.len() implies from[x] != from[y] && distances@[from[x]].rank
            <= distances@[from[y]].rank by {
            let c = best@[x] as int;
            let d = best@[y] as int;
            assert(c != d);
            assert(grouping::is_best(kept_names, ranks@, c));
            assert(grouping::is_best(kept_names, ranks@, d));
            assert(kept@[c] != kept@[d]);
        }
        assert(selects(names, distances@, o, threshold, k as int, from, out@));
    }
    out
}

proof fn lemma_best_is_nearest(
    names: Seq<Seq<char>>,
    distances: Seq<Distance>,
    own: Option<Seq<char>>,
    threshold: Distance,
    kept: Seq<usize>,
    kept_names: Seq<Seq<char>>,
    ranks: Seq<i64>,
)
    requires
        names.len() <= usize::MAX,
        kept.len() == kept_names.len() == ranks.len(),
        forall|c: int|
            #![trigger kept[c]]
            0 <= c < kept.len() ==> {
                &&& kept[c] < names.len()
                &&& admitted(names, distances, own, threshold, kept[c] as int)
                &&& kept_names[c] == names[kept[c] as int]
                &&& ranks[c] == distances[kept[c] as int].rank
            },
        forall|c: int, d: int|
            #![trigger kept[c], kept[d]]
            0 <= c < d < kept.len() ==> kept[c] < kept[d],
        forall|j: int|
            #[trigger] admitted(names, distances, own, threshold, j) ==> kept.contains(j as usize),
    ensures
        forall|c: int|
            #![trigger kept[c]]
            0 <= c < kept.len() ==> (grouping::is_best(kept_names, ranks, c) <==> is_nearest(
                names,
                distances,
                own,
                threshold,
                kept[c] as int,
            )),
{
    assert forall|c: int| #![trigger kept[c]] 0 <= c < kept.len() implies (grouping::is_best(
        kept_names,
        ranks,
        c,
    ) <==> is_nearest(names, distances, own, threshold, kept[c] as int)) by {
        let i = kept[c] as int;
        if grouping::is_best(kept_names, ranks, c) {
            assert forall|j: int|
                admitted(names, distances, own, threshold, j) && #[trigger] names[j]
                    == names[i] implies distances[i].rank <= distances[j].rank && (j < i
                ==> distances[i].rank < distances[j].rank) by {
                assert(kept.contains(j as usize));
                let d = choose|d: int| 0 <= d < kept.len() && kept[d] == j as usize;
                assert(kept_names[d] == kept_names[c]);
                if d > c {
                    assert(kept[c] < kept[d]);
                }
            }
        }
        if is_nearest(names, distances, own, threshold, i) {
            assert forall|d: int|
                0 <= d < kept_names.len() && #[trigger] kept_names[d]
                    == kept_names[c] implies ranks[c] <= ranks[d] && (d < c ==> ranks[c]
                < ranks[d]) by {
                assert(kept[d] < names.len());
                assert(admitted(names, distances, own, threshold, kept[d] as int));
                assert(names[kept[d] as int] == names[i]);
            }
        }
    }
}

/// Whether two texts are equal.
pub fn text_eq(a: &str, b: &str) -> (r: bool)
    ensures
        r == (a@ == b@),
{
    a.to_owned() == b.to_owned()
}

/// The selected neighbours are other documents within the threshold, each once, nearest first, at
/// most `k`.
pub proof fn neighbours_are_near_and_distinct(
    ids: Seq<Seq<char>>,
    distances: Seq<Distance>,
    own: Option<Seq<char>>,
    threshold: Distance,
    k: int,
    from: Seq<int>,
    out: Seq<Neighbour>,
)
    requires
        selects(ids, distances, own, threshold, k, from, out),
        k >= 0,
    ensures
        out.len() <= k,
        forall|j: int|
            0 <= j < out.len() ==> (#[trigger] out[j]).distance.within(threshold) && own
                != Some(out[j].id@),
        forall|i: int, j: int|
            #![trigger out[i], out[j]]
            0 <= i < j < out.len() ==> out[i].id@ != out[j].id@ && out[i].distance.rank
                <= out[j].distance.rank,
{
    assert forall|j: int| 0 <= j < out.len() implies (#[trigger] out[j]).distance.within(
        threshold,
    ) && own != Some(out[j].id@) by {
        assert(is_nearest(ids, distances, own, threshold, from[j]));
    }
    assert forall|i: int, j: int|
        #![trigger out[i], out[j]]
        0 <= i < j < out.len() implies out[i].id@ != out[j].id@ && out[i].distance.rank
        <= out[j].distance.rank by {
        assert(is_nearest(ids, distances, own, threshold, from[i]));
        assert(is_nearest(ids, distances, own, threshold, from[j]));
        assert(from[i] != from[j]);
    }
}

/// A document left out of a full selection is no nearer than any that was selected.
pub proof fn selection_keeps_the_nearest(
    ids: Seq<Seq<char>>,
    distances: Seq<Distance>,
    own: Option<Seq<char>>,
    threshold: Distance,
    k: int,
    from: Seq<int>,
    out: Seq<Neighbour>,
    i: int,
)
    requires
        selects(ids, distances, own, threshold, k, from, out),
        k >= 0,
        is_nearest(ids, distances, own, threshold, i),
        forall|j: int| 0 <= j < out.len() ==> (#[trigger] out[j]).id@ != ids[i],
    ensures
        out.len() == k,
        forall|j: int| 0 <= j < out.len() ==> (#[trigger] out[j]).distance.rank <= distances[i].rank,
{
    assert(from.contains(i));
    let x = choose|x: int| 0 <= x < from.len() && from[x] == i;
    if x < out.len() {
        assert(out[x].id@ == ids[i]);
    }
    assert forall|j: int| 0 <= j < out.len() implies (#[trigger] out[j]).distance.rank
        <= distances[i].rank by {
        assert(from[j] != from[x]);
    }
}

/// The `k` nearest documents of a materialised candidate population, by their distances from the
/// probe.
pub fn flat_knn_top_k(
    self_doc_id: &str,
    candidate_ids: &Vec<String>,
    distances: &Vec<Distance>,
    k: usize,
    threshold: Distance,
) -> (out: Vec<Neighbour>)
    requires
        candidate_ids.len() == distances.len(),
    ensures
        exists|from: Seq<int>|
            selects(
                grouping::views(candidate_ids@),
                distances@,
                Some(self_doc_id@),
                threshold,
                k as int,
                from,
                out@,
            ),
{
    select_top_k(candidate_ids, distances, Some(self_doc_id), threshold, k)
}

/// The documents and normalised distances of an index query's batch, or its first missing column.
pub open spec fn ann_batch(b: Batch) -> Result<Seq<(Seq<char>, Distance)>, Seq<char>> {
    if b.rows == 0 {
        Ok(Seq::empty())
    } else if b.doc_id is None {
        Err("ANN result batch missing `doc_id` column — Lance contract violated"@)
    } else if b.distance is None {
        Err("ANN result batch missing `_distance` column — Lance nearest() contract violated"@)
    } else {
        Ok(
            Seq::new(
                b.rows as nat,
                |i: int| (b.doc_id->0@[i]@, distance::half(b.distance->0@[i])),
            ),
        )
    }
}

/// The documents and normalised distances of an index query.
pub open spec fn ann_rows(batches: Seq<Batch>) -> Result<Seq<(Seq<char>, Distance)>, Seq<char>> {
    crate::scan::gather(|i: int| ann_batch(batches[i]), batches.len() as int)
}

/// The ids of a list of documents with distances.
pub open spec fn firsts(rows: Seq<(Seq<char>, Distance)>) -> Seq<Seq<char>> {
    rows.map_values(|r: (Seq<char>, Distance)| r.0)
}

/// The distances of a list of documents with distances.
pub open spec fn seconds(rows: Seq<(Seq<char>, Distance)>) -> Seq<Distance> {
    rows.map_values(|r: (Seq<char>, Distance)| r.1)
}

/// `out` is the selection among the rows of an index query that does not fail.
pub open spec fn selects_from_rows(
    batches: Seq<Batch>,
    threshold: Distance,
    k: int,
    out: Seq<Neighbour>,
) -> bool {
    match ann_rows(batches) {
        Ok(rows) => exists|from: Seq<int>|
            selects(firsts(rows), seconds(rows), None, threshold, k, from, out),
        Err(_) => false,
    }
}

/// The `k` nearest documents of an index query. A missing column is an error.
pub fn extract_top_k_neighbours(batches: &Vec<Batch>, k: usize, threshold: Distance) -> (r: Result<
    Vec<Neighbour>,
    StoreError,
>)
    requires
        batch::all_well_formed(batches@),
    ensures
        match r {
            Ok(out) => selects_from_rows(batches@, threshold, k as int, out@),
            Err(e) => ann_rows(batches@) == Err::<Seq<(Seq<char>, Distance)>, Seq<char>>(
                e.message(),
            ),
        },
{
    let ghost part = |i: int| ann_batch(batches@[i]);
    let mut ids: Vec<String> = Vec::new();
    let mut distances: Vec<Distance> = Vec::new();
    let ghost rows: Seq<(Seq<char>, Distance)> = Seq::empty();
    let mut i: usize = 0;
    while i < batches.len()
        invariant
            i <= batches.len(),
            batch::all_well_formed(batches@),
            part == (|i: int| ann_batch(batches@[i])),
            crate::scan::gather(part, i as int) == Ok::<Seq<(Seq<char>, Distance)>, Seq<char>>(
                rows,
            ),
            ids.len() == rows.len(),
            distances.len() == rows.len(),
            forall|j: int| 0 <= j < rows.len() ==> (#[trigger] ids@[j])@ == rows[j].0,
            forall|j: int| 0 <= j < rows.len() ==> (#[trigger] distances@[j]) == rows[j].1,
        decreases batches.len() - i,
    {
        let b = &batches[i];
        assert(part(i as int) == ann_batch(*b));
        if b.rows > 0 {
            if let (Some(doc_ids), Some(raw)) = (&b.doc_id, &b.distance) {
                let ghost more = ann_batch(*b)->Ok_0;
                let ghost start = rows;
                let mut j: usize = 0;
                while j < b.rows
                    invariant
                        j <= b.rows,
                        b.well_formed(),
                        b.rows > 0,
                        b.doc_id == Some(*doc_ids),
                        b.distance == Some(*raw),
                        more == ann_batch(*b)->Ok_0,
                        ids.len() == start.len() + j,
                        distances.len() == start.len() + j,
                        forall|x: int| 0 <= x < start.len() ==> (#[trigger] ids@[x])@ == start[x].0,
                        forall|x: int|
                            0 <= x < start.len() ==> (#[trigger] distances@[x]) == start[x].1,
                        forall|x: int|
                            start.len() <= x < start.len() + j ==> (#[trigger] ids@[x])@ == more[x
                                - start.len()].0,
                        forall|x: int|
                            start.len() <= x < start.len() + j ==> (#[trigger] distances@[x])
                                == more[x - start.len()].1,
                    decreases b.rows - j,
                {
                    ids.push(doc_ids[j].clone());
                    distances.push(raw[j].halved());
                    j = j + 1;
                }
                proof {
                    rows = rows + more;
                }
            } else {
                proof {
                    crate::scan::lemma_gather_fail(part, i + 1, batches@.len() as int);
                }
                let m = if b.doc_id.is_none() {
                    "ANN result batch missing `doc_id` column — Lance contract violated"
                } else {
                    "ANN result batch missing `_distance` column — Lance nearest() contract violated"
                };
                return Err(StoreError::Internal(m.to_owned()));
            }
        } else {
            assert(rows + Seq::<(Seq<char>, Distance)>::empty() =~= rows);
        }
        i = i + 1;
    }
    let out = select_top_k(&ids, &distances, None, threshold, k);
    proof {
        assert(grouping::views(ids@) =~= firsts(rows));
        assert(distances@ =~= seconds(rows));
        assert(ann_rows(batches@) == crate::scan::gather(part, batches@.len() as int));
        let full = ann_rows(batches@);
        assert(full->Ok_0 == rows);
        assert(exists|from: Seq<int>|
            selects(firsts(full->Ok_0), seconds(full->Ok_0), None, threshold, k as int, from, out@));
    }
    Ok(out)
}

/// A list of neighbours as ids and distances.
pub open spec fn entries(list: Seq<Neighbour>) -> Seq<(Seq<char>, Distance)> {
    list.map_values(|n: Neighbour| (n.id@, n.distance))
}

/// The first position of a document at or behind `start`; the length when there is none.
pub open spec fn position_of(list: Seq<(Seq<char>, Distance)>, id: Seq<char>, start: int) -> int
    decreases list.len() - start,
{
    if start >= list.len() || start < 0 {
        list.len() as int
    } else if list[start].0 == id {
        start
    } else {
        position_of(list, id, start + 1)
    }
}

/// A list with one neighbour merged in: the smaller distance of a known document, a new document at
/// the end.
pub open spec fn merged_one(
    list: Seq<(Seq<char>, Distance)>,
    n: (Seq<char>, Distance),
) -> Seq<(Seq<char>, Distance)> {
    let at = position_of(list, n.0, 0);
    if at < list.len() {
        if n.1.place() < list[at].1.place() {
            list.update(at, (list[at].0, n.1))
        } else {
            list
        }
    } else {
        list.push(n)
    }
}

/// A list with another merged in, neighbour by neighbour.
pub open spec fn merged(
    list: Seq<(Seq<char>, Distance)>,
    new: Seq<(Seq<char>, Distance)>,
) -> Seq<(Seq<char>, Distance)>
    decreases new.len(),
{
    if new.len() == 0 {
        list
    } else {
        merged_one(merged(list, new.drop_last()), new.last())
    }
}

proof fn lemma_position_of(list: Seq<(Seq<char>, Distance)>, id: Seq<char>, start: int)
    requires
        0 <= start <= list.len(),
    ensures
        start <= position_of(list, id, start) <= list.len(),
        position_of(list, id, start) < list.len() ==> list[position_of(list, id, start)].0 == id,
        forall|j: int|
            start <= j < position_of(list, id, start) ==> (#[trigger] list[j]).0 != id,
    decreases list.len() - start,
{
    if start < list.len() && list[start].0 != id {
        lemma_position_of(list, id, start + 1);
    }
}

/// Merges new neighbours into a list, keeping the smaller distance of each document.
pub fn merge_neighbours(existing: &mut Vec<Neighbour>, new: &Vec<Neighbour>)
    ensures
        entries(final(existing)@) == merged(entries(old(existing)@), entries(new@)),
{
    let ghost start = entries(existing@);
    let mut i: usize = 0;
    assert(entries(new@).take(0) =~= Seq::<(Seq<char>, Distance)>::empty());
    while i < new.len()
        invariant
            i <= new.len(),
            entries(existing@) == merged(start, entries(new@).take(i as int)),
        decreases new.len() - i,
    {
        let n = &new[i];
        let ghost before = entries(existing@);
        let mut at: usize = 0;
        while at < existing.len() && !(existing[at].id == n.id)
            invariant
                at <= existing.len(),
                before == entries(existing@),
                position_of(before, n.id@, at as int) == position_of(before, n.id@, 0),
            decreases existing.len() - at,
        {
            assert(before[at as int].0 == existing@[at as int].id@);
            at = at + 1;
        }
        if at < existing.len() {
            assert(before[at as int].0 == existing@[at as int].id@);
            if n.distance.order_place() < existing[at].distance.order_place() {
                let id = existing[at].id.clone();
                existing.set(at, Neighbour { id, distance: n.distance });
                assert(entries(existing@) =~= before.update(
                    at as int,
                    (before[at as int].0, n.distance),
                ));
            }
        } else {
            existing.push(Neighbour { id: n.id.clone(), distance: n.distance });
            assert(entries(existing@) =~= before.push((n.id@, n.distance)));
        }
        proof {
            let prefix = entries(new@).take(i + 1);
            assert(prefix.drop_last() =~= entries(new@).take(i as int));
            assert(prefix.last() == (n.id@, n.distance));
        }
        i = i + 1;
    }
    assert(entries(new@).take(i as int) =~= entries(new@));
}

/// Whether a list names a document.
pub open spec fn names(list: Seq<(Seq<char>, Distance)>, id: Seq<char>) -> bool {
    exists|i: int| 0 <= i < list.len() && (#[trigger] list[i]).0 == id
}

/// No document occurs twice in a list.
pub open spec fn distinct(list: Seq<(Seq<char>, Distance)>) -> bool {
    forall|i: int, j: int|
        #![trigger list[i], list[j]]
        0 <= i < j < list.len() ==> list[i].0 != list[j].0
}

/// Merging keeps documents distinct, names exactly the documents of both lists, and never enlarges
/// a distance.
pub proof fn merging_keeps_the_best(
    list: Seq<(Seq<char>, Distance)>,
    new: Seq<(Seq<char>, Distance)>,
)
    requires
        distinct(list),
    ensures
        distinct(merged(list, new)),
        forall|id: Seq<char>| #[trigger]
            names(merged(list, new), id) <==> names(list, id) || names(new, id),
        forall|i: int|
            0 <= i < list.len() ==> (#[trigger] merged(list, new)[i]).0 == list[i].0 && merged(
                list,
                new,
            )[i].1.place() <= list[i].1.place(),
        merged(list, new).len() >= list.len(),
        forall|i: int, j: int|
            #![trigger merged(list, new)[i], new[j]]
            0 <= i < merged(list, new).len() && 0 <= j < new.len() && merged(list, new)[i].0
                == new[j].0 ==> merged(list, new)[i].1.place() <= new[j].1.place(),
    decreases new.len(),
{
    if new.len() > 0 {
        let rest = new.drop_last();
        let n = new.last();
        merging_keeps_the_best(list, rest);
        let mid = merged(list, rest);
        let out = merged(list, new);
        lemma_position_of(mid, n.0, 0);
        let at = position_of(mid, n.0, 0);
        assert forall|id: Seq<char>| #[trigger] names(out, id) <==> names(list, id) || names(
            new,
            id,
        ) by {
            lemma_names_one(mid, n, id);
            lemma_names_snoc(rest, n, id);
            assert(new =~= rest.push(n));
        }
        assert forall|i: int, j: int|
            #![trigger out[i], new[j]]
            0 <= i < out.len() && 0 <= j < new.len() && out[i].0 == new[j].0 implies out[i].1.place()
            <= new[j].1.place() by {
            if j < rest.len() {
                assert(new[j] == rest[j]);
                if i < mid.len() {
                    assert(mid[i].0 == out[i].0);
                    assert(out[i].1.place() <= mid[i].1.place());
                } else {
                    lemma_names_snoc(rest.take(j), rest[j], rest[j].0);
                    assert(names(rest, rest[j].0)) by {
                        assert(rest[j].0 == rest[j].0);
                    }
                    assert(names(mid, n.0));
                }
            } else {
                if i < mid.len() && i != at {
                    assert(mid[i].0 == n.0);
                    if at < mid.len() {
                        assert(mid[at].0 == n.0);
                    }
                }
            }
        }
    }
}

proof fn lemma_names_one(
    mid: Seq<(Seq<char>, Distance)>,
    n: (Seq<char>, Distance),
    id: Seq<char>,
)
    ensures
        names(merged_one(mid, n), id) <==> names(mid, id) || id == n.0,
{
    let out = merged_one(mid, n);
    lemma_position_of(mid, n.0, 0);
    let at = position_of(mid, n.0, 0);
    if names(mid, id) {
        let i = choose|i: int| 0 <= i < mid.len() && (#[trigger] mid[i]).0 == id;
        assert(out[i].0 == id);
    }
    if id == n.0 {
        assert(out[at].0 == id);
    }
    if names(out, id) {
        let i = choose|i: int| 0 <= i < out.len() && (#[trigger] out[i]).0 == id;
        if i < mid.len() {
            assert(mid[i].0 == id);
        }
    }
}

proof fn lemma_names_snoc(
    list: Seq<(Seq<char>, Distance)>,
    n: (Seq<char>, Distance),
    id: Seq<char>,
)
    ensures
        names(list.push(n), id) <==> names(list, id) || id == n.0,
{
    let out = list.push(n);
    if names(list, id) {
        let i = choose|i: int| 0 <= i < list.len() && (#[trigger] list[i]).0 == id;
        assert(out[i].0 == id);
    }
    if id == n.0 {
        assert(out[list.len() as int].0 == id);
    }
    if names(out, id) {
        let i = choose|i: int| 0 <= i < out.len() && (#[trigger] out[i]).0 == id;
        if i < list.len() {
            assert(list[i].0 == id);
        }
    }
}

/// Point `i` contributes: it has neighbours, or points without any are kept too.
pub open spec fn contributes(lists: Seq<Vec<Neighbour>>, keep_empty: bool, i: int) -> bool {
    keep_empty || lists[i]@.len() > 0
}

/// `p` lists the contributing points of a document in order.
pub open spec fn is_point_order(
    ids: Seq<Seq<char>>,
    lists: Seq<Vec<Neighbour>>,
    keep_empty: bool,
    id: Seq<char>,
    p: Seq<int>,
) -> bool {
    &&& forall|k: int|
        0 <= k < p.len() ==> 0 <= #[trigger] p[k] < ids.len() && ids[p[k]] == id && contributes(
            lists,
            keep_empty,
            p[k],
        )
    &&& forall|i: int|
        0 <= i < ids.len() && #[trigger] ids[i] == id && contributes(lists, keep_empty, i)
            ==> p.contains(i)
    &&& forall|j: int, k: int|
        #![trigger p[j], p[k]]
        0 <= j < k < p.len() ==> p[j] < p[k]
}

/// The neighbours of the listed points merged, in order.
pub open spec fn folded(lists: Seq<Vec<Neighbour>>, p: Seq<int>) -> Seq<(Seq<char>, Distance)>
    decreases p.len(),
{
    if p.len() == 0 {
        Seq::empty()
    } else if p.len() == 1 {
        entries(lists[p[0]]@)
    } else {
        merged(folded(lists, p.drop_last()), entries(lists[p.last()]@))
    }
}

/// `out` holds the first `k` of a list in the order of their distances, entries of equal distance
/// in list order; `q` holds the list position of each.
pub open spec fn caps(
    list: Seq<(Seq<char>, Distance)>,
    k: int,
    q: Seq<int>,
    out: Seq<(Seq<char>, Distance)>,
) -> bool {
    &&& q.len() == list.len()
    &&& forall|j: int| 0 <= j < q.len() ==> 0 <= #[trigger] q[j] < list.len()
    &&& forall|x: int| 0 <= x < list.len() ==> #[trigger] q.contains(x)
    &&& forall|i: int, j: int|
        #![trigger q[i], q[j]]
        0 <= i < j < q.len() ==> list[q[i]].1.place() < list[q[j]].1.place() || (list[q[i]].1.place()
            == list[q[j]].1.place() && q[i] < q[j])
    &&& out.len() == if list.len() <= k {
        list.len() as int
    } else {
        k
    }
    &&& forall|j: int| 0 <= j < out.len() ==> #[trigger] out[j] == list[q[j]]
}

/// The first `k` neighbours of a list, nearest first.
pub fn nearest_first(list: &Vec<Neighbour>, k: usize) -> (out: Vec<Neighbour>)
    ensures
        exists|q: Seq<int>| caps(entries(list@), k as int, q, entries(out@)),
{
    let mut keys: Vec<Ascending> = Vec::new();
    let mut i: usize = 0;
    while i < list.len()
        invariant
            i <= list.len(),
            keys.len() == i,
            forall|j: int| 0 <= j < i ==> (#[trigger] keys@[j]).key == list@[j].distance.place(),
        decreases list.len() - i,
    {
        keys.push(Ascending { key: list[i].distance.order_place() as i64 });
        i = i + 1;
    }
    let order = order::sorted_positions(&keys);
    let mut out: Vec<Neighbour> = Vec::new();
    let mut j: usize = 0;
    while j < order.len() && j < k
        invariant
            j <= order.len(),
            j <= k,
            out.len() == j,
            order::sorts(keys@, order@),
            keys.len() == list.len(),
            forall|x: int|
                0 <= x < j ==> (#[trigger] out@[x]).id@ == list@[order@[x] as int].id@
                    && out@[x].distance == list@[order@[x] as int].distance,
        decreases order.len() - j,
    {
        let n = &list[order[j]];
        out.push(Neighbour { id: n.id.clone(), distance: n.distance });
        j = j + 1;
    }
    proof {
        let all = entries(list@);
        let q = order@.map_values(|x: usize| x as int);
        assert(list.len() <= usize::MAX);
        assert forall|x: int| 0 <= x < all.len() implies #[trigger] q.contains(x) by {
            assert(order@.contains(x as usize));
            let k = choose|k: int| 0 <= k < order@.len() && order@[k] == x as usize;
            assert(q[k] == x);
        }
        assert forall|i: int, j: int|
            #![trigger q[i], q[j]]
            0 <= i < j < q.len() implies all[q[i]].1.place() < all[q[j]].1.place() || (all[q[i]].1.place()
            == all[q[j]].1.place() && q[i] < q[j]) by {
            let x = order@[i] as int;
            let y = order@[j] as int;
            assert(order::precedes(keys@, x, y));
            assert(keys@[x].key == list@[x].distance.place());
            assert(keys@[y].key == list@[y].distance.place());
        }
        assert forall|j: int| 0 <= j < q.len() implies 0 <= #[trigger] q[j] < all.len() by {
            assert(order@[j] < keys@.len());
        }
        assert(caps(all, k as int, q, entries(out@)));
    }
    out
}

/// `entry` holds the `k` nearest neighbours of its document over all of the document's points.
pub open spec fn is_entry(
    ids: Seq<Seq<char>>,
    lists: Seq<Vec<Neighbour>>,
    keep_empty: bool,
    k: int,
    entry: NeighbourList,
) -> bool {
    exists|p: Seq<int>, q: Seq<int>|
        p.len() > 0 && #[trigger] is_point_order(ids, lists, keep_empty, entry.id@, p)
            && #[trigger] caps(folded(lists, p), k, q, entries(entry.neighbours@))
}

/// The map has an entry for the document.
pub open spec fn has_entry_of(map: Seq<NeighbourList>, id: Seq<char>) -> bool {
    exists|g: int| 0 <= g < map.len() && (#[trigger] map[g]).id@ == id
}

/// The map has the entry of each document with a contributing point once.
pub open spec fn has_each_entry(
    ids: Seq<Seq<char>>,
    lists: Seq<Vec<Neighbour>>,
    keep_empty: bool,
    k: int,
    map: Seq<NeighbourList>,
) -> bool {
    &&& forall|g: int|
        0 <= g < map.len() ==> is_entry(ids, lists, keep_empty, k, #[trigger] map[g])
    &&& forall|i: int|
        0 <= i < ids.len() && contributes(lists, keep_empty, i) ==> has_entry_of(
            map,
            #[trigger] ids[i],
        )
    &&& forall|g: int, h: int|
        #![trigger map[g], map[h]]
        0 <= g < h < map.len() ==> map[g].id@ != map[h].id@
}

fn fold_lists(lists: &Vec<Vec<Neighbour>>, p: &Vec<usize>) -> (r: Vec<Neighbour>)
    requires
        p.len() > 0,
        forall|k: int| 0 <= k < p.len() ==> (#[trigger] p@[k]) < lists.len(),
    ensures
        entries(r@) == folded(lists@, p@.map_values(|x: usize| x as int)),
{
    let ghost q = p@.map_values(|x: usize| x as int);
    let mut r: Vec<Neighbour> = Vec::new();
    let first = &lists[p[0]];
    let mut i: usize = 0;
    while i < first.len()
        invariant
            i <= first.len(),
            r.len() == i,
            forall|j: int|
                0 <= j < i ==> (#[trigger] r@[j]).id@ == first@[j].id@ && r@[j].distance
                    == first@[j].distance,
        decreases first.len() - i,
    {
        r.push(Neighbour { id: first[i].id.clone(), distance: first[i].distance });
        i = i + 1;
    }
    assert(entries(r@) =~= entries(first@));
    let mut k: usize = 1;
    assert(q.take(1) =~= seq![q[0]]);
    while k < p.len()
        invariant
            1 <= k <= p.len(),
            forall|k: int| 0 <= k < p.len() ==> (#[trigger] p@[k]) < lists.len(),
            q == p@.map_values(|x: usize| x as int),
            entries(r@) == folded(lists@, q.take(k as int)),
        decreases p.len() - k,
    {
        merge_neighbours(&mut r, &lists[p[k]]);
        proof {
            assert(q.take(k + 1).drop_last() =~= q.take(k as int));
            assert(q.take(k + 1).last() == p@[k as int]);
        }
        k = k + 1;
    }
    assert(q.take(k as int) =~= q);
    r
}

/// The neighbour map of a population: for each document with a contributing point, the `k` nearest
/// neighbours over all of its points, nearest first.
pub fn collect_neighbour_map(
    ids: &Vec<String>,
    lists: &Vec<Vec<Neighbour>>,
    keep_empty: bool,
    k: usize,
) -> (map: Vec<NeighbourList>)
    requires
        ids.len() == lists.len(),
    ensures
        has_each_entry(grouping::views(ids@), lists@, keep_empty, k as int, map@),
{
    let ghost names = grouping::views(ids@);
    let mut kept: Vec<usize> = Vec::new();
    let mut kept_ids: Vec<String> = Vec::new();
    let mut i: usize = 0;
    while i < ids.len()
        invariant
            i <= ids.len(),
            ids.len() == lists.len(),
            names == grouping::views(ids@),
            kept.len() == kept_ids.len(),
            forall|c: int|
                #![trigger kept@[c]]
                0 <= c < kept.len() ==> kept@[c] < i && contributes(
                    lists@,
                    keep_empty,
                    kept@[c] as int,
                ) && kept_ids@[c]@ == names[kept@[c] as int],
            forall|c: int, d: int|
                #![trigger kept@[c], kept@[d]]
                0 <= c < d < kept.len() ==> kept@[c] < kept@[d],
            forall|j: int|
                0 <= j < i && #[trigger] contributes(lists@, keep_empty, j) ==> kept@.contains(
                    j as usize,
                ),
        decreases ids.len() - i,
    {
        let ghost before = kept@;
        if keep_empty || lists[i].len() > 0 {
            kept.push(i);
            kept_ids.push(ids[i].clone());
            assert(kept@[before.len() as int] == i);
        }
        proof {
            assert forall|j: int|
                0 <= j < i + 1 && #[trigger] contributes(
                    lists@,
                    keep_empty,
                    j,
                ) implies kept@.contains(j as usize) by {
                if j < i {
                    assert(before.contains(j as usize));
                    let c = choose|c: int| 0 <= c < before.len() && before[c] == j as usize;
                    assert(kept@[c] == j as usize);
                }
            }
        }
        i = i + 1;
    }
    let ghost kept_names = grouping::views(kept_ids@);
    let positions = grouping::positions_by_key(&kept_ids);
    let mut map: Vec<NeighbourList> = Vec::new();
    let mut g: usize = 0;
    while g < positions.len()
        invariant
            g <= positions.len(),
            map.len() == g,
            ids.len() == lists.len(),
            names == grouping::views(ids@),
            kept.len() == kept_ids.len(),
            kept_names == grouping::views(kept_ids@),
            grouping::lists_positions(kept_names, positions@),
            forall|c: int|
                #![trigger kept@[c]]
                0 <= c < kept.len() ==> kept@[c] < ids.len() && contributes(
                    lists@,
                    keep_empty,
                    kept@[c] as int,
                ) && kept_ids@[c]@ == names[kept@[c] as int],
            forall|c: int, d: int|
                #![trigger kept@[c], kept@[d]]
                0 <= c < d < kept.len() ==> kept@[c] < kept@[d],
            forall|j: int|
                0 <= j < ids.len() && #[trigger] contributes(lists@, keep_empty, j)
                    ==> kept@.contains(j as usize),
            forall|h: int|
                0 <= h < g ==> is_entry(names, lists@, keep_empty, k as int, #[trigger] map@[h])
                    && map@[h].id@ == kept_names[positions@[h]@[0] as int],
        decreases positions.len() - g,
    {
        let list = &positions[g];
        let first = list[0];
        let ghost id = kept_names[first as int];
        let mut p: Vec<usize> = Vec::new();
        let mut a: usize = 0;
        while a < list.len()
            invariant
                a <= list.len(),
                p.len() == a,
                kept.len() == kept_names.len(),
                forall|b: int| 0 <= b < list.len() ==> (#[trigger] list@[b]) < kept_names.len(),
                forall|b: int| 0 <= b < a ==> (#[trigger] p@[b]) == kept@[list@[b] as int],
            decreases list.len() - a,
        {
            p.push(kept[list[a]]);
            a = a + 1;
        }
        proof {
            let q = p@.map_values(|x: usize| x as int);
            assert(ids.len() <= usize::MAX);
            assert forall|k: int| 0 <= k < q.len() implies 0 <= #[trigger] q[k] < names.len()
                && names[q[k]] == id && contributes(lists@, keep_empty, q[k]) by {
                let c = positions@[g as int]@[k] as int;
                assert(kept_names[c] == kept_names[positions@[g as int]@[0] as int]);
                assert(q[k] == kept@[c]);
            }
            assert forall|i: int|
                0 <= i < names.len() && #[trigger] names[i] == id && contributes(
                    lists@,
                    keep_empty,
                    i,
                ) implies q.contains(i) by {
                assert(kept@.contains(i as usize));
                let c = choose|c: int| 0 <= c < kept@.len() && kept@[c] == i as usize;
                assert(grouping::is_listed(positions@, c as usize));
                let h = choose|h: int|
                    0 <= h < positions@.len() && (#[trigger] positions@[h])@.contains(c as usize);
                let b = choose|b: int|
                    0 <= b < positions@[h]@.len() && positions@[h]@[b] == c as usize;
                assert(kept_names[c] == kept_names[positions@[h]@[0] as int]);
                assert(kept_names[c] == kept_names[positions@[g as int]@[0] as int]);
                assert(h == g);
                assert(q[b] == i);
            }
            assert forall|x: int, y: int|
                #![trigger q[x], q[y]]
                0 <= x < y < q.len() implies q[x] < q[y] by {
                assert(positions@[g as int]@[x] < positions@[g as int]@[y]);
                assert(q[x] == kept@[list@[x] as int]);
                assert(q[y] == kept@[list@[y] as int]);
            }
            assert(is_point_order(names, lists@, keep_empty, id, q));
            assert forall|k: int| 0 <= k < p.len() implies (#[trigger] p@[k]) < lists.len() by {
                assert(q[k] == p@[k]);
            }
        }
        let all = fold_lists(lists, &p);
        let neighbours = nearest_first(&all, k);
        map.push(NeighbourList { id: kept_ids[first].clone(), neighbours });
        proof {
            let q = p@.map_values(|x: usize| x as int);
            let r = choose|r: Seq<int>| caps(entries(all@), k as int, r, entries(neighbours@));
            assert(is_point_order(names, lists@, keep_empty, map@[g as int].id@, q));
            assert(caps(folded(lists@, q), k as int, r, entries(map@[g as int].neighbours@)));
            assert(is_entry(names, lists@, keep_empty, k as int, map@[g as int]));
        }
        g = g + 1;
    }
    proof {
        assert forall|i: int|
            0 <= i < names.len() && contributes(lists@, keep_empty, i) implies has_entry_of(
            map@,
            #[trigger] names[i],
        ) by {
            assert(kept@.contains(i as usize));
            let c = choose|c: int| 0 <= c < kept@.len() && kept@[c] == i as usize;
            assert(grouping::is_listed(positions@, c as usize));
            let h = choose|h: int|
                0 <= h < positions@.len() && (#[trigger] positions@[h])@.contains(c as usize);
            let b = choose|b: int| 0 <= b < positions@[h]@.len() && positions@[h]@[b] == c as usize;
            assert(kept_names[c] == kept_names[positions@[h]@[0] as int]);
            assert(map@[h].id@ == names[i]);
        }
    }
    map
}

/// The message for a ranked neighbour query without distances.
pub open spec fn missing_neighbour_distance() -> Seq<char> {
    "duplicates nearest result is missing the `_distance` column"@
}

/// The first batch with rows and document ids decides; a batch with rows but without distances in
/// front of it is a failure.
pub open spec fn nearest_batch(batches: Seq<Batch>, start: int) -> Result<Option<int>, Seq<char>>
    decreases batches.len() - start,
{
    if start < 0 || start >= batches.len() {
        Ok(None)
    } else if batches[start].rows == 0 {
        nearest_batch(batches, start + 1)
    } else if batches[start].distance is None {
        Err(missing_neighbour_distance())
    } else if batches[start].doc_id is None {
        nearest_batch(batches, start + 1)
    } else {
        Ok(Some(start))
    }
}

/// `obs` is the observation of a point and the first row of a batch.
pub open spec fn observes(
    obs: NeighbourObservation,
    point: IndexedPoint,
    b: Batch,
    snippet: bool,
) -> bool {
    &&& obs.doc_a@ == point.doc_id@
    &&& obs.doc_b@ == b.doc_id->0@[0]@
    &&& obs.normalized_distance == distance::half(b.distance->0@[0])
    &&& dedup::optional_view(obs.content_a) == dedup::optional_view(point.content)
    &&& dedup::optional_view(obs.content_b) == if snippet && b.content is Some {
        Some(b.content->0@[0]@)
    } else {
        None::<Seq<char>>
    }
}

/// The nearest neighbour of a point from the rows of its neighbour query, nearest first; none when
/// the query found nothing. A ranked result without distances is an error.
pub fn nearest_observation(batches: &Vec<Batch>, point: &IndexedPoint, snippet: bool) -> (r: Result<
    Option<NeighbourObservation>,
    StoreError,
>)
    requires
        batch::all_well_formed(batches@),
    ensures
        match r {
            Ok(Some(obs)) => nearest_batch(batches@, 0) is Ok && nearest_batch(
                batches@,
                0,
            )->Ok_0 is Some && observes(
                obs,
                *point,
                batches@[nearest_batch(batches@, 0)->Ok_0->0],
                snippet,
            ),
            Ok(None) => nearest_batch(batches@, 0) == Ok::<Option<int>, Seq<char>>(None),
            Err(e) => nearest_batch(batches@, 0) == Err::<Option<int>, Seq<char>>(e.message()),
        },
        r matches Ok(Some(obs)) ==> obs.doc_a@ == point.doc_id@,
        batches@.len() == 0 ==> r is Ok && r->Ok_0 is None,
{
    let mut i: usize = 0;
    while i < batches.len()
        invariant
            i <= batches.len(),
            batch::all_well_formed(batches@),
            nearest_batch(batches@, i as int) == nearest_batch(batches@, 0),
        decreases batches.len() - i,
    {
        let b = &batches[i];
        assert(b.well_formed());
        if b.rows > 0 {
            match &b.distance {
                None => {
                    return Err(
                        StoreError::Internal(
                            "duplicates nearest result is missing the `_distance` column".to_owned(),
                        ),
                    );
                },
                Some(distances) => {
                    if let Some(ids) = &b.doc_id {
                        let content_b: Option<String> = match &b.content {
                            Some(c) => {
                                if snippet {
                                    Some(c[0].clone())
                                } else {
                                    None
                                }
                            },
                            None => None,
                        };
                        let content_a: Option<String> = match &point.content {
                            Some(c) => Some(c.clone()),
                            None => None,
                        };
                        return Ok(
                            Some(
                                NeighbourObservation {
                                    doc_a: point.doc_id.clone(),
                                    doc_b: ids[0].clone(),
                                    normalized_distance: distances[0].halved(),
                                    content_a,
                                    content_b,
                                },
                            ),
                        );
                    }
                },
            }
        }
        i = i + 1;
    }
    Ok(None)
}

/// The document ids of points.
pub open spec fn point_ids(points: Seq<IndexedPoint>) -> Seq<Seq<char>> {
    Seq::new(points.len(), |i: int| points[i].doc_id@)
}

/// A list names each of the points' documents, and each once.
pub open spec fn names_documents(points: Seq<IndexedPoint>, ids: Seq<String>) -> bool {
    &&& grouping::views(ids).no_duplicates()
    &&& grouping::views(ids).to_set() == point_ids(points).to_set()
}

/// The documents of points, each once.
pub fn candidate_ids(points: &Vec<IndexedPoint>) -> (ids: Vec<String>)
    ensures
        names_documents(points@, ids@),
{
    let ghost all = point_ids(points@);
    let mut names: Vec<String> = Vec::new();
    let mut i: usize = 0;
    while i < points.len()
        invariant
            i <= points.len(),
            names.len() == i,
            forall|k: int| 0 <= k < i ==> (#[trigger] names@[k])@ == points@[k].doc_id@,
        decreases points.len() - i,
    {
        names.push(points[i].doc_id.clone());
        i = i + 1;
    }
    assert(grouping::views(names@) =~= all);
    let groups = grouping::positions_by_key(&names);
    let mut ids: Vec<String> = Vec::new();
    let mut g: usize = 0;
    while g < groups.len()
        invariant
            g <= groups.len(),
            all == grouping::views(names@),
            grouping::lists_positions(all, groups@),
            ids.len() == g,
            forall|k: int|
                0 <= k < g ==> (#[trigger] ids@[k])@ == all[groups@[k]@[0] as int],
        decreases groups.len() - g,
    {
        let first = groups[g][0];
        assert(names@[first as int]@ == all[first as int]);
        ids.push(names[first].clone());
        g = g + 1;
    }
    proof {
        let v = grouping::views(ids@);
        assert forall|x: int, y: int|
            0 <= x < v.len() && 0 <= y < v.len() && x != y implies v[x] != v[y] by {
            assert(v[x] == all[groups@[x]@[0] as int]);
            assert(v[y] == all[groups@[y]@[0] as int]);
        }
        assert forall|t: Seq<char>| v.to_set().contains(t) <==> all.to_set().contains(t) by {
            if v.contains(t) {
                let x = choose|x: int| 0 <= x < v.len() && v[x] == t;
                assert(all[groups@[x]@[0] as int] == t);
            }
            if all.contains(t) {
                let j = choose|j: int| 0 <= j < all.len() && all[j] == t;
                assert(names.len() <= usize::MAX);
                assert(grouping::is_listed(groups@, j as usize));
                let h = choose|h: int|
                    0 <= h < groups@.len() && (#[trigger] groups@[h])@.contains(j as usize);
                let a = choose|a: int| 0 <= a < groups@[h]@.len() && groups@[h]@[a] == j as usize;
                assert(all[j] == all[groups@[h]@[0] as int]);
                assert(v[h] == t);
            }
        }
        assert(v.to_set() =~= all.to_set());
    }
    ids
}

/// How the points of two populations look for neighbours in each other.
#[derive(Debug)]
pub struct ResolvePlan {
    /// The documents that points of the set look among.
    pub target_ids: Vec<String>,
    pub set_strategy: ProbeStrategy,
    /// The documents that points of the target look among.
    pub set_ids: Vec<String>,
    pub target_strategy: ProbeStrategy,
}

/// Plans a resolution between a set and a target population, which together may not exceed the
/// bound. Each population looks among the other's documents.
pub fn plan_resolve(
    set: &Vec<IndexedPoint>,
    target: &Vec<IndexedPoint>,
    max_points: usize,
) -> (r: Result<ResolvePlan, StoreError>)
    requires
        set.len() + target.len() <= usize::MAX,
    ensures
        match r {
            Ok(plan) => {
                &&& set.len() + target.len() <= max_points
                &&& names_documents(target@, plan.target_ids@)
                &&& names_documents(set@, plan.set_ids@)
                &&& plan.set_strategy == ProbeStrategy::Flat <==> plan.target_ids@.len()
                    <= ADAPTIVE_ANN_CANDIDATE_THRESHOLD
                &&& plan.target_strategy == ProbeStrategy::Flat <==> plan.set_ids@.len()
                    <= ADAPTIVE_ANN_CANDIDATE_THRESHOLD
            },
            Err(e) => set.len() + target.len() > max_points && e.message() == resolve_refusal(
                set@.len(),
                target@.len(),
                max_points as nat,
            ),
        },
        r matches Ok(plan) ==> (plan.set_strategy == ProbeStrategy::Ann <==> plan.target_ids@.len()
            > 30_000) && (plan.target_strategy == ProbeStrategy::Ann <==> plan.set_ids@.len()
            > 30_000),
{
    match check_resolve_bound(set.len(), target.len(), max_points) {
        Ok(()) => {},
        Err(e) => {
            return Err(e);
        },
    }
    let target_ids = candidate_ids(target);
    let set_ids = candidate_ids(set);
    let set_strategy = choose_strategy(target_ids.len());
    let target_strategy = choose_strategy(set_ids.len());
    Ok(ResolvePlan { target_ids, set_strategy, set_ids, target_strategy })
}

/// An observed distance is on the [0, 1] scale that a search reports: half of the raw cosine distance
/// of the row, and the very distance that a search reports for a raw cosine hit at that row.
pub proof fn observed_distances_are_on_the_unit_scale(
    obs: NeighbourObservation,
    point: IndexedPoint,
    b: Batch,
    snippet: bool,
    h: ChunkHit,
)
    requires
        observes(obs, point, b, snippet),
        b.distance is Some,
        h.distance == b.distance->0@[0],
        h.distance_kind == DistanceKind::RawCosine,
    ensures
        ({
            let raw = b.distance->0@[0];
            &&& -0x7f80_0000 < raw.rank < 0x7f80_0000 ==> -1 <= distance::value(raw) - 2
                * distance::value(obs.normalized_distance) <= 1
            &&& 0x100_0000 <= raw.rank < 0x7f80_0000 ==> 2 * distance::value(
                obs.normalized_distance,
            ) == distance::value(raw)
            &&& 0 <= raw.rank <= 0x4000_0000 ==> 0 <= obs.normalized_distance.rank <= 0x3f80_0000
            &&& raw.rank == 0x3f80_0000 ==> obs.normalized_distance.rank == 0x3f00_0000
        }),
        obs.normalized_distance == dedup::reported_distance(h),
{
    dedup::reported_distances_are_on_the_unit_scale(h);
    distance::halving_maps_cosine_distances_onto_the_unit_scale(Distance { rank: 0 });
}

/// An observation joins the point's own document with the document of the nearest row, with the
/// text of each on its own side.
pub proof fn observations_join_the_point_with_its_nearest_row(
    obs: NeighbourObservation,
    point: IndexedPoint,
    b: Batch,
    snippet: bool,
)
    requires
        observes(obs, point, b, snippet),
        b.doc_id is Some,
    ensures
        obs.doc_a@ == point.doc_id@,
        obs.doc_b@ == b.doc_id->0@[0]@,
        obs.content_a is Some <==> point.content is Some,
        point.content is Some ==> obs.content_a->0@ == point.content->0@,
        obs.content_b is Some <==> snippet && b.content is Some,
        snippet && b.content is Some ==> obs.content_b->0@ == b.content->0@[0]@,
{
}

/// The batch that an observation is taken from is the first that has rows and documents; a batch
/// with rows but without distances that stands no later is a failure, and the only one.
pub proof fn the_first_usable_batch_is_observed(batches: Seq<Batch>, start: int)
    requires
        0 <= start <= batches.len(),
    ensures
        match nearest_batch(batches, start) {
            Ok(Some(m)) => {
                &&& start <= m < batches.len()
                &&& batches[m].rows > 0
                &&& batches[m].doc_id is Some
                &&& batches[m].distance is Some
                &&& forall|i: int|
                    start <= i < m ==> (#[trigger] batches[i]).rows == 0 || (batches[i].doc_id
                        is None && batches[i].distance is Some)
            },
            Ok(None) => forall|i: int|
                start <= i < batches.len() ==> (#[trigger] batches[i]).rows == 0 || (
                batches[i].doc_id is None && batches[i].distance is Some),
            Err(_) => exists|m: int|
                start <= m < batches.len() && (#[trigger] batches[m]).rows > 0
                    && batches[m].distance is None && forall|i: int|
                    start <= i < m ==> (#[trigger] batches[i]).rows == 0 || (batches[i].doc_id
                        is None && batches[i].distance is Some),
        },
    decreases batches.len() - start,
{
    if start < batches.len() {
        the_first_usable_batch_is_observed(batches, start + 1);
        if batches[start].rows > 0 && batches[start].distance is None {
            assert(batches[start].rows > 0);
        } else if nearest_batch(batches, start + 1) is Err && nearest_batch(batches, start) is Err {
            let m = choose|m: int|
                start + 1 <= m < batches.len() && (#[trigger] batches[m]).rows > 0
                    && batches[m].distance is None && forall|i: int|
                    start + 1 <= i < m ==> (#[trigger] batches[i]).rows == 0 || (batches[i].doc_id
                        is None && batches[i].distance is Some);
            assert(batches[m].rows > 0);
        }
    }
}

proof fn lemma_nearest_of_document(
    ids: Seq<Seq<char>>,
    distances: Seq<Distance>,
    own: Option<Seq<char>>,
    threshold: Distance,
    i: int,
    n: int,
) -> (b: int)
    requires
        admitted(ids, distances, own, threshold, i),
        i < n <= ids.len(),
    ensures
        0 <= b < n,
        admitted(ids, distances, own, threshold, b),
        ids[b] == ids[i],
        forall|j: int|
            0 <= j < n && admitted(ids, distances, own, threshold, j) && #[trigger] ids[j] == ids[i]
                ==> distances[b].rank <= distances[j].rank && (j < b ==> distances[b].rank
                < distances[j].rank),
    decreases n,
{
    let last = n - 1;
    if i == last && !(exists|j: int|
        0 <= j < last && admitted(ids, distances, own, threshold, j) && #[trigger] ids[j] == ids[i]) {
        i
    } else {
        let h = if i < last {
            i
        } else {
            choose|j: int|
                0 <= j < last && admitted(ids, distances, own, threshold, j) && #[trigger] ids[j]
                    == ids[i]
        };
        let b = lemma_nearest_of_document(ids, distances, own, threshold, h, last);
        if admitted(ids, distances, own, threshold, last) && ids[last] == ids[i]
            && distances[last].rank < distances[b].rank {
            last
        } else {
            b
        }
    }
}

/// The neighbours of a probe are other documents than its own, each named once, nearest first, each
/// at the smallest distance of any of its candidates, and none beyond the threshold.
pub proof fn neighbours_stand_for_their_nearest_candidate(
    ids: Seq<Seq<char>>,
    distances: Seq<Distance>,
    own: Option<Seq<char>>,
    threshold: Distance,
    k: int,
    from: Seq<int>,
    out: Seq<Neighbour>,
    j: int,
)
    requires
        selects(ids, distances, own, threshold, k, from, out),
        ids.len() == distances.len(),
        k >= 0,
        0 <= j < out.len(),
    ensures
        out.len() <= k,
        own is Some ==> out[j].id@ != own->0,
        -0x7f80_0000 <= out[j].distance.rank <= 0x7f80_0000,
        -0x7f80_0000 <= threshold.rank <= 0x7f80_0000,
        distance::value(out[j].distance) <= distance::value(threshold),
        0 <= from[j] < ids.len(),
        ids[from[j]] == out[j].id@,
        distances[from[j]] == out[j].distance,
        forall|i: int|
            0 <= i < ids.len() && #[trigger] ids[i] == out[j].id@ && -0x7f80_0000
                <= distances[i].rank ==> distance::value(out[j].distance) <= distance::value(
                distances[i],
            ),
        forall|h: int|
            0 <= h < j ==> (#[trigger] out[h]).id@ != out[j].id@ && distance::value(
                out[h].distance,
            ) <= distance::value(out[j].distance),
{
    let x = from[j];
    assert(is_nearest(ids, distances, own, threshold, x));
    distance::ranks_order_as_values(threshold, distances[x]);
    assert forall|i: int|
        0 <= i < ids.len() && #[trigger] ids[i] == out[j].id@ && -0x7f80_0000
            <= distances[i].rank implies distance::value(out[j].distance) <= distance::value(
        distances[i],
    ) by {
        distance::ranks_order_as_values(distances[i], distances[x]);
        if admitted(ids, distances, own, threshold, i) {
            assert(distances[x].rank <= distances[i].rank);
        }
    }
    assert forall|h: int| 0 <= h < j implies (#[trigger] out[h]).id@ != out[j].id@
        && distance::value(out[h].distance) <= distance::value(out[j].distance) by {
        assert(is_nearest(ids, distances, own, threshold, from[h]));
        assert(from[h] != from[j]);
        distance::ranks_order_as_values(out[j].distance, out[h].distance);
    }
}

/// Every other document with a candidate no farther than the threshold is among the neighbours, or
/// as many as asked for are, all of them no farther.
pub proof fn near_candidates_are_neighbours(
    ids: Seq<Seq<char>>,
    distances: Seq<Distance>,
    own: Option<Seq<char>>,
    threshold: Distance,
    k: int,
    from: Seq<int>,
    out: Seq<Neighbour>,
    i: int,
)
    requires
        selects(ids, distances, own, threshold, k, from, out),
        ids.len() == distances.len(),
        k >= 0,
        0 <= i < ids.len(),
        own is Some ==> ids[i] != own->0,
        -0x7f80_0000 <= distances[i].rank <= 0x7f80_0000,
        -0x7f80_0000 <= threshold.rank <= 0x7f80_0000,
        distance::value(distances[i]) <= distance::value(threshold),
    ensures
        (exists|j: int| 0 <= j < out.len() && (#[trigger] out[j]).id@ == ids[i]) || (out.len() == k
            && forall|j: int|
            0 <= j < out.len() ==> distance::value((#[trigger] out[j]).distance)
                <= distance::value(distances[i])),
{
    distance::ranks_order_as_values(threshold, distances[i]);
    assert(admitted(ids, distances, own, threshold, i));
    let b = lemma_nearest_of_document(ids, distances, own, threshold, i, ids.len() as int);
    assert(is_nearest(ids, distances, own, threshold, b)) by {
        assert(ids[b] == ids[i]);
    }
    assert(distances[b].rank <= distances[i].rank) by {
        assert(ids[i] == ids[i]);
    }
    if !(exists|j: int| 0 <= j < out.len() && (#[trigger] out[j]).id@ == ids[i]) {
        selection_keeps_the_nearest(ids, distances, own, threshold, k, from, out, b);
        assert forall|j: int| 0 <= j < out.len() implies distance::value(
            (#[trigger] out[j]).distance,
        ) <= distance::value(distances[i]) by {
            distance::ranks_order_as_values(distances[i], out[j].distance);
        }
    }
}

/// Each row of an index query's batch is read as its own document at half of its own raw cosine
/// distance. A batch with rows but without documents or distances is a failure.
pub proof fn index_rows_are_on_the_unit_scale(b: Batch)
    ensures
        ann_rows(seq![b]) is Ok <==> b.rows == 0 || (b.doc_id is Some && b.distance is Some),
        b.rows > 0 && b.doc_id is Some && b.distance is Some ==> {
            let rows = ann_rows(seq![b])->Ok_0;
            &&& rows.len() == b.rows
            &&& forall|i: int|
                #![trigger rows[i]]
                0 <= i < rows.len() ==> {
                    let raw = b.distance->0@[i];
                    &&& rows[i].0 == b.doc_id->0@[i]@
                    &&& -0x7f80_0000 < raw.rank < 0x7f80_0000 ==> -1 <= distance::value(raw) - 2
                        * distance::value(rows[i].1) <= 1
                    &&& 0x100_0000 <= raw.rank < 0x7f80_0000 ==> 2 * distance::value(rows[i].1)
                        == distance::value(raw)
                }
        },
{
    let one = seq![b];
    let part = |i: int| ann_batch(one[i]);
    reveal_with_fuel(crate::scan::gather, 2);
    assert(part(0) == ann_batch(b));
    assert(crate::scan::gather(part, 0) == Ok::<Seq<(Seq<char>, Distance)>, Seq<char>>(
        Seq::empty(),
    ));
    if part(0) is Ok {
        assert(Seq::<(Seq<char>, Distance)>::empty() + part(0)->Ok_0 =~= part(0)->Ok_0);
    }
    if b.rows > 0 && b.doc_id is Some && b.distance is Some {
        let rows = ann_rows(one)->Ok_0;
        assert forall|i: int|
            #![trigger rows[i]]
            0 <= i < rows.len() implies {
            let raw = b.distance->0@[i];
            &&& rows[i].0 == b.doc_id->0@[i]@
            &&& -0x7f80_0000 < raw.rank < 0x7f80_0000 ==> -1 <= distance::value(raw) - 2
                * distance::value(rows[i].1) <= 1
            &&& 0x100_0000 <= raw.rank < 0x7f80_0000 ==> 2 * distance::value(rows[i].1)
                == distance::value(raw)
        } by {
            let raw = b.distance->0@[i];
            if raw.is_finite() {
                distance::halving_halves_the_value(raw);
            }
        }
    }
}

/// The rows of an index query are those of its batches, one batch behind the other.
pub proof fn index_batches_add_up(batches: Seq<Batch>, b: Batch)
    ensures
        ann_rows(batches.push(b)) is Ok <==> ann_rows(batches) is Ok && ann_rows(seq![b]) is Ok,
        ann_rows(batches.push(b)) is Ok ==> ann_rows(batches.push(b))->Ok_0 == ann_rows(
            batches,
        )->Ok_0 + ann_rows(seq![b])->Ok_0,
{
    let many = batches.push(b);
    let one = seq![b];
    crate::scan::gathering_adds_up(
        |i: int| ann_batch(batches[i]),
        |i: int| ann_batch(one[i]),
        |i: int| ann_batch(many[i]),
        batches.len() as int,
    );
}

/// Merging invents nothing: every neighbour of the merged list stands in one of the two lists, with
/// that distance.
pub proof fn merging_invents_nothing(
    list: Seq<(Seq<char>, Distance)>,
    new: Seq<(Seq<char>, Distance)>,
    i: int,
)
    requires
        0 <= i < merged(list, new).len(),
    ensures
        list.contains(merged(list, new)[i]) || new.contains(merged(list, new)[i]),
    decreases new.len(),
{
    if new.len() == 0 {
        assert(list.contains(list[i]));
    } else {
        let rest = new.drop_last();
        let n = new.last();
        let mid = merged(list, rest);
        let x = merged(list, new)[i];
        lemma_position_of(mid, n.0, 0);
        if x == n {
            assert(new[new.len() - 1] == n);
        } else {
            assert(mid[i] == x);
            merging_invents_nothing(list, rest, i);
            if rest.contains(x) {
                let j = choose|j: int| 0 <= j < rest.len() && rest[j] == x;
                assert(new[j] == x);
            }
        }
    }
}

/// A neighbour stands in the list of one of the points.
spec fn stands_in(lists: Seq<Vec<Neighbour>>, p: Seq<int>, x: (Seq<char>, Distance)) -> bool {
    exists|k: int| 0 <= k < p.len() && entries(lists[#[trigger] p[k]]@).contains(x)
}

/// A list has a document at a distance no larger than the given one.
spec fn reaches(list: Seq<(Seq<char>, Distance)>, x: (Seq<char>, Distance)) -> bool {
    exists|i: int|
        0 <= i < list.len() && (#[trigger] list[i]).0 == x.0 && list[i].1.place() <= x.1.place()
}

proof fn lemma_folded(lists: Seq<Vec<Neighbour>>, p: Seq<int>)
    requires
        forall|k: int| 0 <= k < p.len() ==> distinct(entries(lists[#[trigger] p[k]]@)),
    ensures
        distinct(folded(lists, p)),
        forall|i: int|
            0 <= i < folded(lists, p).len() ==> stands_in(
                lists,
                p,
                #[trigger] folded(lists, p)[i],
            ),
        forall|x: (Seq<char>, Distance)| #[trigger]
            stands_in(lists, p, x) ==> reaches(folded(lists, p), x),
    decreases p.len(),
{
    let all = folded(lists, p);
    if p.len() == 1 {
        let own = entries(lists[p[0]]@);
        assert(all == own);
        assert forall|i: int| 0 <= i < all.len() implies stands_in(lists, p, #[trigger] all[i]) by {
            assert(entries(lists[p[0]]@).contains(all[i]));
        }
        assert forall|x: (Seq<char>, Distance)| #[trigger] stands_in(lists, p, x) implies reaches(
            all,
            x,
        ) by {
            let k = choose|k: int| 0 <= k < p.len() && entries(lists[#[trigger] p[k]]@).contains(x);
            let h = choose|h: int| 0 <= h < own.len() && own[h] == x;
            assert(all[h].0 == x.0);
        }
    } else if p.len() > 1 {
        let q = p.drop_last();
        assert forall|k: int| 0 <= k < q.len() implies distinct(
            entries(lists[#[trigger] q[k]]@),
        ) by {
            assert(q[k] == p[k]);
        }
        lemma_folded(lists, q);
        let head = folded(lists, q);
        let new = entries(lists[p.last()]@);
        merging_keeps_the_best(head, new);
        assert(all == merged(head, new));
        assert forall|i: int| 0 <= i < all.len() implies stands_in(lists, p, #[trigger] all[i]) by {
            merging_invents_nothing(head, new, i);
            if head.contains(all[i]) {
                let j = choose|j: int| 0 <= j < head.len() && head[j] == all[i];
                assert(stands_in(lists, q, head[j]));
                let k = choose|k: int|
                    0 <= k < q.len() && entries(lists[#[trigger] q[k]]@).contains(head[j]);
                assert(p[k] == q[k]);
            } else {
                let k = p.len() - 1;
                assert(entries(lists[p[k]]@).contains(all[i]));
            }
        }
        assert forall|x: (Seq<char>, Distance)| #[trigger] stands_in(lists, p, x) implies reaches(
            all,
            x,
        ) by {
            let k = choose|k: int| 0 <= k < p.len() && entries(lists[#[trigger] p[k]]@).contains(x);
            if k < q.len() {
                assert(q[k] == p[k]);
                assert(stands_in(lists, q, x));
                assert(reaches(head, x));
                let j = choose|j: int|
                    0 <= j < head.len() && (#[trigger] head[j]).0 == x.0 && head[j].1.place()
                        <= x.1.place();
                assert(all[j].0 == head[j].0);
            } else {
                let h = choose|h: int| 0 <= h < new.len() && new[h] == x;
                assert(new[h].0 == x.0);
                assert(names(new, x.0));
                assert(names(all, x.0));
                let i = choose|i: int| 0 <= i < all.len() && (#[trigger] all[i]).0 == x.0;
                assert(all[i].0 == new[h].0);
            }
        }
    }
}

/// Two of a document's neighbours differ.
pub open spec fn neighbours_differ(list: Seq<Neighbour>) -> bool {
    forall|i: int, j: int|
        #![trigger list[i], list[j]]
        0 <= i < j < list.len() ==> list[i].id@ != list[j].id@
}

/// A point of the document found the neighbour at that distance.
pub open spec fn found_by_a_point(
    ids: Seq<Seq<char>>,
    lists: Seq<Vec<Neighbour>>,
    id: Seq<char>,
    n: Neighbour,
) -> bool {
    exists|i: int, h: int|
        #![trigger lists[i]@[h]]
        0 <= i < ids.len() && ids[i] == id && 0 <= h < lists[i]@.len() && lists[i]@[h].id@ == n.id@
            && lists[i]@[h].distance == n.distance
}

/// The neighbour is in the list at a distance no larger, or the list is full of neighbours no
/// farther.
pub open spec fn is_covered(list: Seq<Neighbour>, k: int, n: Neighbour) -> bool {
    (exists|a: int|
        0 <= a < list.len() && (#[trigger] list[a]).id@ == n.id@ && list[a].distance.place()
            <= n.distance.place()) || (list.len() == k && forall|a: int|
        0 <= a < k ==> (#[trigger] list[a]).distance.place() <= n.distance.place())
}

proof fn lemma_entry_is_ordered(
    all: Seq<(Seq<char>, Distance)>,
    k: int,
    q: Seq<int>,
    list: Seq<Neighbour>,
)
    requires
        caps(all, k, q, entries(list)),
        distinct(all),
    ensures
        forall|a: int, b: int|
            #![trigger list[a], list[b]]
            0 <= a < b < list.len() ==> list[a].id@ != list[b].id@ && list[a].distance.place()
                <= list[b].distance.place(),
{
    let out = entries(list);
    assert forall|a: int, b: int|
        #![trigger list[a], list[b]]
        0 <= a < b < list.len() implies list[a].id@ != list[b].id@ && list[a].distance.place()
        <= list[b].distance.place() by {
        assert(out[a] == all[q[a]] && out[b] == all[q[b]]);
        assert(out[a] == (list[a].id@, list[a].distance));
        assert(out[b] == (list[b].id@, list[b].distance));
        if q[a] < q[b] {
            assert(all[q[a]].0 != all[q[b]].0);
        } else {
            assert(all[q[b]].0 != all[q[a]].0);
        }
    }
}

proof fn lemma_entry_covers(
    all: Seq<(Seq<char>, Distance)>,
    k: int,
    q: Seq<int>,
    list: Seq<Neighbour>,
    n: Neighbour,
)
    requires
        caps(all, k, q, entries(list)),
        reaches(all, (n.id@, n.distance)),
        k >= 0,
    ensures
        is_covered(list, k, n),
{
    let out = entries(list);
    let y = choose|y: int|
        0 <= y < all.len() && (#[trigger] all[y]).0 == n.id@ && all[y].1.place()
            <= n.distance.place();
    assert(q.contains(y));
    let a = choose|a: int| 0 <= a < q.len() && q[a] == y;
    if a < out.len() {
        assert(out[a] == all[q[a]]);
        assert(list[a].id@ == n.id@);
    } else {
        assert forall|b: int| 0 <= b < k implies (#[trigger] list[b]).distance.place()
            <= n.distance.place() by {
            assert(out[b] == all[q[b]]);
            assert(out[b] == (list[b].id@, list[b].distance));
            assert(all[q[b]].1.place() <= all[q[a]].1.place());
        }
    }
}

/// The entry of a document holds the nearest neighbours over all of its points: each neighbour was
/// found by one of the points, at that distance; what a point found is in the entry at a distance no
/// larger, or the entry is full of neighbours no farther; each is named once, nearest first.
pub proof fn entries_hold_the_nearest_over_all_points(
    ids: Seq<Seq<char>>,
    lists: Seq<Vec<Neighbour>>,
    keep_empty: bool,
    k: int,
    entry: NeighbourList,
)
    requires
        is_entry(ids, lists, keep_empty, k, entry),
        ids.len() == lists.len(),
        k >= 0,
        forall|i: int| 0 <= i < lists.len() ==> neighbours_differ((#[trigger] lists[i])@),
    ensures
        entry.neighbours@.len() <= k,
        forall|a: int, b: int|
            #![trigger entry.neighbours@[a], entry.neighbours@[b]]
            0 <= a < b < entry.neighbours@.len() ==> entry.neighbours@[a].id@
                != entry.neighbours@[b].id@ && entry.neighbours@[a].distance.place()
                <= entry.neighbours@[b].distance.place(),
        forall|a: int|
            0 <= a < entry.neighbours@.len() ==> found_by_a_point(
                ids,
                lists,
                entry.id@,
                #[trigger] entry.neighbours@[a],
            ),
        forall|i: int, h: int|
            #![trigger lists[i]@[h]]
            0 <= i < ids.len() && ids[i] == entry.id@ && 0 <= h < lists[i]@.len() ==> is_covered(
                entry.neighbours@,
                k,
                lists[i]@[h],
            ),
{
    let (p, q) = choose|p: Seq<int>, q: Seq<int>|
        p.len() > 0 && #[trigger] is_point_order(ids, lists, keep_empty, entry.id@, p)
            && #[trigger] caps(folded(lists, p), k, q, entries(entry.neighbours@));
    let all = folded(lists, p);
    let list = entry.neighbours@;
    let out = entries(list);
    assert(out.len() == list.len());
    assert forall|x: int| 0 <= x < p.len() implies distinct(entries(lists[#[trigger] p[x]]@)) by {
        assert(0 <= p[x] < ids.len());
        let l = lists[p[x]]@;
        assert(neighbours_differ(l));
        assert forall|i: int, j: int|
            #![trigger entries(l)[i], entries(l)[j]]
            0 <= i < j < entries(l).len() implies entries(l)[i].0 != entries(l)[j].0 by {
            assert(l[i].id@ != l[j].id@);
        }
    }
    lemma_folded(lists, p);
    lemma_entry_is_ordered(all, k, q, list);
    assert forall|a: int| 0 <= a < list.len() implies found_by_a_point(
        ids,
        lists,
        entry.id@,
        #[trigger] list[a],
    ) by {
        assert(out[a] == all[q[a]]);
        assert(out[a] == (list[a].id@, list[a].distance));
        assert(stands_in(lists, p, all[q[a]]));
        let x = choose|x: int|
            0 <= x < p.len() && entries(lists[#[trigger] p[x]]@).contains(all[q[a]]);
        let i = p[x];
        let h = choose|h: int| 0 <= h < entries(lists[i]@).len() && entries(lists[i]@)[h] == out[a];
        assert(lists[i]@[h].id@ == list[a].id@);
    }
    assert forall|i: int, h: int|
        #![trigger lists[i]@[h]]
        0 <= i < ids.len() && ids[i] == entry.id@ && 0 <= h < lists[i]@.len() implies is_covered(
        list,
        k,
        lists[i]@[h],
    ) by {
        let n = lists[i]@[h];
        assert(contributes(lists, keep_empty, i));
        assert(p.contains(i));
        let x = choose|x: int| 0 <= x < p.len() && p[x] == i;
        assert(entries(lists[p[x]]@)[h] == (n.id@, n.distance));
        assert(stands_in(lists, p, (n.id@, n.distance)));
        lemma_entry_covers(all, k, q, list, n);
    }
}


/// A refusal of a near-duplicate scan gives the number of points, then the bound.
pub proof fn scan_refusals_give_the_numbers(points: nat, max_points: nat)
    ensures
        ({
            let m = duplicate_refusal(points, max_points);
            let n = text::decimal(points).len() as int;
            &&& m.subrange(48, 48 + n) == text::decimal(points)
            &&& m.subrange(78 + n, 78 + n + text::decimal(max_points).len()) == text::decimal(
                max_points,
            )
        }),
{
    reveal_strlit("near-duplicate scan refused: set population has ");
    reveal_strlit(" points, exceeds the bound of ");
    let m = duplicate_refusal(points, max_points);
    let n = text::decimal(points).len() as int;
    assert(m.subrange(48, 48 + n) =~= text::decimal(points));
    assert(m.subrange(78 + n, 78 + n + text::decimal(max_points).len()) =~= text::decimal(
        max_points,
    ));
}

/// A refusal of a resolution gives the combined number of points, then those of the set and of the
/// target, then the bound.
pub proof fn resolve_refusals_give_the_numbers(set: nat, target: nat, max_points: nat)
    ensures
        ({
            let m = resolve_refusal(set, target, max_points);
            let a = 41 + text::decimal(set + target).len() as int;
            let b = a + 13 + text::decimal(set).len();
            let c = b + 9 + text::decimal(target).len();
            &&& m.subrange(41, a) == text::decimal(set + target)
            &&& m.subrange(a + 13, b) == text::decimal(set)
            &&& m.subrange(b + 9, c) == text::decimal(target)
            &&& m.subrange(c + 24, c + 24 + text::decimal(max_points).len()) == text::decimal(
                max_points,
            )
        }),
{
    reveal_strlit("resolve refused: combined population has ");
    reveal_strlit(" points (set=");
    reveal_strlit(", target=");
    reveal_strlit("), exceeds the bound of ");
    let m = resolve_refusal(set, target, max_points);
    let a = 41 + text::decimal(set + target).len() as int;
    let b = a + 13 + text::decimal(set).len();
    let c = b + 9 + text::decimal(target).len();
    assert(m.subrange(41, a) =~= text::decimal(set + target));
    assert(m.subrange(a + 13, b) =~= text::decimal(set));
    assert(m.subrange(b + 9, c) =~= text::decimal(target));
    assert(m.subrange(c + 24, c + 24 + text::decimal(max_points).len()) =~= text::decimal(
        max_points,
    ));
}

/// A document has one entry at most. It has one where one of its points has a neighbour, and, where
/// empty entries are kept, where it has a point at all; a document of which no point has a neighbour
/// has none otherwise.
pub proof fn documents_with_neighbours_have_one_entry(
    ids: Seq<Seq<char>>,
    lists: Seq<Vec<Neighbour>>,
    keep_empty: bool,
    k: int,
    map: Seq<NeighbourList>,
    i: int,
)
    requires
        has_each_entry(ids, lists, keep_empty, k, map),
        0 <= i < ids.len(),
    ensures
        lists[i]@.len() > 0 || keep_empty ==> exists|g: int|
            0 <= g < map.len() && (#[trigger] map[g]).id@ == ids[i],
        !keep_empty && (forall|j: int|
            0 <= j < ids.len() && #[trigger] ids[j] == ids[i] ==> lists[j]@.len() == 0)
            ==> forall|g: int| 0 <= g < map.len() ==> (#[trigger] map[g]).id@ != ids[i],
        forall|g: int, h: int|
            #![trigger map[g], map[h]]
            0 <= g < h < map.len() ==> map[g].id@ != map[h].id@,
        forall|g: int| 0 <= g < map.len() ==> (#[trigger] map[g]).neighbours@.len() <= k || k < 0,
{
    if lists[i]@.len() > 0 || keep_empty {
        assert(contributes(lists, keep_empty, i));
        assert(has_entry_of(map, ids[i]));
    }
    assert forall|g: int| 0 <= g < map.len() implies (!keep_empty && (forall|j: int|
        0 <= j < ids.len() && #[trigger] ids[j] == ids[i] ==> lists[j]@.len() == 0)
        ==> (#[trigger] map[g]).id@ != ids[i]) && (map[g].neighbours@.len() <= k || k < 0) by {
        assert(is_entry(ids, lists, keep_empty, k, map[g]));
        let (p, q) = choose|p: Seq<int>, q: Seq<int>|
            p.len() > 0 && #[trigger] is_point_order(ids, lists, keep_empty, map[g].id@, p)
                && #[trigger] caps(folded(lists, p), k, q, entries(map[g].neighbours@));
        assert(entries(map[g].neighbours@).len() == map[g].neighbours@.len());
        assert(ids[p[0]] == map[g].id@);
        assert(contributes(lists, keep_empty, p[0]));
    }
}

/// Each point's document is named, each once, and nothing else is.
pub proof fn documents_of_points_are_named_once(
    points: Seq<IndexedPoint>,
    ids: Seq<String>,
    i: int,
    k: int,
    l: int,
)
    requires
        names_documents(points, ids),
        0 <= i < points.len(),
        0 <= k < ids.len(),
        0 <= l < ids.len(),
    ensures
        exists|j: int| 0 <= j < ids.len() && (#[trigger] ids[j])@ == points[i].doc_id@,
        exists|j: int| 0 <= j < points.len() && (#[trigger] points[j]).doc_id@ == ids[k]@,
        k != l ==> ids[k]@ != ids[l]@,
{
    let names = grouping::views(ids);
    let all = point_ids(points);
    assert(all[i] == points[i].doc_id@);
    assert(all.to_set().contains(points[i].doc_id@));
    assert(names.to_set().contains(points[i].doc_id@));
    let j = choose|j: int| 0 <= j < names.len() && names[j] == points[i].doc_id@;
    assert(ids[j]@ == points[i].doc_id@);
    assert(names[k] == ids[k]@);
    assert(names[l] == ids[l]@);
    assert(names.to_set().contains(ids[k]@));
    assert(all.to_set().contains(ids[k]@));
    let m = choose|m: int| 0 <= m < all.len() && all[m] == ids[k]@;
    assert(points[m].doc_id@ == ids[k]@);
}

} // verus!
