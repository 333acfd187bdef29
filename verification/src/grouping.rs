//! Grouping of items by a textual key, and the best item of each group.

use crate::order;
use crate::order::Ascending;
use std::collections::HashMap;
use vstd::hash_map::StringHashMap;
use vstd::prelude::*;

verus! {

/// A numbering of items by key: equal keys share a group number, numbers are given in order of
/// first appearance.
pub struct Grouping {
    pub group_of: Vec<usize>,
    pub count: usize,
}

impl Grouping {
    /// The numbering fits `keys`: two items share a group exactly when their keys are equal, and
    /// every group number below `count` is in use.
    pub open spec fn fits<K>(&self, keys: Seq<K>) -> bool {
        &&& self.group_of@.len() == keys.len()
        &&& forall|i: int| 0 <= i < keys.len() ==> (#[trigger] self.group_of@[i]) < self.count
        &&& forall|i: int, j: int|
            #![trigger self.group_of@[i], self.group_of@[j]]
            0 <= i < keys.len() && 0 <= j < keys.len() ==> (self.group_of@[i] == self.group_of@[j]
                <==> keys[i] == keys[j])
        &&& forall|g: usize| g < self.count ==> #[trigger] self.group_of@.contains(g)
    }
}

/// The views of a list of strings.
pub open spec fn views(s: Seq<String>) -> Seq<Seq<char>> {
    s.map_values(|t: String| t@)
}

/// Numbers the items of `keys` by key.
pub fn group_keys(keys: &Vec<String>) -> (r: Grouping)
    ensures
        r.fits(views(keys@)),
        r.count == views(keys@).to_set().len(),
{
    let mut numbers: StringHashMap<usize> = StringHashMap::new();
    let mut group_of: Vec<usize> = Vec::new();
    let mut count: usize = 0;
    let mut i: usize = 0;
    let ghost all = views(keys@);
    assert(all.take(0).to_set() =~= Set::<Seq<char>>::empty());
    while i < keys.len()
        invariant
            i <= keys.len(),
            all == views(keys@),
            count == all.take(i as int).to_set().len(),
            group_of.len() == i,
            count <= i,
            forall|a: int| 0 <= a < i ==> (#[trigger] group_of@[a]) < count,
            forall|a: int|
                0 <= a < i ==> numbers@.contains_key(#[trigger] keys@[a]@) && numbers@[keys@[a]@]
                    == group_of@[a],
            forall|k: Seq<char>| #[trigger]
                numbers@.contains_key(k) ==> exists|a: int|
                    0 <= a < i && #[trigger] keys@[a]@ == k,
            forall|a: int, b: int|
                #![trigger group_of@[a], group_of@[b]]
                0 <= a < i && 0 <= b < i ==> (group_of@[a] == group_of@[b] <==> keys@[a]@
                    == keys@[b]@),
            forall|g: usize| g < count ==> #[trigger] group_of@.contains(g),
        decreases keys.len() - i,
    {
        let ghost before = group_of@;
        let ghost old_numbers = numbers@;
        proof {
            lemma_set_of_prefix(all, i as int);
            assert(all.take(i as int).to_set().contains(all[i as int]) <==> numbers@.contains_key(
                all[i as int],
            )) by {
                if all.take(i as int).contains(all[i as int]) {
                    let a = choose|a: int|
                        0 <= a < i && all.take(i as int)[a] == all[i as int];
                    assert(keys@[a]@ == all[i as int]);
                }
                if numbers@.contains_key(all[i as int]) {
                    let a = choose|a: int| 0 <= a < i && #[trigger] keys@[a]@ == all[i as int];
                    assert(all.take(i as int)[a] == all[i as int]);
                }
            }
        }
        let known: Option<usize> = match numbers.get(keys[i].as_str()) {
            Some(g) => Some(*g),
            None => None,
        };
        match known {
            Some(g) => {
                proof {
                    let a = choose|a: int| 0 <= a < i && #[trigger] keys@[a]@ == keys@[i as int]@;
                    assert(before[a] == g);
                }
                group_of.push(g);
            },
            None => {
                numbers.insert(keys[i].clone(), count);
                group_of.push(count);
                count = count + 1;
            },
        }
        proof {
            assert forall|g: usize| g < count implies #[trigger] group_of@.contains(g) by {
                if before.contains(g) {
                    let a = choose|a: int| 0 <= a < before.len() && before[a] == g;
                    assert(group_of@[a] == g);
                } else {
                    assert(group_of@[i as int] == g);
                }
            }
            assert forall|k: Seq<char>| #[trigger]
                numbers@.contains_key(k) implies exists|a: int|
                    0 <= a < i + 1 && #[trigger] keys@[a]@ == k by {
                if old_numbers.contains_key(k) {
                    let a = choose|a: int| 0 <= a < i && #[trigger] keys@[a]@ == k;
                    assert(keys@[a]@ == k);
                } else {
                    assert(keys@[i as int]@ == k);
                }
            }
        }
        i = i + 1;
    }
    assert(all.take(i as int) =~= all);
    Grouping { group_of, count }
}

proof fn lemma_set_of_prefix<K>(s: Seq<K>, i: int)
    requires
        0 <= i < s.len(),
    ensures
        s.take(i + 1).to_set() == s.take(i).to_set().insert(s[i]),
        s.take(i).to_set().finite(),
{
    let a = s.take(i + 1);
    let b = s.take(i);
    assert forall|k: K| a.to_set().contains(k) <==> b.to_set().insert(s[i]).contains(k) by {
        if a.contains(k) {
            let j = choose|j: int| 0 <= j < a.len() && a[j] == k;
            if j < i {
                assert(b[j] == k);
            }
        }
        if b.contains(k) {
            let j = choose|j: int| 0 <= j < b.len() && b[j] == k;
            assert(a[j] == k);
        }
        assert(a[i] == s[i]);
    }
    assert(a.to_set() =~= b.to_set().insert(s[i]));
    vstd::seq_lib::seq_to_set_is_finite(b);
}

/// Numbers the items of `codes` by value.
pub fn group_codes(codes: &Vec<u128>) -> (r: Grouping)
    ensures
        r.fits(codes@),
{
    broadcast use vstd::std_specs::hash::group_hash_axioms;

    let mut numbers: HashMap<u128, usize> = HashMap::new();
    let mut group_of: Vec<usize> = Vec::new();
    let mut count: usize = 0;
    let mut i: usize = 0;
    while i < codes.len()
        invariant
            i <= codes.len(),
            group_of.len() == i,
            count <= i,
            forall|a: int| 0 <= a < i ==> (#[trigger] group_of@[a]) < count,
            forall|a: int|
                0 <= a < i ==> numbers@.contains_key(#[trigger] codes@[a]) && numbers@[codes@[a]]
                    == group_of@[a],
            forall|k: u128| #[trigger]
                numbers@.contains_key(k) ==> exists|a: int| 0 <= a < i && #[trigger] codes@[a] == k,
            forall|a: int, b: int|
                #![trigger group_of@[a], group_of@[b]]
                0 <= a < i && 0 <= b < i ==> (group_of@[a] == group_of@[b] <==> codes@[a]
                    == codes@[b]),
            forall|g: usize| g < count ==> #[trigger] group_of@.contains(g),
        decreases codes.len() - i,
    {
        let ghost before = group_of@;
        let ghost old_numbers = numbers@;
        let known: Option<usize> = match numbers.get(&codes[i]) {
            Some(g) => Some(*g),
            None => None,
        };
        match known {
            Some(g) => {
                proof {
                    let a = choose|a: int| 0 <= a < i && #[trigger] codes@[a] == codes@[i as int];
                    assert(before[a] == g);
                }
                group_of.push(g);
            },
            None => {
                numbers.insert(codes[i], count);
                group_of.push(count);
                count = count + 1;
            },
        }
        proof {
            assert forall|g: usize| g < count implies #[trigger] group_of@.contains(g) by {
                if before.contains(g) {
                    let a = choose|a: int| 0 <= a < before.len() && before[a] == g;
                    assert(group_of@[a] == g);
                } else {
                    assert(group_of@[i as int] == g);
                }
            }
            assert forall|k: u128| #[trigger]
                numbers@.contains_key(k) implies exists|a: int|
                    0 <= a < i + 1 && #[trigger] codes@[a] == k by {
                if old_numbers.contains_key(k) {
                    let a = choose|a: int| 0 <= a < i && #[trigger] codes@[a] == k;
                    assert(codes@[a] == k);
                } else {
                    assert(codes@[i as int] == k);
                }
            }
        }
        i = i + 1;
    }
    Grouping { group_of, count }
}

/// `positions` lists the items of each key in order: one list per key, in order of the keys' first
/// appearance.
pub open spec fn lists_positions<K>(keys: Seq<K>, positions: Seq<Vec<usize>>) -> bool {
    &&& forall|g: int, a: int|
        #![trigger positions[g]@[a]]
        0 <= g < positions.len() && 0 <= a < positions[g]@.len() ==> positions[g]@[a] < keys.len()
            && keys[positions[g]@[a] as int] == keys[positions[g]@[0] as int]
    &&& forall|g: int| 0 <= g < positions.len() ==> (#[trigger] positions[g])@.len() > 0
    &&& forall|g: int, a: int, b: int|
        #![trigger positions[g]@[a], positions[g]@[b]]
        0 <= g < positions.len() && 0 <= a < b < positions[g]@.len() ==> positions[g]@[a]
            < positions[g]@[b]
    &&& forall|i: int| 0 <= i < keys.len() ==> #[trigger] is_listed(positions, i as usize)
    &&& forall|g: int, h: int|
        #![trigger positions[g], positions[h]]
        0 <= g < h < positions.len() ==> keys[positions[g]@[0] as int]
            != keys[positions[h]@[0] as int]
}

/// Some list holds the position.
pub open spec fn is_listed(positions: Seq<Vec<usize>>, i: usize) -> bool {
    exists|g: int| 0 <= g < positions.len() && (#[trigger] positions[g])@.contains(i)
}

/// The positions of the items of each key.
pub fn positions_by_key(keys: &Vec<String>) -> (r: Vec<Vec<usize>>)
    ensures
        lists_positions(views(keys@), r@),
{
    let numbering = group_keys(keys);
    let mut table: Vec<Vec<usize>> = Vec::new();
    let mut g: usize = 0;
    while g < numbering.count
        invariant
            g <= numbering.count,
            table.len() == g,
            forall|h: int| 0 <= h < g ==> (#[trigger] table@[h])@.len() == 0,
        decreases numbering.count - g,
    {
        table.push(Vec::new());
        g = g + 1;
    }
    let mut i: usize = 0;
    while i < keys.len()
        invariant
            i <= keys.len(),
            numbering.fits(views(keys@)),
            table.len() == numbering.count,
            forall|g: int, a: int|
                #![trigger table@[g]@[a]]
                0 <= g < table.len() && 0 <= a < table@[g]@.len() ==> table@[g]@[a] < i
                    && numbering.group_of@[table@[g]@[a] as int] == g,
            forall|g: int, a: int, b: int|
                #![trigger table@[g]@[a], table@[g]@[b]]
                0 <= g < table.len() && 0 <= a < b < table@[g]@.len() ==> table@[g]@[a]
                    < table@[g]@[b],
            forall|j: int|
                0 <= j < i ==> table@[#[trigger] numbering.group_of@[j] as int]@.contains(
                    j as usize,
                ),
        decreases keys.len() - i,
    {
        let group = numbering.group_of[i];
        let ghost before = table@;
        table[group].push(i);
        proof {
            assert(table@[group as int]@ =~= before[group as int]@.push(i));
            assert(table@[group as int]@.last() == i);
            assert forall|j: int| 0 <= j < i + 1 implies table@[#[trigger] numbering.group_of@[j] as int]@.contains(
                j as usize,
            ) by {
                if j < i {
                    let h = numbering.group_of@[j] as int;
                    assert(before[h]@.contains(j as usize));
                    let a = choose|a: int| 0 <= a < before[h]@.len() && before[h]@[a] == j as usize;
                    assert(table@[h]@[a] == j as usize);
                }
            }
        }
        i = i + 1;
    }
    proof {
        let all = views(keys@);
        assert forall|g: int| 0 <= g < table.len() implies (#[trigger] table@[g])@.len() > 0 by {
            assert(numbering.group_of@.contains(g as usize));
            let j = choose|j: int|
                0 <= j < numbering.group_of@.len() && numbering.group_of@[j] == g as usize;
            assert(table@[numbering.group_of@[j] as int]@.contains(j as usize));
        }
        assert forall|g: int, a: int|
            #![trigger table@[g]@[a]]
            0 <= g < table.len() && 0 <= a < table@[g]@.len() implies table@[g]@[a] < all.len()
            && all[table@[g]@[a] as int] == all[table@[g]@[0] as int] by {
            assert(numbering.group_of@[table@[g]@[a] as int]
                == numbering.group_of@[table@[g]@[0] as int]);
        }
        assert forall|i: int| 0 <= i < all.len() implies #[trigger] is_listed(
            table@,
            i as usize,
        ) by {
            let g = numbering.group_of@[i] as int;
            assert(table@[g]@.contains(i as usize));
        }
        assert forall|g: int, h: int|
            #![trigger table@[g], table@[h]]
            0 <= g < h < table.len() implies all[table@[g]@[0] as int] != all[table@[h]@[0] as int] by {
            assert(table@[g]@.len() > 0 && table@[h]@.len() > 0);
            assert(numbering.group_of@[table@[g]@[0] as int] == g);
            assert(numbering.group_of@[table@[h]@[0] as int] == h);
        }
    }
    table
}

/// The items of two lists, paired up.
pub open spec fn pairs<A, B>(a: Seq<A>, b: Seq<B>) -> Seq<(A, B)> {
    Seq::new(a.len(), |i: int| (a[i], b[i]))
}

/// Numbers the items by a pair of textual keys.
pub fn group_key_pairs(a: &Vec<String>, b: &Vec<String>) -> (r: Grouping)
    requires
        a.len() == b.len(),
    ensures
        r.fits(pairs(views(a@), views(b@))),
{
    let first = group_keys(a);
    let second = group_keys(b);
    let mut codes: Vec<u128> = Vec::new();
    let mut i: usize = 0;
    while i < a.len()
        invariant
            i <= a.len(),
            a.len() == b.len(),
            codes.len() == i,
            first.fits(views(a@)),
            second.fits(views(b@)),
            forall|k: int|
                0 <= k < i ==> (#[trigger] codes@[k]) == first.group_of@[k]
                    * 0x1_0000_0000_0000_0000 + second.group_of@[k],
        decreases a.len() - i,
    {
        codes.push(
            (first.group_of[i] as u128) * 0x1_0000_0000_0000_0000 + (second.group_of[i] as u128),
        );
        i = i + 1;
    }
    let r = group_codes(&codes);
    proof {
        let keys = pairs(views(a@), views(b@));
        assert forall|i: int, j: int|
            #![trigger r.group_of@[i], r.group_of@[j]]
            0 <= i < keys.len() && 0 <= j < keys.len() implies (r.group_of@[i] == r.group_of@[j]
            <==> keys[i] == keys[j]) by {
            assert(codes@[i] == codes@[j] <==> first.group_of@[i] == first.group_of@[j]
                && second.group_of@[i] == second.group_of@[j]);
        }
    }
    r
}

/// Numbers the items by a textual key and a number.
pub fn group_numbered_keys(a: &Vec<String>, b: &Vec<i32>) -> (r: Grouping)
    requires
        a.len() == b.len(),
    ensures
        r.fits(pairs(views(a@), b@)),
{
    let first = group_keys(a);
    let mut codes: Vec<u128> = Vec::new();
    let mut i: usize = 0;
    while i < a.len()
        invariant
            i <= a.len(),
            a.len() == b.len(),
            codes.len() == i,
            first.fits(views(a@)),
            forall|k: int|
                0 <= k < i ==> (#[trigger] codes@[k]) == first.group_of@[k]
                    * 0x1_0000_0000_0000_0000 + (b@[k] + 0x8000_0000),
        decreases a.len() - i,
    {
        let offset: i64 = (b[i] as i64) + 0x8000_0000;
        codes.push((first.group_of[i] as u128) * 0x1_0000_0000_0000_0000 + (offset as u128));
        i = i + 1;
    }
    let r = group_codes(&codes);
    proof {
        let keys = pairs(views(a@), b@);
        assert forall|i: int, j: int|
            #![trigger r.group_of@[i], r.group_of@[j]]
            0 <= i < keys.len() && 0 <= j < keys.len() implies (r.group_of@[i] == r.group_of@[j]
            <==> keys[i] == keys[j]) by {
            assert(codes@[i] == codes@[j] <==> first.group_of@[i] == first.group_of@[j] && b@[i]
                == b@[j]);
        }
    }
    r
}

/// Every item's group has a best item.
pub proof fn every_group_has_a_best<K>(keys: Seq<K>, ranks: Seq<i64>, i: int) -> (b: int)
    requires
        0 <= i < keys.len(),
        ranks.len() == keys.len(),
    ensures
        is_best(keys, ranks, b),
        keys[b] == keys[i],
{
    lemma_best_below(keys, ranks, i, keys.len() as int)
}

proof fn lemma_best_below<K>(keys: Seq<K>, ranks: Seq<i64>, i: int, n: int) -> (b: int)
    requires
        0 <= i < keys.len(),
        ranks.len() == keys.len(),
        0 <= n <= keys.len(),
    ensures
        0 <= b < keys.len(),
        keys[b] == keys[i],
        b < n || b == i,
        forall|j: int|
            0 <= j < n && #[trigger] keys[j] == keys[i] ==> ranks[b] <= ranks[j] && (j < b
                ==> ranks[b] < ranks[j]),
    decreases n,
{
    if n == 0 {
        i
    } else {
        let b = lemma_best_below(keys, ranks, i, n - 1);
        if keys[n - 1] == keys[i] && (ranks[n - 1] < ranks[b] || (ranks[n - 1] == ranks[b] && n - 1
            < b)) {
            n - 1
        } else {
            b
        }
    }
}

/// Item `i` is the best of its group: no item of the group ranks lower, and none in front of it
/// ranks as low.
pub open spec fn is_best<K>(keys: Seq<K>, ranks: Seq<i64>, i: int) -> bool {
    &&& 0 <= i < keys.len()
    &&& forall|j: int|
        0 <= j < keys.len() && #[trigger] keys[j] == keys[i] ==> ranks[i] <= ranks[j] && (j < i
            ==> ranks[i] < ranks[j])
}

/// The best item of each group, listed by group number.
fn best_of_groups<K>(grouping: &Grouping, ranks: &Vec<i64>, Ghost(keys): Ghost<
    Seq<K>,
>) -> (best: Vec<usize>)
    requires
        grouping.fits(keys),
        ranks.len() == keys.len(),
    ensures
        best.len() == grouping.count,
        forall|g: int|
            0 <= g < best.len() ==> is_best(keys, ranks@, (#[trigger] best@[g]) as int)
                && grouping.group_of@[best@[g] as int] == g,
        forall|i: int| is_best(keys, ranks@, i) ==> best@.contains(i as usize),
{
    let n = ranks.len();
    let mut best: Vec<usize> = Vec::new();
    let mut g: usize = 0;
    while g < grouping.count
        invariant
            g <= grouping.count,
            n == keys.len(),
            best.len() == g,
            forall|k: int| 0 <= k < g ==> best@[k] == n,
        decreases grouping.count - g,
    {
        best.push(n);
        g = g + 1;
    }
    let mut i: usize = 0;
    while i < n
        invariant
            i <= n,
            n == keys.len(),
            n == ranks.len(),
            grouping.fits(keys),
            best.len() == grouping.count,
            forall|k: int|
                #![trigger best@[k]]
                0 <= k < best.len() ==> best@[k] == n || (best@[k] < i
                    && grouping.group_of@[best@[k] as int] == k),
            forall|j: int|
                #![trigger grouping.group_of@[j]]
                0 <= j < i ==> {
                    let b = best@[grouping.group_of@[j] as int];
                    b < n && ranks@[b as int] <= ranks@[j] && (j < b ==> ranks@[b as int]
                        < ranks@[j])
                },
        decreases n - i,
    {
        let group = grouping.group_of[i];
        let current = best[group];
        if current == n || ranks[i] < ranks[current] {
            best.set(group, i);
        }
        i = i + 1;
    }
    proof {
        assert forall|k: int| 0 <= k < best.len() implies is_best(
            keys,
            ranks@,
            (#[trigger] best@[k]) as int,
        ) && grouping.group_of@[best@[k] as int] == k by {
            assert(grouping.group_of@.contains(k as usize));
            let j = choose|j: int|
                0 <= j < grouping.group_of@.len() && grouping.group_of@[j] == k as usize;
            assert(best@[grouping.group_of@[j] as int] < n);
            let b = best@[k] as int;
            assert forall|j: int| 0 <= j < keys.len() && #[trigger] keys[j] == keys[b] implies ranks@[b]
                <= ranks@[j] && (j < b ==> ranks@[b] < ranks@[j]) by {
                assert(grouping.group_of@[j] == grouping.group_of@[b]);
            }
        }
        assert forall|i: int| is_best(keys, ranks@, i) implies best@.contains(i as usize) by {
            let k = grouping.group_of@[i] as int;
            let b = best@[k] as int;
            assert(grouping.group_of@[b] == grouping.group_of@[i]);
            assert(keys[b] == keys[i]);
            assert(best@[k] == i as usize);
        }
    }
    best
}

/// `best` lists the best item of every group once.
pub open spec fn lists_best<K>(keys: Seq<K>, ranks: Seq<i64>, best: Seq<usize>) -> bool {
    &&& forall|g: int| 0 <= g < best.len() ==> is_best(keys, ranks, (#[trigger] best[g]) as int)
    &&& forall|i: int| is_best(keys, ranks, i) ==> best.contains(i as usize)
    &&& forall|g: int, h: int|
        #![trigger best[g], best[h]]
        0 <= g < h < best.len() ==> best[g] != best[h]
}

/// The best item of each textual key, in order of the keys' first appearance.
pub fn best_by_key(keys: &Vec<String>, ranks: &Vec<i64>) -> (best: Vec<usize>)
    requires
        keys.len() == ranks.len(),
    ensures
        lists_best(views(keys@), ranks@, best@),
{
    let numbering = group_keys(keys);
    best_of_groups::<Seq<char>>(&numbering, ranks, Ghost(views(keys@)))
}

/// The best item of each pair of textual keys, in order of the pairs' first appearance.
pub fn best_by_key_pair(a: &Vec<String>, b: &Vec<String>, ranks: &Vec<i64>) -> (best: Vec<usize>)
    requires
        a.len() == b.len(),
        a.len() == ranks.len(),
    ensures
        lists_best(pairs(views(a@), views(b@)), ranks@, best@),
{
    let numbering = group_key_pairs(a, b);
    best_of_groups::<(Seq<char>, Seq<char>)>(
        &numbering,
        ranks,
        Ghost(pairs(views(a@), views(b@))),
    )
}

/// The best item of each textual key, in the order of their ranks.
pub fn ranked_best_by_key(keys: &Vec<String>, ranks: &Vec<i64>) -> (from: Vec<usize>)
    requires
        keys.len() == ranks.len(),
    ensures
        lists_best(views(keys@), ranks@, from@),
        forall|j: int, k: int|
            #![trigger from@[j], from@[k]]
            0 <= j < k < from.len() ==> ranks@[from@[j] as int] <= ranks@[from@[k] as int],
{
    let best = best_by_key(keys, ranks);
    let mut sort_keys: Vec<Ascending> = Vec::new();
    let mut g: usize = 0;
    while g < best.len()
        invariant
            g <= best.len(),
            sort_keys.len() == g,
            keys.len() == ranks.len(),
            lists_best(views(keys@), ranks@, best@),
            forall|k: int|
                0 <= k < g ==> (#[trigger] sort_keys@[k]).key == ranks@[best@[k] as int],
        decreases best.len() - g,
    {
        assert(is_best(views(keys@), ranks@, best@[g as int] as int));
        sort_keys.push(Ascending { key: ranks[best[g]] });
        g = g + 1;
    }
    let order = order::sorted_positions(&sort_keys);
    let mut from: Vec<usize> = Vec::new();
    let mut k: usize = 0;
    while k < order.len()
        invariant
            k <= order.len(),
            from.len() == k,
            order::sorts(sort_keys@, order@),
            sort_keys.len() == best.len(),
            forall|j: int| 0 <= j < k ==> (#[trigger] from@[j]) == best@[order@[j] as int],
        decreases order.len() - k,
    {
        from.push(best[order[k]]);
        k = k + 1;
    }
    proof {
        assert forall|i: int| is_best(views(keys@), ranks@, i) implies from@.contains(
            i as usize,
        ) by {
            assert(best@.contains(i as usize));
            let g = choose|g: int| 0 <= g < best@.len() && best@[g] == i as usize;
            assert(order@.contains(g as usize));
            let k = choose|k: int| 0 <= k < order@.len() && order@[k] == g as usize;
            assert(from@[k] == i as usize);
        }
        assert forall|j: int, k: int|
            #![trigger from@[j], from@[k]]
            0 <= j < k < from.len() implies from@[j] != from@[k] && ranks@[from@[j] as int]
            <= ranks@[from@[k] as int] by {
            assert(order::precedes(sort_keys@, order@[j] as int, order@[k] as int));
            assert(order@[j] != order@[k]);
            assert(sort_keys@[order@[j] as int].key == ranks@[best@[order@[j] as int] as int]);
            assert(sort_keys@[order@[k] as int].key == ranks@[best@[order@[k] as int] as int]);
        }
    }
    from
}


/// Each key's best item is listed: it has the key, and no item of the key ranks lower.
pub proof fn best_items_rank_lowest<K>(
    keys: Seq<K>,
    ranks: Seq<i64>,
    best: Seq<usize>,
    i: int,
) -> (g: int)
    requires
        lists_best(keys, ranks, best),
        ranks.len() == keys.len(),
        keys.len() <= usize::MAX,
        0 <= i < keys.len(),
    ensures
        0 <= g < best.len(),
        best[g] < keys.len(),
        keys[best[g] as int] == keys[i],
        ranks[best[g] as int] <= ranks[i],
        ranks[best[g] as int] == ranks[i] ==> best[g] <= i,
{
    let b = every_group_has_a_best(keys, ranks, i);
    assert(best.contains(b as usize));
    let g = choose|g: int| 0 <= g < best.len() && best[g] == b as usize;
    g
}

/// No key's best item is listed twice: the listed items have different keys.
pub proof fn best_items_have_different_keys<K>(
    keys: Seq<K>,
    ranks: Seq<i64>,
    best: Seq<usize>,
    g: int,
    h: int,
)
    requires
        lists_best(keys, ranks, best),
        0 <= g < h < best.len(),
    ensures
        keys[best[g] as int] != keys[best[h] as int],
{
    let x = best[g] as int;
    let y = best[h] as int;
    assert(is_best(keys, ranks, x));
    assert(is_best(keys, ranks, y));
    if keys[x] == keys[y] {
        assert(ranks[x] <= ranks[y] && ranks[y] <= ranks[x]);
    }
}

/// Each item is listed under its key, and two items stand in one list exactly when their keys are
/// equal.
pub proof fn positions_share_a_list_by_key<K>(
    keys: Seq<K>,
    positions: Seq<Vec<usize>>,
    g: int,
    h: int,
    a: int,
    b: int,
)
    requires
        lists_positions(keys, positions),
        0 <= g < positions.len(),
        0 <= h < positions.len(),
        0 <= a < positions[g]@.len(),
        0 <= b < positions[h]@.len(),
    ensures
        g == h <==> keys[positions[g]@[a] as int] == keys[positions[h]@[b] as int],
        positions[g]@[a] == positions[h]@[b] ==> g == h && a == b,
{
    assert(keys[positions[g]@[a] as int] == keys[positions[g]@[0] as int]);
    assert(keys[positions[h]@[b] as int] == keys[positions[h]@[0] as int]);
    if g != h {
        if g < h {
            assert(keys[positions[g]@[0] as int] != keys[positions[h]@[0] as int]);
        } else {
            assert(keys[positions[h]@[0] as int] != keys[positions[g]@[0] as int]);
        }
    }
}

} // verus!
