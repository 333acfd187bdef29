//! Stable sorting of positions by a caller-defined order.

use vstd::prelude::*;

verus! {

/// A key with a total preorder: `before(a, b)` says that `a` may stand in front of `b`.
pub trait Ranked: Sized {
    spec fn before(a: Self, b: Self) -> bool;

    proof fn lemma_order(a: Self, b: Self, c: Self)
        ensures
            Self::before(a, b) || Self::before(b, a),
            Self::before(a, b) && Self::before(b, c) ==> Self::before(a, c),
    ;

    fn is_before(&self, other: &Self) -> (r: bool)
        ensures
            r == Self::before(*self, *other),
    ;
}

/// Position `x` comes strictly in front of position `y`: by key, and by position between equal keys.
pub open spec fn precedes<T: Ranked>(keys: Seq<T>, x: int, y: int) -> bool {
    T::before(keys[x], keys[y]) && (T::before(keys[y], keys[x]) ==> x < y)
}

/// Every position of `p` stands in front of all later ones.
pub open spec fn in_order<T: Ranked>(keys: Seq<T>, p: Seq<usize>) -> bool {
    forall|i: int, j: int|
        #![trigger p[i], p[j]]
        0 <= i < j < p.len() ==> precedes(keys, p[i] as int, p[j] as int)
}

/// `p` lists each position of `keys` once, in stable sorted order.
pub open spec fn sorts<T: Ranked>(keys: Seq<T>, p: Seq<usize>) -> bool {
    &&& p.len() == keys.len()
    &&& forall|i: int| 0 <= i < p.len() ==> (#[trigger] p[i]) < keys.len()
    &&& forall|x: usize| x < keys.len() ==> #[trigger] p.contains(x)
    &&& in_order(keys, p)
}

proof fn lemma_precedes_transitive<T: Ranked>(keys: Seq<T>, x: int, y: int, z: int)
    requires
        precedes(keys, x, y),
        precedes(keys, y, z),
    ensures
        precedes(keys, x, z),
{
    T::lemma_order(keys[x], keys[y], keys[z]);
    if T::before(keys[z], keys[x]) {
        T::lemma_order(keys[z], keys[x], keys[y]);
        T::lemma_order(keys[y], keys[z], keys[x]);
    }
}

/// `p` lists each of the positions `lo..hi` once, in order.
spec fn sorts_range<T: Ranked>(keys: Seq<T>, lo: int, hi: int, p: Seq<usize>) -> bool {
    &&& p.len() == hi - lo
    &&& forall|i: int| 0 <= i < p.len() ==> lo <= (#[trigger] p[i]) < hi
    &&& forall|x: usize| lo <= x < hi ==> #[trigger] p.contains(x)
    &&& in_order(keys, p)
}

fn merge<T: Ranked>(
    keys: &Vec<T>,
    lo: usize,
    mid: usize,
    hi: usize,
    left: &Vec<usize>,
    right: &Vec<usize>,
) -> (out: Vec<usize>)
    requires
        lo <= mid <= hi <= keys.len(),
        sorts_range(keys@, lo as int, mid as int, left@),
        sorts_range(keys@, mid as int, hi as int, right@),
    ensures
        sorts_range(keys@, lo as int, hi as int, out@),
{
    let mut out: Vec<usize> = Vec::new();
    let mut i: usize = 0;
    let mut j: usize = 0;
    while i < left.len() || j < right.len()
        invariant
            lo <= mid <= hi <= keys.len(),
            sorts_range(keys@, lo as int, mid as int, left@),
            sorts_range(keys@, mid as int, hi as int, right@),
            i <= left.len(),
            j <= right.len(),
            out.len() == i + j,
            forall|k: int| 0 <= k < out.len() ==> lo <= (#[trigger] out@[k]) < hi,
            forall|a: int| 0 <= a < i ==> #[trigger] out@.contains(left@[a]),
            forall|b: int| 0 <= b < j ==> #[trigger] out@.contains(right@[b]),
            in_order(keys@, out@),
            forall|k: int, a: int|
                #![trigger out@[k], left@[a]]
                0 <= k < out.len() && i <= a < left.len() ==> precedes(
                    keys@,
                    out@[k] as int,
                    left@[a] as int,
                ),
            forall|k: int, b: int|
                #![trigger out@[k], right@[b]]
                0 <= k < out.len() && j <= b < right.len() ==> precedes(
                    keys@,
                    out@[k] as int,
                    right@[b] as int,
                ),
        decreases left.len() - i + right.len() - j,
    {
        let take_left: bool = if i == left.len() {
            false
        } else if j == right.len() {
            true
        } else {
            keys[left[i]].is_before(&keys[right[j]])
        };
        let ghost before = out@;
        if take_left {
            proof {
                let x = left@[i as int] as int;
                if j < right.len() {
                    assert(precedes(keys@, x, right@[j as int] as int));
                }
                assert forall|b: int| j <= b < right.len() implies precedes(
                    keys@,
                    x,
                    right@[b] as int,
                ) by {
                    if b > j {
                        lemma_precedes_transitive(
                            keys@,
                            x,
                            right@[j as int] as int,
                            right@[b] as int,
                        );
                    }
                }
            }
            out.push(left[i]);
            proof {
                assert forall|a: int| 0 <= a < i implies #[trigger] out@.contains(left@[a]) by {
                    assert(before.contains(left@[a]));
                    let k = choose|k: int| 0 <= k < before.len() && before[k] == left@[a];
                    assert(out@[k] == left@[a]);
                }
                assert(out@[before.len() as int] == left@[i as int]);
                assert forall|b: int| 0 <= b < j implies #[trigger] out@.contains(right@[b]) by {
                    assert(before.contains(right@[b]));
                    let k = choose|k: int| 0 <= k < before.len() && before[k] == right@[b];
                    assert(out@[k] == right@[b]);
                }
            }
            i = i + 1;
        } else {
            proof {
                let x = right@[j as int] as int;
                if i < left.len() {
                    T::lemma_order(
                        keys@[left@[i as int] as int],
                        keys@[x],
                        keys@[x],
                    );
                    assert(precedes(keys@, x, left@[i as int] as int));
                }
                assert forall|a: int| i <= a < left.len() implies precedes(
                    keys@,
                    x,
                    left@[a] as int,
                ) by {
                    if a > i {
                        lemma_precedes_transitive(
                            keys@,
                            x,
                            left@[i as int] as int,
                            left@[a] as int,
                        );
                    }
                }
            }
            out.push(right[j]);
            proof {
                assert forall|a: int| 0 <= a < i implies #[trigger] out@.contains(left@[a]) by {
                    assert(before.contains(left@[a]));
                    let k = choose|k: int| 0 <= k < before.len() && before[k] == left@[a];
                    assert(out@[k] == left@[a]);
                }
                assert(out@[before.len() as int] == right@[j as int]);
                assert forall|b: int| 0 <= b < j implies #[trigger] out@.contains(right@[b]) by {
                    assert(before.contains(right@[b]));
                    let k = choose|k: int| 0 <= k < before.len() && before[k] == right@[b];
                    assert(out@[k] == right@[b]);
                }
            }
            j = j + 1;
        }
    }
    proof {
        assert forall|x: usize| lo <= x < hi implies #[trigger] out@.contains(x) by {
            if x < mid {
                assert(left@.contains(x));
                let a = choose|a: int| 0 <= a < left@.len() && left@[a] == x;
                assert(out@.contains(left@[a]));
            } else {
                assert(right@.contains(x));
                let b = choose|b: int| 0 <= b < right@.len() && right@[b] == x;
                assert(out@.contains(right@[b]));
            }
        }
    }
    out
}

fn sort_range<T: Ranked>(keys: &Vec<T>, lo: usize, hi: usize) -> (out: Vec<usize>)
    requires
        lo <= hi <= keys.len(),
    ensures
        sorts_range(keys@, lo as int, hi as int, out@),
    decreases hi - lo,
{
    if hi - lo == 0 {
        Vec::new()
    } else if hi - lo == 1 {
        let mut out: Vec<usize> = Vec::new();
        out.push(lo);
        assert(out@[0] == lo);
        out
    } else {
        let mid = lo + (hi - lo) / 2;
        let left = sort_range(keys, lo, mid);
        let right = sort_range(keys, mid, hi);
        merge(keys, lo, mid, hi, &left, &right)
    }
}

/// The positions of `keys` in stable sorted order.
pub fn sorted_positions<T: Ranked>(keys: &Vec<T>) -> (p: Vec<usize>)
    ensures
        sorts(keys@, p@),
{
    sort_range(keys, 0, keys.len())
}

/// An integer key in ascending order.
pub struct Ascending {
    pub key: i64,
}

impl Ranked for Ascending {
    open spec fn before(a: Self, b: Self) -> bool {
        a.key <= b.key
    }

    proof fn lemma_order(a: Self, b: Self, c: Self) {
    }

    fn is_before(&self, other: &Self) -> (r: bool) {
        self.key <= other.key
    }
}


/// Sorting keeps every position and repeats none; no later key stands in front of an earlier one,
/// and keys that stand level keep their order.
pub proof fn sorting_is_stable<T: Ranked>(keys: Seq<T>, p: Seq<usize>, i: int, j: int)
    requires
        sorts(keys, p),
        0 <= i < j < p.len(),
    ensures
        p[i] != p[j],
        T::before(keys[p[i] as int], keys[p[j] as int]),
        T::before(keys[p[j] as int], keys[p[i] as int]) ==> p[i] < p[j],
        p.len() == keys.len(),
{
    assert(precedes(keys, p[i] as int, p[j] as int));
    T::lemma_order(keys[p[i] as int], keys[p[i] as int], keys[p[i] as int]);
}

/// Numbers are sorted upwards.
pub proof fn numbers_are_sorted_upwards(keys: Seq<Ascending>, p: Seq<usize>, i: int, j: int)
    requires
        sorts(keys, p),
        0 <= i <= j < p.len(),
    ensures
        keys[p[i] as int].key <= keys[p[j] as int].key,
{
    if i < j {
        sorting_is_stable(keys, p, i, j);
    }
}

} // verus!
