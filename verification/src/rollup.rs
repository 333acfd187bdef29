//! Base-3 cascade of index deltas: which commits are indexed, how deltas are grouped, and how many
//! merges a delta count calls for.

use vstd::arithmetic::power::*;
use vstd::arithmetic::power2::*;
use vstd::prelude::*;

verus! {

/// The commit at a 0-based position triggers index creation.
pub open spec fn is_indexed(position: int) -> bool {
    (position + 1) % 3 == 0
}

/// Whether the commit at a 0-based position triggers index creation: every third commit does.
pub fn should_index_commit(commit_position: usize) -> (r: bool)
    ensures
        r == ((commit_position + 1) % 3 == 0),
        r == is_indexed(commit_position as int),
{
    commit_position % 3 == 2
}

/// `e` is the integer logarithm of `n` to `base`.
pub open spec fn is_ilog(n: int, base: int, e: nat) -> bool {
    pow(base, e) <= n < pow(base, e + 1)
}

/// Integer logarithm; 0 when `base` exceeds `n`.
pub fn ilog(n: usize, base: usize) -> (r: usize)
    requires
        base >= 2 || base > n,
    ensures
        n >= 1 ==> is_ilog(n as int, base as int, r as nat),
        base > n ==> r == 0,
{
    proof {
        lemma_pow0(base as int);
        lemma_pow1(base as int);
    }
    if base > n {
        return 0;
    }
    let mut exp: usize = 0;
    let mut val: usize = n;
    let ghost p: int = 1;
    while val >= base
        invariant
            base >= 2,
            n >= 1,
            val >= 1,
            val <= n,
            exp + val <= n,
            p == pow(base as int, exp as nat),
            p >= 1,
            p * val <= n,
            n < p * (val + 1),
        decreases val,
    {
        let next = val / base;
        proof {
            lemma_ilog_step(n as int, base as int, val as int, p);
            lemma_pow_next(base as int, exp as nat);
            p = base * p;
        }
        val = next;
        exp = exp + 1;
    }
    proof {
        lemma_pow_next(base as int, exp as nat);
        assert(p <= n) by (nonlinear_arith)
            requires
                p * val <= n,
                val >= 1,
                p >= 1,
        ;
        assert(n < base * p) by (nonlinear_arith)
            requires
                n < p * (val + 1),
                val + 1 <= base,
                p >= 1,
        ;
    }
    exp
}

proof fn lemma_pow_next(base: int, e: nat)
    ensures
        pow(base, e + 1) == base * pow(base, e),
{
    reveal(pow);
}

proof fn lemma_ilog_step(n: int, base: int, val: int, p: int)
    requires
        base >= 2,
        val >= base,
        p >= 1,
        p * val <= n,
        n < p * (val + 1),
    ensures
        val / base >= 1,
        val / base < val,
        base * p >= 1,
        (base * p) * (val / base) <= n,
        n < (base * p) * (val / base + 1),
{
    let q = val / base;
    let r = val % base;
    assert(val == base * q + r && 0 <= r < base) by (nonlinear_arith)
        requires
            q == val / base,
            r == val % base,
            base >= 2,
    ;
    assert(q >= 1) by (nonlinear_arith)
        requires
            val == base * q + r,
            r < base,
            val >= base,
            base >= 2,
    ;
    assert(q < val) by (nonlinear_arith)
        requires
            val == base * q + r,
            r >= 0,
            q >= 1,
            base >= 2,
    ;
    assert((base * p) * q <= p * val) by (nonlinear_arith)
        requires
            val == base * q + r,
            r >= 0,
            p >= 1,
    ;
    assert(p * (val + 1) <= (base * p) * (q + 1)) by (nonlinear_arith)
        requires
            val == base * q + r,
            r + 1 <= base,
            p >= 1,
    ;
    assert(base * p >= 1) by (nonlinear_arith)
        requires
            base >= 2,
            p >= 1,
    ;
}

/// The sizes of the roll-up partitions of `total` deltas: greedily the largest power of `base`
/// that fits, while at least `base` deltas remain.
pub open spec fn partition_sizes(total: int, base: int) -> Seq<int>
    decreases total,
{
    if base < 2 || total < base {
        Seq::empty()
    } else {
        let size = largest_power(total, base);
        if 0 < size <= total {
            seq![size] + partition_sizes(total - size, base)
        } else {
            Seq::empty()
        }
    }
}

/// The largest power of `base` that is at most `n`.
pub open spec fn largest_power(n: int, base: int) -> int {
    pow(base, choose|e: nat| is_ilog(n, base, e))
}

/// Partitions with consecutive inclusive ranges from `offset` on, of the given sizes.
pub open spec fn tiles(partitions: Seq<(usize, usize)>, sizes: Seq<int>, offset: int) -> bool {
    &&& partitions.len() == sizes.len()
    &&& forall|k: int|
        0 <= k < sizes.len() ==> (#[trigger] partitions[k]).0 == offset + sum(sizes.take(k))
            && partitions[k].1 + 1 == offset + sum(sizes.take(k)) + sizes[k]
}

/// Sum of a list of sizes.
pub open spec fn sum(s: Seq<int>) -> int
    decreases s.len(),
{
    if s.len() == 0 {
        0
    } else {
        sum(s.drop_last()) + s.last()
    }
}

proof fn lemma_pow_monotone(base: int, a: nat, b: nat)
    requires
        base >= 2,
        a <= b,
    ensures
        1 <= pow(base, a) <= pow(base, b),
    decreases b,
{
    lemma_pow0(base);
    if b > 0 {
        lemma_pow_next(base, (b - 1) as nat);
        if a < b {
            lemma_pow_monotone(base, a, (b - 1) as nat);
            assert(pow(base, (b - 1) as nat) <= base * pow(base, (b - 1) as nat)) by (nonlinear_arith)
                requires
                    base >= 2,
                    pow(base, (b - 1) as nat) >= 1,
            ;
        } else {
            lemma_pow_monotone(base, (b - 1) as nat, (b - 1) as nat);
            assert(1 <= base * pow(base, (b - 1) as nat)) by (nonlinear_arith)
                requires
                    base >= 2,
                    pow(base, (b - 1) as nat) >= 1,
            ;
        }
    }
}

/// The integer logarithm is unique.
pub proof fn ilog_is_unique(n: int, base: int, a: nat, b: nat)
    requires
        base >= 2,
        is_ilog(n, base, a),
        is_ilog(n, base, b),
    ensures
        a == b,
{
    if a < b {
        lemma_pow_monotone(base, a + 1, b);
    } else if b < a {
        lemma_pow_monotone(base, b + 1, a);
    }
}

/// `base` to the power `exp`.
fn power(base: usize, exp: usize, bound: usize) -> (r: usize)
    requires
        base >= 2,
        pow(base as int, exp as nat) <= bound,
    ensures
        r == pow(base as int, exp as nat),
{
    let mut r: usize = 1;
    let mut i: usize = 0;
    proof {
        lemma_pow0(base as int);
    }
    while i < exp
        invariant
            i <= exp,
            base >= 2,
            r == pow(base as int, i as nat),
            pow(base as int, exp as nat) <= bound,
        decreases exp - i,
    {
        proof {
            lemma_pow_next(base as int, i as nat);
            lemma_pow_monotone(base as int, (i + 1) as nat, exp as nat);
            assert(r * base == base * r) by (nonlinear_arith);
        }
        r = r * base;
        i = i + 1;
    }
    r
}

proof fn lemma_sum_snoc(s: Seq<int>, x: int)
    ensures
        sum(s.push(x)) == sum(s) + x,
{
    assert(s.push(x).drop_last() =~= s);
}

/// Exponential roll-up partitions: inclusive ranges, largest (oldest) first, each as long as the
/// largest power of `base` that fits in what remains.
pub fn rollup_partitions(total: usize, base: usize) -> (r: Vec<(usize, usize)>)
    requires
        base >= 2 || base > total,
    ensures
        tiles(r@, partition_sizes(total as int, base as int), 0),
{
    let mut partitions: Vec<(usize, usize)> = Vec::new();
    let mut offset: usize = 0;
    let mut remaining: usize = total;
    let ghost sizes: Seq<int> = Seq::empty();
    let ghost all = partition_sizes(total as int, base as int);
    assert(all =~= sizes + partition_sizes(total as int, base as int));
    while remaining >= base
        invariant
            base >= 2 || base > total,
            offset + remaining == total,
            offset == sum(sizes),
            all == partition_sizes(total as int, base as int),
            all == sizes + partition_sizes(remaining as int, base as int),
            tiles(partitions@, sizes, 0),
        decreases remaining,
    {
        let exp = ilog(remaining, base);
        let size = power(base, exp, remaining);
        proof {
            let e = choose|e: nat| is_ilog(remaining as int, base as int, e);
            assert(is_ilog(remaining as int, base as int, exp as nat));
            ilog_is_unique(remaining as int, base as int, e, exp as nat);
            lemma_pow_monotone(base as int, 0, exp as nat);
            assert(size == largest_power(remaining as int, base as int));
            let rest = partition_sizes(remaining - size, base as int);
            assert(partition_sizes(remaining as int, base as int) == seq![size as int] + rest);
            assert(sizes + (seq![size as int] + rest) =~= sizes.push(size as int) + rest);
            lemma_sum_snoc(sizes, size as int);
        }
        let ghost before = partitions@;
        let ghost old_sizes = sizes;
        partitions.push((offset, offset + (size - 1)));
        proof {
            sizes = sizes.push(size as int);
            assert forall|k: int| 0 <= k < sizes.len() implies (#[trigger] partitions@[k]).0 == sum(
                sizes.take(k),
            ) && partitions@[k].1 + 1 == sum(sizes.take(k)) + sizes[k] by {
                assert(sizes.take(k) =~= old_sizes.take(k));
                if k == old_sizes.len() {
                    assert(old_sizes.take(k) =~= old_sizes);
                }
            }
        }
        offset = offset + size;
        remaining = remaining - size;
    }
    proof {
        assert(all =~= sizes);
    }
    partitions
}

/// Every partition size is a power of the base, at least the base itself, sizes never grow, and
/// what the partitions leave over is less than the base.
pub proof fn partitions_cover_all_but_a_remainder(total: int, base: int)
    requires
        base >= 2,
        total >= 0,
    ensures
        0 <= total - sum(partition_sizes(total, base)) < base,
        forall|k: int|
            0 <= k < partition_sizes(total, base).len() ==> base <= #[trigger] partition_sizes(
                total,
                base,
            )[k] <= total && exists|e: nat| #[trigger]
                pow(base, e) == partition_sizes(total, base)[k],
    decreases total,
{
    let all = partition_sizes(total, base);
    if total >= base {
        lemma_ilog_exists(total, base);
        let e = choose|e: nat| is_ilog(total, base, e);
        let size = pow(base, e);
        assert(size == largest_power(total, base));
        if e == 0 {
            lemma_pow1(base);
        }
        assert(e >= 1);
        lemma_pow1(base);
        lemma_pow_monotone(base, 1, e);
        let rest = partition_sizes(total - size, base);
        assert(all == seq![size] + rest);
        partitions_cover_all_but_a_remainder(total - size, base);
        lemma_sum_cons(size, rest);
        assert forall|k: int| 0 <= k < all.len() implies base <= #[trigger] all[k] <= total
            && exists|e: nat| #[trigger] pow(base, e) == all[k] by {
            if k == 0 {
                assert(pow(base, e) == all[0]);
            } else {
                assert(all[k] == rest[k - 1]);
            }
        }
    }
}

/// Partition sizes never grow.
pub proof fn partitions_are_ordered_by_size(total: int, base: int, j: int, k: int)
    requires
        base >= 2,
        total >= 0,
        0 <= j <= k < partition_sizes(total, base).len(),
    ensures
        partition_sizes(total, base)[j] >= partition_sizes(total, base)[k],
    decreases total,
{
    let all = partition_sizes(total, base);
    if total >= base && j < k {
        lemma_ilog_exists(total, base);
        let e = choose|e: nat| is_ilog(total, base, e);
        let size = pow(base, e);
        lemma_pow_monotone(base, 0, e);
        let rest = partition_sizes(total - size, base);
        assert(all == seq![size] + rest);
        if j > 0 {
            partitions_are_ordered_by_size(total - size, base, j - 1, k - 1);
        } else {
            partitions_cover_all_but_a_remainder(total - size, base);
            assert(all[k] == rest[k - 1]);
            let f = choose|f: nat| #[trigger] pow(base, f) == rest[k - 1];
            if f > e {
                lemma_pow_monotone(base, e + 1, f);
            } else {
                lemma_pow_monotone(base, f, e);
            }
        }
    }
}

proof fn lemma_sum_cons(x: int, s: Seq<int>)
    ensures
        sum(seq![x] + s) == x + sum(s),
    decreases s.len(),
{
    let t = seq![x] + s;
    if s.len() == 0 {
        assert(t =~= seq![x]);
        assert(t.drop_last() =~= Seq::<int>::empty());
        assert(sum(t.drop_last()) == 0);
    } else {
        assert(t.drop_last() =~= seq![x] + s.drop_last());
        lemma_sum_cons(x, s.drop_last());
    }
}

proof fn lemma_ilog_exists(n: int, base: int)
    requires
        base >= 2,
        n >= 1,
    ensures
        exists|e: nat| is_ilog(n, base, e),
    decreases n,
{
    lemma_pow0(base);
    lemma_pow1(base);
    if n < base {
        assert(is_ilog(n, base, 0));
    } else {
        let m = n / base;
        assert(1 <= m < n && base * m <= n < base * (m + 1)) by (nonlinear_arith)
            requires
                m == n / base,
                n >= base,
                base >= 2,
        ;
        lemma_ilog_exists(m, base);
        let e = choose|e: nat| is_ilog(m, base, e);
        lemma_pow_next(base, e);
        lemma_pow_next(base, e + 1);
        assert(base * pow(base, e) <= base * m) by (nonlinear_arith)
            requires
                pow(base, e) <= m,
                base >= 2,
        ;
        assert(base * (m + 1) <= base * pow(base, e + 1)) by (nonlinear_arith)
            requires
                m + 1 <= pow(base, e + 1),
                base >= 2,
        ;
        assert(is_ilog(n, base, e + 1));
    }
}

/// The exponent of 3 in `n`; 0 for 0.
pub open spec fn exponent_of_three(n: nat) -> nat
    decreases n,
{
    if n == 0 || n % 3 != 0 {
        0
    } else {
        1 + exponent_of_three(n / 3)
    }
}

proof fn lemma_exponent_bound(n: nat, bits: nat)
    requires
        n < pow2(bits),
    ensures
        exponent_of_three(n) <= bits,
    decreases bits,
{
    lemma2_to64();
    if bits > 0 && n > 0 && n % 3 == 0 {
        lemma_pow2_unfold(bits);
        lemma_exponent_bound(n / 3, (bits - 1) as nat);
    }
}

/// How many merges of three a delta count calls for: the exponent of 3 in it.
pub fn merges_needed(delta_count: u64) -> (r: usize)
    ensures
        r == exponent_of_three(delta_count as nat),
{
    let mut count: usize = 0;
    let mut n: u64 = delta_count;
    proof {
        lemma2_to64();
        lemma_exponent_bound(delta_count as nat, 64);
    }
    while n > 0 && n % 3 == 0
        invariant
            count + exponent_of_three(n as nat) == exponent_of_three(delta_count as nat),
            exponent_of_three(delta_count as nat) <= 64,
        decreases n,
    {
        count = count + 1;
        n = n / 3;
    }
    count
}

/// A positive delta count is divisible by exactly the powers of three up to the number of merges
/// it calls for.
pub proof fn merges_follow_divisibility(n: nat, level: nat)
    requires
        n > 0,
    ensures
        n % (pow(3, level) as nat) == 0 <==> level <= exponent_of_three(n),
    decreases level,
{
    lemma_pow0(3);
    lemma_pow_monotone(3, 0, level);
    if level == 0 {
    } else {
        lemma_pow_next(3, (level - 1) as nat);
        let p = pow(3, (level - 1) as nat);
        lemma_pow_monotone(3, 0, (level - 1) as nat);
        if n % 3 == 0 {
            merges_follow_divisibility(n / 3, (level - 1) as nat);
            let m = (n / 3) as int;
            vstd::arithmetic::div_mod::lemma_truncate_middle(m, 3, p);
        } else {
            if n as int % (3 * p) == 0 {
                let q = n as int / (3 * p);
                assert(n as int == (3 * p) * q) by (nonlinear_arith)
                    requires
                        n as int % (3 * p) == 0,
                        q == n as int / (3 * p),
                        p >= 1,
                ;
                assert((3 * p) * q == 3 * (p * q)) by (nonlinear_arith);
            }
        }
    }
}

/// Of any three commits in a row exactly one triggers index creation, and of the first three it is
/// the third.
pub proof fn every_third_commit_is_indexed(p: int)
    requires
        0 <= p,
    ensures
        is_indexed(p) <==> is_indexed(p + 3),
        (is_indexed(p) && !is_indexed(p + 1) && !is_indexed(p + 2)) || (!is_indexed(p)
            && is_indexed(p + 1) && !is_indexed(p + 2)) || (!is_indexed(p) && !is_indexed(p + 1)
            && is_indexed(p + 2)),
        !is_indexed(0) && !is_indexed(1) && is_indexed(2),
{
}

proof fn lemma_tiles_sum(sizes: Seq<int>, k: int)
    requires
        0 <= k < sizes.len(),
    ensures
        sum(sizes.take(k + 1)) == sum(sizes.take(k)) + sizes[k],
{
    assert(sizes.take(k + 1).drop_last() =~= sizes.take(k));
}

proof fn lemma_greedy(total: int, base: int, k: int)
    requires
        base >= 2,
        total >= 0,
        0 <= k < partition_sizes(total, base).len(),
    ensures
        ({
            let all = partition_sizes(total, base);
            let left = total - sum(all.take(k));
            all[k] <= left < base * all[k]
        }),
    decreases total,
{
    let all = partition_sizes(total, base);
    lemma_ilog_exists(total, base);
    let e = choose|e: nat| is_ilog(total, base, e);
    let size = pow(base, e);
    lemma_pow_monotone(base, 0, e);
    lemma_pow_next(base, e);
    let rest = partition_sizes(total - size, base);
    assert(all == seq![size] + rest);
    if k == 0 {
        assert(all.take(0) =~= Seq::<int>::empty());
    } else {
        lemma_greedy(total - size, base, k - 1);
        assert(all.take(k) =~= seq![size] + rest.take(k - 1));
        lemma_sum_cons(size, rest.take(k - 1));
    }
}

/// Roll-up partitions are ranges that follow one another from the first delta on, without a gap, and
/// leave fewer than `base` deltas over; each is as long as a power of `base`, the largest that what
/// is left allows.
pub proof fn partitions_are_consecutive_ranges(
    r: Seq<(usize, usize)>,
    total: int,
    base: int,
)
    requires
        base >= 2,
        total >= 0,
        tiles(r, partition_sizes(total, base), 0),
    ensures
        r.len() > 0 <==> total >= base,
        r.len() > 0 ==> r[0].0 == 0,
        r.len() > 0 ==> 0 <= total - (r.last().1 + 1) < base,
        forall|k: int| 0 <= k < r.len() ==> (#[trigger] r[k]).0 <= r[k].1,
        forall|k: int| 0 <= k < r.len() - 1 ==> (#[trigger] r[k]).1 + 1 == r[k + 1].0,
        forall|k: int|
            0 <= k < r.len() ==> {
                let len = (#[trigger] r[k]).1 + 1 - r[k].0;
                &&& exists|e: nat| #[trigger] pow(base, e) == len
                &&& len <= total - r[k].0 < base * len
            },
{
    let all = partition_sizes(total, base);
    partitions_cover_all_but_a_remainder(total, base);
    assert forall|k: int| 0 <= k < r.len() implies (#[trigger] r[k]).0 <= r[k].1 && {
        let len = r[k].1 + 1 - r[k].0;
        &&& exists|e: nat| #[trigger] pow(base, e) == len
        &&& len <= total - r[k].0 < base * len
    } by {
        lemma_greedy(total, base, k);
        assert(base <= all[k]);
    }
    assert forall|k: int| 0 <= k < r.len() - 1 implies (#[trigger] r[k]).1 + 1 == r[k + 1].0 by {
        lemma_tiles_sum(all, k);
    }
    if all.len() > 0 {
        assert(all.take(0) =~= Seq::<int>::empty());
        lemma_tiles_sum(all, all.len() - 1);
        assert(all.take(all.len() as int) =~= all);
        let last = r[r.len() - 1];
        assert(last.1 + 1 == sum(all));
    } else {
        assert(sum(all) == 0);
    }
}

} // verus!
