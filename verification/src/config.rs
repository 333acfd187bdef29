//! Vector index configuration (IVF_HNSW_SQ parameters).

use vstd::prelude::*;

verus! {

/// Configuration of the vector index.
///
/// `num_partitions` is a floor: the partition count at creation time is the larger of it and
/// three quarters of the square root of the row count.
#[derive(Debug, Clone)]
pub struct VectorIndexConfig {
    /// Minimum number of IVF partitions.
    pub num_partitions: usize,
    /// Maximum number of bi-directional links per graph node.
    pub m: usize,
    /// Size of the candidate list during graph construction; at least `2 * m`.
    pub ef_construction: usize,
    /// Number of IVF partitions scanned per search.
    pub nprobes: usize,
    /// How many candidates are re-ranked with full-precision vectors.
    pub refine_factor: Option<u32>,
}

/// The configuration that a store starts with, whatever its dimension.
pub open spec fn default_config() -> VectorIndexConfig {
    VectorIndexConfig {
        num_partitions: 16,
        m: 30,
        ef_construction: 200,
        nprobes: 4,
        refine_factor: Some(2),
    }
}

/// `k` is the integer part of three quarters of the square root of `n`.
pub open spec fn is_three_quarters_of_root(k: int, n: int) -> bool {
    &&& k >= 0
    &&& 16 * (k * k) <= 9 * n
    &&& 9 * n < 16 * ((k + 1) * (k + 1))
}

/// The integer part of three quarters of the square root of `n`.
fn three_quarters_of_root(n: usize) -> (r: usize)
    ensures
        is_three_quarters_of_root(r as int, n as int),
{
    let goal: u128 = 9 * (n as u128);
    // 16 * hi * hi > goal holds throughout, and hi * hi stays below 2^68.
    let mut lo: u128 = 0;
    let mut hi: u128 = 0x2_0000_0000;
    assert(goal <= 9 * 0xffff_ffff_ffff_ffff);
    assert(16 * (0x2_0000_0000u128 * 0x2_0000_0000u128) > 9 * 0xffff_ffff_ffff_ffffu128) by (nonlinear_arith);
    while hi - lo > 1
        invariant
            0 <= lo < hi <= 0x2_0000_0000,
            goal == 9 * (n as u128),
            16 * (lo * lo) <= goal,
            goal < 16 * (hi * hi),
        decreases hi - lo,
    {
        let mid: u128 = lo + (hi - lo) / 2;
        assert(mid * mid <= 0x2_0000_0000 * 0x2_0000_0000) by (nonlinear_arith)
            requires
                mid <= 0x2_0000_0000,
        ;
        if 16 * (mid * mid) <= goal {
            lo = mid;
        } else {
            hi = mid;
        }
    }
    assert(hi == lo + 1);
    assert(lo <= n) by (nonlinear_arith)
        requires
            16 * (lo * lo) <= 9 * (n as u128),
            lo >= 0,
    ;
    lo as usize
}

impl VectorIndexConfig {
    /// Defaults for an embedding dimension.
    pub fn default_for_dim(dim: usize) -> (r: Self)
        requires
            dim > 0,
        ensures
            r == default_config(),
            r.num_partitions == 16,
            r.m == 30,
            r.ef_construction == 200,
            r.nprobes == 4,
            r.refine_factor == Some(2u32),
    {
        VectorIndexConfig {
            num_partitions: 16,
            m: 30,
            ef_construction: 200,
            nprobes: 4,
            refine_factor: Some(2),
        }
    }

    /// The number of IVF partitions for a corpus: the larger of the configured floor and three
    /// quarters of the square root of the row count.
    pub fn recommended_num_partitions(&self, row_count: usize) -> (r: usize)
        ensures
            r >= self.num_partitions,
            r == self.num_partitions || is_three_quarters_of_root(r as int, row_count as int),
            forall|k: int| #[trigger]
                is_three_quarters_of_root(k, row_count as int) ==> r >= k,
    {
        let adaptive = three_quarters_of_root(row_count);
        proof {
            assert forall|k: int| #[trigger]
                is_three_quarters_of_root(k, row_count as int) implies k == adaptive by {
                three_quarters_of_root_is_unique(k, adaptive as int, row_count as int);
            }
        }
        if self.num_partitions >= adaptive {
            self.num_partitions
        } else {
            adaptive
        }
    }
}

/// At most one number is the integer part of three quarters of the square root of `n`.
pub proof fn three_quarters_of_root_is_unique(j: int, k: int, n: int)
    requires
        is_three_quarters_of_root(j, n),
        is_three_quarters_of_root(k, n),
    ensures
        j == k,
{
    if j < k {
        assert((j + 1) * (j + 1) <= k * k) by (nonlinear_arith)
            requires
                0 <= j < k,
        ;
    } else if k < j {
        assert((k + 1) * (k + 1) <= j * j) by (nonlinear_arith)
            requires
                0 <= k < j,
        ;
    }
}

/// A larger corpus is never given fewer partitions.
pub proof fn partitions_grow_with_the_corpus(j: int, k: int, small: int, large: int)
    requires
        small <= large,
        is_three_quarters_of_root(j, small),
        is_three_quarters_of_root(k, large),
    ensures
        j <= k,
{
    if k < j {
        assert((k + 1) * (k + 1) <= j * j) by (nonlinear_arith)
            requires
                0 <= k < j,
        ;
    }
}

/// The default configuration meets the graph's construction bound.
pub proof fn default_candidate_list_is_wide_enough(c: VectorIndexConfig)
    requires
        c.m == 30,
        c.ef_construction == 200,
    ensures
        c.ef_construction >= 2 * c.m,
{
}


/// For a row count that is a square of four the partition count is exact: three quarters of the
/// root, whatever the root is. A floor above it stands.
pub proof fn square_counts_give_exact_partitions(r: int, floor: int, m: int)
    requires
        m >= 0,
        r >= floor,
        r == floor || is_three_quarters_of_root(r, (4 * m) * (4 * m)),
        forall|k: int| #[trigger] is_three_quarters_of_root(k, (4 * m) * (4 * m)) ==> r >= k,
    ensures
        floor <= 3 * m ==> r == 3 * m,
        floor > 3 * m ==> r == floor,
{
    let n = (4 * m) * (4 * m);
    assert(16 * ((3 * m) * (3 * m)) <= 9 * n && 9 * n < 16 * ((3 * m + 1) * (3 * m + 1)))
        by (nonlinear_arith)
        requires
            m >= 0,
            n == (4 * m) * (4 * m),
    ;
    assert(is_three_quarters_of_root(3 * m, n));
    if is_three_quarters_of_root(r, n) {
        three_quarters_of_root_is_unique(r, 3 * m, n);
    }
}

} // verus!
