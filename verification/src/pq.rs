//! Vector index configuration for the product-quantised index (IVF_PQ).

use vstd::prelude::*;

verus! {

/// Configuration of an IVF_PQ vector index.
#[derive(Debug, Clone)]
pub struct VectorIndexConfig {
    /// Number of IVF partitions.
    pub num_partitions: usize,
    /// Number of PQ sub-vectors; divides the embedding dimension evenly.
    pub num_sub_vectors: usize,
    /// Number of partitions scanned per search.
    pub nprobes: usize,
    /// How many candidates are re-ranked with full-precision vectors.
    pub refine_factor: Option<u32>,
}

/// `d` is the largest divisor of `n` in `1..=target`, or 1 when `target` is 0.
pub open spec fn is_largest_divisor_leq(n: int, target: int, d: int) -> bool {
    &&& 1 <= d
    &&& n % d == 0
    &&& d <= target || d == 1
    &&& forall|e: int| d < e <= target ==> #[trigger] (n % e) != 0
}

/// The number of sub-vectors aimed at for a dimension: eight dimensions each up to 256, sixteen
/// above, and at least one sub-vector.
pub open spec fn sub_vector_target(dim: int) -> int {
    let t = if dim <= 256 {
        dim / 8
    } else {
        dim / 16
    };
    if t < 1 {
        1
    } else {
        t
    }
}

/// Find the largest divisor of `n` that is at most `target`; 1 if there is none above 1.
pub fn largest_divisor_leq(n: usize, target: usize) -> (r: usize)
    ensures
        is_largest_divisor_leq(n as int, target as int, r as int),
{
    let mut candidate: usize = target;
    while candidate > 1
        invariant
            candidate <= target,
            forall|e: int| candidate < e <= target ==> #[trigger] (n as int % e) != 0,
        decreases candidate,
    {
        if n % candidate == 0 {
            return candidate;
        }
        candidate = candidate - 1;
    }
    1
}

impl VectorIndexConfig {
    /// Defaults for an embedding dimension. `num_sub_vectors` always divides `dim`.
    pub fn default_for_dim(dim: usize) -> (r: Self)
        requires
            dim > 0,
        ensures
            r.num_partitions == 16,
            r.nprobes == 8,
            r.refine_factor == Some(10u32),
            is_largest_divisor_leq(
                dim as int,
                sub_vector_target(dim as int),
                r.num_sub_vectors as int,
            ),
    {
        let share: usize = if dim <= 256 {
            dim / 8
        } else {
            dim / 16
        };
        let target: usize = if share < 1 {
            1
        } else {
            share
        };
        VectorIndexConfig {
            num_partitions: 16,
            num_sub_vectors: largest_divisor_leq(dim, target),
            nprobes: 8,
            refine_factor: Some(10),
        }
    }
}


/// Two numbers that are both the largest divisor up to a target are the same.
pub proof fn the_largest_divisor_is_unique(n: int, target: int, d: int, e: int)
    requires
        is_largest_divisor_leq(n, target, d),
        is_largest_divisor_leq(n, target, e),
    ensures
        d == e,
{
    if d < e {
        assert(n % e != 0 || e > target);
    }
    if e < d {
        assert(n % d != 0 || d > target);
    }
}

/// The number of sub-vectors divides the dimension, and no larger number up to the target does.
pub proof fn sub_vectors_divide_the_dimension(n: int, target: int, d: int, e: int)
    requires
        is_largest_divisor_leq(n, target, d),
        1 <= e <= target,
        n % e == 0,
    ensures
        n % d == 0,
        e <= d,
        d <= target,
{
    assert(!(d < e));
}

/// A dimension of eights, up to 256, is cut into eights.
pub proof fn small_dimensions_are_cut_into_eights(k: int, d: int)
    requires
        1 <= k <= 32,
        is_largest_divisor_leq(8 * k, sub_vector_target(8 * k), d),
    ensures
        d == k,
{
    assert((8 * k) / 8 == k);
    assert((8 * k) % k == 0) by (nonlinear_arith)
        requires
            k >= 1,
    ;
    assert(!(d < k));
}

/// A dimension of sixteens above 256 is cut into sixteens.
pub proof fn large_dimensions_are_cut_into_sixteens(k: int, d: int)
    requires
        k > 16,
        is_largest_divisor_leq(16 * k, sub_vector_target(16 * k), d),
    ensures
        d == k,
{
    assert((16 * k) / 16 == k);
    assert((16 * k) % k == 0) by (nonlinear_arith)
        requires
            k >= 1,
    ;
    assert(!(d < k));
}

/// A dimension below eight is not cut.
pub proof fn tiny_dimensions_are_not_cut(dim: int, d: int)
    requires
        0 < dim < 16,
        is_largest_divisor_leq(dim, sub_vector_target(dim), d),
    ensures
        d == 1,
{
}

} // verus!
