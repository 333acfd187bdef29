use tdb_search::config::VectorIndexConfig as GraphConfig;
use tdb_search::pq::{largest_divisor_leq, VectorIndexConfig};

#[test]
fn largest_divisor_leq_standard_dims() {
    // 768-d (nomic-embed-v2): target = 768/16 = 48, 768%48 = 0 → 48
    assert_eq!(largest_divisor_leq(768, 48), 48);
    // 128-d: target = 128/8 = 16, 128%16 = 0 → 16
    assert_eq!(largest_divisor_leq(128, 16), 16);
    // 384-d: target = 384/16 = 24, 384%24 = 0 → 24
    assert_eq!(largest_divisor_leq(384, 24), 24);
    // 1536-d: target = 1536/16 = 96, 1536%96 = 0 → 96
    assert_eq!(largest_divisor_leq(1536, 96), 96);
}

#[test]
fn largest_divisor_leq_non_standard_dims() {
    // Largest divisor of 500 <= 31: 500 = 2^2 * 5^3, so 25.
    assert_eq!(largest_divisor_leq(500, 31), 25);
    // Divisors of 130: 1,2,5,10,13,26,65,130. Largest <= 16: 13.
    assert_eq!(largest_divisor_leq(130, 16), 13);
}

#[test]
fn largest_divisor_leq_prime_dim() {
    // 127 is prime, so only 1 divides it below 15.
    assert_eq!(largest_divisor_leq(127, 15), 1);
}

#[test]
fn vector_index_config_guarantees_divisibility() {
    let test_dims = [128, 256, 384, 500, 512, 768, 1024, 1536, 130, 127, 100, 200];
    for dim in test_dims {
        let config = VectorIndexConfig::default_for_dim(dim);
        assert_eq!(
            dim % config.num_sub_vectors,
            0,
            "dim={} must be divisible by num_sub_vectors={} (got remainder {})",
            dim,
            config.num_sub_vectors,
            dim % config.num_sub_vectors
        );
        assert!(
            config.num_sub_vectors >= 1,
            "num_sub_vectors must be at least 1 for dim={}",
            dim
        );
    }
}

#[test]
fn quantised_defaults() {
    let config = VectorIndexConfig::default_for_dim(768);
    assert_eq!(config.num_sub_vectors, 48);
    let small = VectorIndexConfig::default_for_dim(130);
    assert_eq!(small.num_sub_vectors, 13);
}

#[test]
fn graph_defaults() {
    let config = GraphConfig::default_for_dim(768);
    assert_eq!(config.num_partitions, 16);
    assert_eq!(config.m, 30);
    assert_eq!(config.ef_construction, 200);
    assert_eq!(config.nprobes, 4);
    assert_eq!(config.refine_factor, Some(2));
}

#[test]
fn partitions_grow_with_the_rows() {
    let config = GraphConfig::default_for_dim(8);
    assert_eq!(config.recommended_num_partitions(0), 16);
    assert_eq!(config.recommended_num_partitions(455), 16);
    assert_eq!(config.recommended_num_partitions(10_000), 75);
    assert_eq!(config.recommended_num_partitions(1_000_000), 750);
}
