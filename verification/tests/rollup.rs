use tdb_search::index::{plan_merge_indices, plan_rollup, Cascade, CascadeStep};
use tdb_search::rollup::{ilog, merges_needed, rollup_partitions, should_index_commit};

#[test]
fn ilog_basic() {
    assert_eq!(ilog(1, 3), 0);
    assert_eq!(ilog(2, 3), 0);
    assert_eq!(ilog(3, 3), 1);
    assert_eq!(ilog(8, 3), 1);
    assert_eq!(ilog(9, 3), 2);
    assert_eq!(ilog(26, 3), 2);
    assert_eq!(ilog(27, 3), 3);
    assert_eq!(ilog(80, 3), 3);
    assert_eq!(ilog(81, 3), 4);
    assert_eq!(ilog(122, 3), 4);
    assert_eq!(ilog(123, 3), 4);
}

#[test]
fn partitions_empty_when_below_base() {
    assert!(rollup_partitions(0, 3).is_empty());
    assert!(rollup_partitions(1, 3).is_empty());
    assert!(rollup_partitions(2, 3).is_empty());
}

#[test]
fn partitions_exactly_base() {
    let p = rollup_partitions(3, 3);
    assert_eq!(p, vec![(0, 2)]);
}

#[test]
fn partitions_13_elements() {
    // 13 = 9 + 3 + 1 → partitions [0..8], [9..11]
    let p = rollup_partitions(13, 3);
    assert_eq!(p, vec![(0, 8), (9, 11)]);
}

#[test]
fn partitions_27_elements() {
    // 27 = 27 → partition [0..26]
    let p = rollup_partitions(27, 3);
    assert_eq!(p, vec![(0, 26)]);
}

#[test]
fn partitions_40_elements() {
    // 40 = 27 + 9 + 3 + 1 → partitions [0..26], [27..35], [36..38]
    let p = rollup_partitions(40, 3);
    assert_eq!(p, vec![(0, 26), (27, 35), (36, 38)]);
}

#[test]
fn partitions_81_elements() {
    // 81 = 81 → partition [0..80]
    let p = rollup_partitions(81, 3);
    assert_eq!(p, vec![(0, 80)]);
}

#[test]
fn partitions_121_elements() {
    // 121 = 81 + 27 + 9 + 3 + 1 → partitions [0..80], [81..107], [108..116], [117..119]
    let p = rollup_partitions(121, 3);
    assert_eq!(
        p,
        vec![(0, 80), (81, 107), (108, 116), (117, 119)]
    );
}

#[test]
fn partitions_123_elements() {
    // 123 = 81 + 27 + 9 + 3 + 3 → partitions [0..80], [81..107], [108..116], [117..119], [120..122]
    let p = rollup_partitions(123, 3);
    assert_eq!(
        p,
        vec![(0, 80), (81, 107), (108, 116), (117, 119), (120, 122)]
    );
}

#[test]
fn partitions_cover_all_except_remainder() {
    // The union of all partitions should cover total - (total % base^0)
    // i.e., everything except the final remainder that's < base.
    for total in [3, 5, 9, 13, 27, 40, 81, 100, 121, 123, 200] {
        let p = rollup_partitions(total, 3);
        let covered: usize = p.iter().map(|(s, e)| e - s + 1).sum();
        let remainder = total - covered;
        assert!(
            remainder < 3,
            "total={} covered={} remainder={} should be < base",
            total,
            covered,
            remainder
        );
    }
}

#[test]
fn partitions_are_non_overlapping_and_ordered() {
    for total in [3, 9, 13, 27, 40, 81, 100, 121, 123, 200] {
        let p = rollup_partitions(total, 3);
        for i in 1..p.len() {
            assert!(
                p[i].0 > p[i - 1].1,
                "total={} partitions overlap or not ordered: {:?}",
                total,
                p
            );
        }
    }
}

#[test]
fn merges_needed_divisible_by_3() {
    assert_eq!(merges_needed(3), 1);
    assert_eq!(merges_needed(6), 1);
    assert_eq!(merges_needed(12), 1);
    assert_eq!(merges_needed(15), 1);
}

#[test]
fn merges_needed_divisible_by_9() {
    assert_eq!(merges_needed(9), 2);
    assert_eq!(merges_needed(18), 2);
    assert_eq!(merges_needed(36), 2);
    assert_eq!(merges_needed(45), 2);
}

#[test]
fn merges_needed_divisible_by_27() {
    assert_eq!(merges_needed(27), 3);
    assert_eq!(merges_needed(54), 3);
    assert_eq!(merges_needed(108), 3);
}

#[test]
fn merges_needed_divisible_by_81() {
    assert_eq!(merges_needed(81), 4);
    assert_eq!(merges_needed(243), 5);
}

#[test]
fn merges_needed_not_divisible_by_3() {
    assert_eq!(merges_needed(0), 0);
    assert_eq!(merges_needed(1), 0);
    assert_eq!(merges_needed(2), 0);
    assert_eq!(merges_needed(4), 0);
    assert_eq!(merges_needed(5), 0);
    assert_eq!(merges_needed(7), 0);
    assert_eq!(merges_needed(8), 0);
    assert_eq!(merges_needed(10), 0);
    assert_eq!(merges_needed(13), 0);
    assert_eq!(merges_needed(134), 0);
}

#[test]
fn should_index_commit_at_every_3rd() {
    assert!(should_index_commit(2));
    assert!(should_index_commit(5));
    assert!(should_index_commit(8));
    assert!(should_index_commit(11));
    assert!(should_index_commit(14));
    assert!(should_index_commit(17));
    assert!(should_index_commit(20));
}

#[test]
fn should_index_commit_false_for_non_3rd() {
    assert!(!should_index_commit(0));
    assert!(!should_index_commit(1));
    assert!(!should_index_commit(3));
    assert!(!should_index_commit(4));
    assert!(!should_index_commit(6));
    assert!(!should_index_commit(7));
    assert!(!should_index_commit(9));
    assert!(!should_index_commit(10));
}

#[test]
fn ilog_is_zero_when_the_base_is_larger() {
    assert_eq!(ilog(0, 3), 0);
    assert_eq!(ilog(4, 5), 0);
    assert_eq!(ilog(1024, 2), 10);
}

#[test]
fn partitions_shrink() {
    let sizes: Vec<usize> = rollup_partitions(123, 3).iter().map(|(s, e)| e - s + 1).collect();
    assert_eq!(sizes, vec![81, 27, 9, 3, 3]);
}

#[test]
fn merges_match_divisibility_by_powers() {
    for n in 1..200u64 {
        let m = merges_needed(n);
        assert_eq!(n % 3u64.pow(m as u32), 0);
        assert_ne!(n % 3u64.pow(m as u32 + 1), 0);
    }
}

#[test]
fn rollup_merges_the_smallest_partition_first() {
    assert_eq!(plan_rollup(13, 3), vec![3, 9]);
    assert_eq!(plan_merge_indices(123), vec![3, 3, 9, 27, 81]);
    assert!(plan_merge_indices(2).is_empty());
    assert!(plan_merge_indices(0).is_empty());
    assert_eq!(plan_rollup(10, 2), vec![2, 8]);
}

#[test]
fn cascade_merges_as_often_as_the_count_asks() {
    let mut c = Cascade::start(9);
    assert_eq!(c.next(9), CascadeStep::Merge);
    assert_eq!(c.next(7), CascadeStep::Merge);
    assert_eq!(c.next(5), CascadeStep::Stop);

    let mut none = Cascade::start(10);
    assert_eq!(none.next(100), CascadeStep::Stop);
}

#[test]
fn cascade_stops_without_three_indexes() {
    let mut c = Cascade::start(27);
    assert_eq!(c.next(3), CascadeStep::Merge);
    assert_eq!(c.next(2), CascadeStep::Stop);
}
