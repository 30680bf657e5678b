use repo_graph_daemon_runtime::retention::{
    classified_only, maintained, prunable_count, saturating_sub_i64, RetentionStats,
};

fn stats(current: i64, parent: i64, auto: i64, user: i64, stamp: i64, prunable: i64, total: i64) -> RetentionStats {
    RetentionStats {
        current,
        parent,
        baseline_auto: auto,
        baseline_user: user,
        baseline_stamp: stamp,
        prunable,
        total,
    }
}

#[test]
fn prunable_count_is_total_outside_protected_classes() {
    let s = stats(1, 1, 2, 1, 1, 4, 10);
    assert_eq!(prunable_count(&s), 4);
    assert_eq!(prunable_count(&stats(0, 0, 0, 0, 0, 0, 0)), 0);
}

#[test]
fn saturating_subtraction_clamps_at_the_bounds() {
    assert_eq!(saturating_sub_i64(5, 7), -2);
    assert_eq!(saturating_sub_i64(i64::MIN, 1), i64::MIN);
    assert_eq!(saturating_sub_i64(i64::MAX, -1), i64::MAX);
    assert_eq!(prunable_count(&stats(1, 0, 0, 0, 0, 0, i64::MIN)), i64::MIN);
}

#[test]
fn foreground_summary_prunes_nothing() {
    let s = stats(1, 1, 0, 0, 0, 3, 5);
    let r = classified_only(s);
    assert!(r.classified);
    assert_eq!(r.pruned_count, 0);
    assert_eq!(r.prunable_count, 3);
    assert_eq!(r.narrowed_count, 0);
    assert_eq!(r.narrowed_rows, 0);
    assert_eq!(r.stats, s);
}

#[test]
fn maintenance_summary_sums_the_narrowed_rows() {
    let s = stats(1, 1, 0, 0, 2, 0, 4);
    let r = maintained(3, &vec![10, 0, 32], s);
    assert!(r.classified);
    assert_eq!(r.pruned_count, 3);
    assert_eq!(r.prunable_count, 0);
    assert_eq!(r.narrowed_count, 3);
    assert_eq!(r.narrowed_rows, 42);
    assert_eq!(r.stats, s);
    assert_eq!(maintained(0, &vec![], s).narrowed_rows, 0);
}
