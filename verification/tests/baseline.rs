use repo_graph_daemon_runtime::baseline::{
    byte_unit, comparability_token, known_empty_at_index, mark_decision, mark_note, mark_request,
    retain_rows_type_error, snapshot_not_found, snapshot_repo_mismatch, stamp_remediation, ByteUnit,
    MarkCost, RetentionClass,
};
use repo_graph_daemon_runtime::request::ParamValue;

fn cost(decl: u64) -> MarkCost {
    MarkCost {
        graph_rows_total: 1200,
        graph_size: Some("1.5 MB".to_string()),
        measurement_rows_total: 40,
        measurement_size: None,
        declaration_rows: decl,
    }
}

#[test]
fn comparability_follows_the_class() {
    assert_eq!(comparability_token(RetentionClass::BaselineUser), "comparable");
    assert_eq!(comparability_token(RetentionClass::BaselineStamp), "not_comparable");
    assert_eq!(comparability_token(RetentionClass::Prunable), "not_comparable");
    assert_eq!(RetentionClass::BaselineUser.mark_name(), "baseline_user");
    assert_eq!(RetentionClass::BaselineStamp.mark_name(), "baseline_stamp");
}

#[test]
fn known_empty_needs_all_three_zero() {
    assert!(known_empty_at_index(0, 0, 0));
    assert!(!known_empty_at_index(0, 1, 0));
}

#[test]
fn remediation_per_case() {
    assert_eq!(stamp_remediation(RetentionClass::BaselineUser, false, false), None);
    assert!(stamp_remediation(RetentionClass::BaselineStamp, true, false)
        .unwrap()
        .contains("while its rows are still present"));
    assert!(stamp_remediation(RetentionClass::BaselineStamp, false, true)
        .unwrap()
        .contains("recorded empty at index time"));
    assert!(stamp_remediation(RetentionClass::BaselineStamp, false, false)
        .unwrap()
        .contains("already gone"));
}

#[test]
fn mark_decisions() {
    let d = mark_decision(false, None, true, "s1", 3, 9, 8).unwrap();
    assert_eq!(d.target_class, RetentionClass::BaselineStamp);
    assert!(!d.kept_existing_user_mark);
    let kept = mark_decision(false, Some(RetentionClass::BaselineUser), true, "s1", 3, 9, 8).unwrap();
    assert_eq!(kept.target_class, RetentionClass::BaselineUser);
    assert!(kept.kept_existing_user_mark);
    let up = mark_decision(true, Some(RetentionClass::BaselineStamp), true, "s1", 3, 9, 8).unwrap();
    assert_eq!(up.target_class, RetentionClass::BaselineUser);
    let err = mark_decision(true, None, false, "s1", 3, 9, 8).unwrap_err();
    assert_eq!(
        err,
        "snapshot 's1' had graph rows at index time (3 files / 9 nodes / 8 edges recorded) but they are no longer present — they were narrowed to the provenance stamp. To get a row-retaining baseline: run `rmap index`/`rmap refresh`, then mark the new snapshot with retain_rows=true."
    );
    let empty = mark_decision(true, None, false, "s2", 0, 0, 0).unwrap();
    assert_eq!(empty.target_class, RetentionClass::BaselineUser);
}

#[test]
fn mark_notes() {
    assert_eq!(
        mark_note(RetentionClass::BaselineStamp, false, false, &cost(0)),
        "provenance stamp: comparability metadata, 40 measurement rows (size unknown) are kept; the 1200 graph rows (~1.5 MB) are not retained and will be removed by the retention pass once this snapshot leaves the serving pair"
    );
    assert_eq!(
        mark_note(RetentionClass::BaselineUser, false, false, &cost(2)),
        "row-retaining baseline: 1200 graph rows (~1.5 MB) stay pinned until unmarked, in addition to the provenance stamp, 40 measurement rows (size unknown) and 2 declaration rows (retained authority)"
    );
    assert!(mark_note(RetentionClass::BaselineUser, true, false, &cost(0)).starts_with(
        "this snapshot already carries a row-retaining baseline mark; it was kept"
    ));
    assert!(mark_note(RetentionClass::BaselineUser, false, true, &cost(0)).ends_with("are kept"));
    assert!(mark_note(RetentionClass::BaselineStamp, false, true, &cost(0))
        .contains("there are no graph rows to retain or remove"));
}

#[test]
fn mark_request_messages() {
    assert_eq!(
        retain_rows_type_error("\"true\""),
        "'retain_rows' must be a boolean (true/false), got \"true\". Pass retain_rows=true to pin this snapshot's graph rows, or omit it for a provenance stamp."
    );
    assert_eq!(
        snapshot_repo_mismatch("s1", "repo_b", "repo_a"),
        "snapshot 's1' belongs to repo 'repo_b', not 'repo_a'"
    );
    assert_eq!(snapshot_not_found("s9"), "snapshot 's9' not found");
}

#[test]
fn a_mark_never_downgrades_a_row_retaining_mark() {
    for retain in [false, true] {
        let first = mark_decision(retain, Some(RetentionClass::BaselineUser), true, "s", 1, 1, 1).unwrap();
        assert_eq!(first.target_class, RetentionClass::BaselineUser);
        let again = mark_decision(retain, Some(first.target_class), true, "s", 1, 1, 1).unwrap();
        assert_eq!(again.target_class, first.target_class);
    }
    let stamp = mark_decision(false, Some(RetentionClass::Current), true, "s", 1, 1, 1).unwrap();
    assert_eq!(stamp.target_class, RetentionClass::BaselineStamp);
    let again = mark_decision(false, Some(stamp.target_class), true, "s", 1, 1, 1).unwrap();
    assert_eq!(again.target_class, RetentionClass::BaselineStamp);
}

#[test]
fn mark_request_refuses_a_non_boolean_retain_rows() {
    let r = mark_request(&ParamValue::Str("true".to_string()), "\"true\"", None, true, "snap-1", 3, 4, 5);
    assert_eq!(r.unwrap_err(), retain_rows_type_error("\"true\""));
    let r = mark_request(&ParamValue::Other, "1", Some(RetentionClass::BaselineStamp), true, "snap-1", 3, 4, 5);
    assert_eq!(
        r.unwrap_err(),
        "'retain_rows' must be a boolean (true/false), got 1. Pass retain_rows=true to pin this snapshot's graph rows, or omit it for a provenance stamp."
    );
}

#[test]
fn mark_request_reads_absent_and_null_as_a_stamp() {
    for v in [ParamValue::Absent, ParamValue::Null, ParamValue::Bool(false)] {
        let d = mark_request(&v, "", None, false, "snap-1", 3, 4, 5).unwrap();
        assert_eq!(d.target_class, RetentionClass::BaselineStamp);
        assert!(!d.kept_existing_user_mark);
    }
    let d = mark_request(&ParamValue::Null, "null", Some(RetentionClass::BaselineUser), true, "snap-1", 3, 4, 5)
        .unwrap();
    assert_eq!(d.target_class, RetentionClass::BaselineUser);
    assert!(d.kept_existing_user_mark);
}

#[test]
fn mark_request_with_true_follows_the_row_guard() {
    let err = mark_request(&ParamValue::Bool(true), "true", None, false, "snap-9", 3, 4, 5).unwrap_err();
    assert!(err.starts_with("snapshot 'snap-9' had graph rows at index time (3 files / 4 nodes / 5 edges recorded)"));
    let d = mark_request(&ParamValue::Bool(true), "true", None, false, "snap-9", 0, 0, 0).unwrap();
    assert_eq!(d.target_class, RetentionClass::BaselineUser);
}

#[test]
fn byte_unit_thresholds() {
    assert_eq!(byte_unit(0), ByteUnit::B);
    assert_eq!(byte_unit(1023), ByteUnit::B);
    assert_eq!(byte_unit(1024), ByteUnit::Kb);
    assert_eq!(byte_unit(1048575), ByteUnit::Kb);
    assert_eq!(byte_unit(1048576), ByteUnit::Mb);
    assert_eq!(byte_unit(1073741823), ByteUnit::Mb);
    assert_eq!(byte_unit(1073741824), ByteUnit::Gb);
    assert_eq!(byte_unit(u64::MAX), ByteUnit::Gb);
}
