use repo_graph_daemon_runtime::request::{
    flag_param, map_path_param, required_report_path, required_string_param, since_param, string_param,
    ParamValue,
};

#[test]
fn string_param_reads_only_strings() {
    assert_eq!(string_param(&ParamValue::Str("src".to_string())), Some("src".to_string()));
    assert_eq!(string_param(&ParamValue::Absent), None);
    assert_eq!(string_param(&ParamValue::Null), None);
    assert_eq!(string_param(&ParamValue::Bool(true)), None);
    assert_eq!(string_param(&ParamValue::Other), None);
}

#[test]
fn required_params_name_what_is_missing() {
    assert_eq!(
        required_string_param(&ParamValue::Absent, "path"),
        Err("missing or invalid 'path' parameter".to_string())
    );
    assert_eq!(
        required_string_param(&ParamValue::Other, "repo"),
        Err("missing or invalid 'repo' parameter".to_string())
    );
    assert_eq!(
        required_string_param(&ParamValue::Bool(false), "snapshot_uid"),
        Err("missing or invalid 'snapshot_uid' parameter".to_string())
    );
    assert_eq!(
        required_string_param(&ParamValue::Str("/repo".to_string()), "path"),
        Ok("/repo".to_string())
    );
}

#[test]
fn report_path_is_required() {
    assert_eq!(required_report_path(&ParamValue::Null), Err("missing 'report_path' parameter".to_string()));
    assert_eq!(
        required_report_path(&ParamValue::Str("coverage/coverage-final.json".to_string())),
        Ok("coverage/coverage-final.json".to_string())
    );
}

#[test]
fn flags_default_to_false() {
    assert!(flag_param(&ParamValue::Bool(true)));
    assert!(!flag_param(&ParamValue::Bool(false)));
    assert!(!flag_param(&ParamValue::Absent));
    assert!(!flag_param(&ParamValue::Str("true".to_string())));
}

#[test]
fn since_and_map_path_defaults() {
    assert_eq!(since_param(&ParamValue::Absent), "90.days.ago");
    assert_eq!(since_param(&ParamValue::Other), "90.days.ago");
    assert_eq!(since_param(&ParamValue::Str("30.days.ago".to_string())), "30.days.ago");
    assert_eq!(map_path_param(&ParamValue::Absent), "");
    assert_eq!(map_path_param(&ParamValue::Str("src/api".to_string())), "src/api");
}
