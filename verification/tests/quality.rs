use repo_graph_daemon_runtime::quality::{
    assess_error_kind, coverage_file, coverage_report_not_found, dead_causes_facts,
    file_stable_key, filter_hotspots, is_vendored_path, keep_indexed, language_set_of,
    measurement_uid, repo_not_indexed_message, resolve_repo_root_abs, resolve_root_path, sample,
    RequestErrorKind,
};
use sha2::Digest;

fn s(v: &[&str]) -> Vec<String> {
    v.iter().map(|x| x.to_string()).collect()
}

#[test]
fn is_vendored_path_detects_vendor_segment() {
    assert!(is_vendored_path("vendor/lib.js"));
    assert!(is_vendored_path("src/vendor/lib.js"));
    assert!(is_vendored_path("node_modules/package/index.js"));
    assert!(is_vendored_path("third_party/lib.c"));
    assert!(is_vendored_path("deps/library.rs"));
}

#[test]
fn is_vendored_path_rejects_non_vendored() {
    assert!(!is_vendored_path("src/lib.js"));
    assert!(!is_vendored_path("src/vendors_list.js"));
    assert!(!is_vendored_path("myvendor/lib.js"));
}

#[test]
fn resolve_root_path_handles_relative() {
    let resolved = resolve_root_path("/Users/test/data/db/test.db", "../../repo");
    assert!(resolved.ends_with("repo") || resolved.contains("repo"));
    assert_eq!(resolved, "/Users/test/data/db/../../repo");
}

#[test]
fn resolve_root_path_handles_absolute() {
    let resolved = resolve_root_path("/Users/test/data/db/test.db", "/absolute/path/repo");
    assert!(resolved.contains("repo"));
    assert_eq!(resolved, "/absolute/path/repo");
}

#[test]
fn resolve_root_path_edge_directories() {
    assert_eq!(resolve_root_path("test.db", "repo"), "repo");
    assert_eq!(resolve_root_path("/test.db", "repo"), "/repo");
    assert_eq!(resolve_root_path("/", "repo"), "/repo");
    assert_eq!(resolve_root_path("", "repo"), "/repo");
    assert_eq!(resolve_root_path("/a/b/", "repo"), "/a/repo");
    assert_eq!(resolve_repo_root_abs("/data/x.db", "."), "/data/.");
}

#[test]
fn churn_keeps_only_indexed_files() {
    let kept = keep_indexed(&s(&["a.rs", "gone.rs", "b.rs"]), &s(&["b.rs", "a.rs"]));
    assert_eq!(kept, vec![0, 2]);
}

#[test]
fn hotspot_filters_count_each_reason() {
    let paths = s(&["src/a.rs", "tests/t.rs", "vendor/v.rs", "vendor/t.rs"]);
    let tests = s(&["tests/t.rs", "vendor/t.rs"]);
    let f = filter_hotspots(&paths, &tests, true, true);
    assert_eq!(f.kept, vec![0]);
    assert_eq!(f.excluded_tests_count, 2);
    assert_eq!(f.excluded_vendored_count, 2);
    assert_eq!(f.excluded_count, 3);
    let none = filter_hotspots(&paths, &tests, false, false);
    assert_eq!(none.kept, vec![0, 1, 2, 3]);
    assert_eq!(none.excluded_count, 0);
}

#[test]
fn coverage_identity() {
    let key = file_stable_key("repo_1", "src/a.ts");
    assert_eq!(key, "repo_1:src/a.ts:FILE");
    let uid = measurement_uid("snap_1", &key, "line_coverage");
    let digest = sha2::Sha256::digest(b"snap_1:repo_1:src/a.ts:FILE:line_coverage");
    let expected: String = format!("msr:{}", hex::encode(digest)).chars().take(36).collect();
    assert_eq!(uid, expected);
    assert_eq!(uid.len(), 36);
    assert!(uid.starts_with("msr:"));
}

#[test]
fn coverage_file_strips_repo_and_file_marker() {
    assert_eq!(coverage_file("repo_1:src/a.ts:FILE", "repo_1").as_deref(), Some("src/a.ts"));
    assert_eq!(coverage_file("repo_2:src/a.ts:FILE", "repo_1"), None);
    assert_eq!(coverage_file("repo_1:src/a.ts#x:SYMBOL", "repo_1"), None);
}

#[test]
fn samples_and_messages() {
    let v: Vec<String> = (0..15).map(|i| format!("p{i}")).collect();
    assert_eq!(sample(&v, 10).len(), 10);
    assert_eq!(sample(&s(&["a"]), 10), s(&["a"]));
    assert_eq!(repo_not_indexed_message("/x"), "repo not indexed: /x (run: rmap index /x)");
    assert_eq!(coverage_report_not_found("/c.json"), "coverage report not found: /c.json");
    assert_eq!(assess_error_kind("baseline snapshot missing"), RequestErrorKind::InvalidRequest);
    assert_eq!(assess_error_kind("InvalidPolicy: x"), RequestErrorKind::InvalidRequest);
    assert_eq!(assess_error_kind("disk full"), RequestErrorKind::InternalError);
}

#[test]
fn dead_causes_facts_are_mutually_exclusive_lines() {
    let langs = s(&["Java", "C", "java"]);
    assert_eq!(language_set_of(&langs), s(&["c", "java"]));
    let with = dead_causes_facts(&s(&["spring_container_managed"]), &langs, 3, 0);
    assert_eq!(with.total_inferences, 1);
    assert!(with.framework_empty.is_none());
    assert_eq!(
        with.uncovered_note.as_deref(),
        Some("No inference detector on this build covers C.")
    );
    assert!(with.coverage_present);
    assert!(!with.entrypoints_present);
    assert_eq!(with.detectors[1].count, 1);
    let without = dead_causes_facts(&Vec::new(), &langs, 0, 2);
    assert!(without.uncovered_note.is_none());
    assert!(without.framework_empty.is_some());
    assert!(without.entrypoints_present);
}
