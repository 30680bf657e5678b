use std::collections::BTreeSet;

use repo_graph_daemon_runtime::inferences_serve::{
    build_detectors, build_response, empty_state, file_from_stable_key, no_detector_note,
    reader_language, reader_language_list, record_location, uncovered_languages, EmptyReason,
};

/// A snapshot language set as the reader yields it: ascending, no repeats.
fn langs(items: &[&str]) -> Vec<String> {
    let set: BTreeSet<String> = items.iter().map(|s| s.to_string()).collect();
    set.into_iter().collect()
}

fn kinds(items: &[(&str, usize)]) -> Vec<String> {
    let mut v = Vec::new();
    for (k, n) in items {
        for _ in 0..*n {
            v.push(k.to_string());
        }
    }
    v
}

#[test]
fn detectors_report_applicable_and_true_counts() {
    let l = langs(&["java", "javascript", "tsx", "typescript"]);
    let rows = kinds(&[
        ("react_hook_usage", 532),
        ("react_component", 97),
        ("spring_container_managed", 123),
    ]);
    let d = build_detectors(&l, &rows);
    let react = &d[0];
    assert_eq!(react.detector.id, "react");
    assert!(react.applicable);
    assert_eq!(react.count, 629);
    let spring = &d[1];
    assert!(spring.applicable);
    assert_eq!(spring.count, 123);
}

#[test]
fn detector_not_applicable_when_language_absent() {
    let l = langs(&["c", "cpp"]);
    let d = build_detectors(&l, &Vec::new());
    assert!(!d[0].applicable, "react not applicable");
    assert_eq!(d[0].count, 0);
    assert!(!d[1].applicable, "spring not applicable");
}

#[test]
fn empty_no_detector_for_language_names_the_reader_language() {
    let e = empty_state(&langs(&["c", "cpp"]));
    assert_eq!(e.reason.as_str(), "no_detector_for_languages");
    let msg = &e.message;
    assert!(msg.contains("C") && msg.contains("C++"), "names langs: {msg}");
    assert!(
        msg.contains("No inference detector on this build covers"),
        "honest line: {msg}"
    );
}

#[test]
fn empty_applicable_but_nothing_recorded_is_phrased_as_derived() {
    let e = empty_state(&langs(&["typescript"]));
    assert_eq!(e.reason.as_str(), "applicable_detectors_recorded_nothing");
    let msg = &e.message;
    assert!(msg.contains("React"), "names the detector: {msg}");
    assert!(msg.contains("TypeScript"), "reader language: {msg}");
    assert!(msg.contains("by file language"), "derived applicability: {msg}");
    assert!(!msg.contains("ran"), "no unverifiable execution claim: {msg}");
}

#[test]
fn empty_python_only_is_no_detector_for_language() {
    let e = empty_state(&langs(&["python"]));
    assert_eq!(e.reason, EmptyReason::NoDetectorForLanguages);
    assert!(e.message.contains("Python"));
}

#[test]
fn uncovered_languages_names_only_languages_with_no_detector() {
    let u = uncovered_languages(&langs(&["java", "typescript", "c", "cpp"]));
    assert_eq!(u, langs(&["c", "cpp"]), "only the detector-less languages");
    assert!(uncovered_languages(&langs(&["java", "tsx"])).is_empty());
    assert_eq!(
        uncovered_languages(&langs(&["go", "ruby"])),
        langs(&["go", "ruby"])
    );
}

#[test]
fn no_detector_note_present_only_for_a_real_gap_in_reader_language() {
    assert_eq!(no_detector_note(&Vec::new()), None, "no gap → no line");
    let note = no_detector_note(&langs(&["c", "cpp"])).expect("gap → a line");
    assert!(note.contains("C") && note.contains("C++"), "reader langs: {note}");
    assert!(
        note.starts_with("No inference detector on this build covers"),
        "honest phrasing: {note}"
    );
}

#[test]
fn reader_language_passes_through_unknown_verbatim() {
    assert_eq!(reader_language("kotlin"), "kotlin");
    assert_eq!(reader_language("java"), "Java");
}

#[test]
fn reader_language_list_joins_in_order_or_says_none() {
    assert_eq!(reader_language_list(&Vec::new()), "(none)");
    assert_eq!(
        reader_language_list(&langs(&["cpp", "c", "csharp"])),
        "C, C++, C#"
    );
}

#[test]
fn no_detector_note_exact_text() {
    assert_eq!(
        no_detector_note(&langs(&["c", "cpp"])).unwrap(),
        "No inference detector on this build covers C, C++."
    );
}

#[test]
fn empty_state_messages_exact() {
    let e = empty_state(&langs(&["go"]));
    assert_eq!(
        e.message,
        "No inference detector on this build covers Go (this build's inference detectors: React → JS/TS, Spring → Java)."
    );
    assert!(e.covered_languages.is_empty());
    assert_eq!(e.uncovered_languages, langs(&["go"]));
    let mixed = empty_state(&langs(&["c", "java", "tsx"]));
    assert_eq!(
        mixed.message,
        "React and Spring applies to this snapshot's Java, TypeScript (TSX) files (by file language) but recorded no inferences. No inference detector on this build covers C."
    );
    assert_eq!(mixed.covered_languages, langs(&["java", "tsx"]));
}

#[test]
fn file_and_line_project_from_symbol_and_file_key_shapes() {
    assert_eq!(
        file_from_stable_key("repo_01abc:web/src/App.tsx#Widget:SYMBOL:FUNCTION").as_deref(),
        Some("web/src/App.tsx")
    );
    assert_eq!(
        file_from_stable_key("repo_01abc:web/src/util.ts:FILE").as_deref(),
        Some("web/src/util.ts")
    );
}

#[test]
fn spring_row_has_file_but_no_line_never_fabricates_zero() {
    assert_eq!(
        file_from_stable_key("repo_01abc:src/main/java/App.java#AppConfig:SYMBOL:CLASS").as_deref(),
        Some("src/main/java/App.java")
    );
}

#[test]
fn file_from_stable_key_malformed_is_none() {
    assert_eq!(file_from_stable_key("no-colon-here"), None);
    assert_eq!(file_from_stable_key("repo_x::FILE"), None);
    assert_eq!(file_from_stable_key("repo_x:#sym"), None);
}

#[test]
fn kind_filter_does_not_corrupt_detector_inventory() {
    let rows = vec![
        "react_component".to_string(),
        "react_component".to_string(),
        "spring_container_managed".to_string(),
    ];
    let resp = build_response(
        &rows,
        &langs(&["java", "tsx"]),
        Some("spring_container_managed"),
        None,
    );
    assert_eq!(resp.count, 1);
    assert_eq!(resp.returned, 1);
    assert_eq!(resp.selected, vec![2]);
    let react = resp.detectors.iter().find(|d| d.detector.id == "react").unwrap();
    assert_eq!(react.count, 2, "filter must not zero out react's count");
}

#[test]
fn limit_caps_records_and_declares_truncation_with_true_total() {
    let rows = kinds(&[("react_component", 5)]);
    let resp = build_response(&rows, &langs(&["tsx"]), None, Some(2));
    assert_eq!(resp.count, 5, "true total");
    assert_eq!(resp.returned, 2, "rows in this payload");
    assert!(resp.truncated);
    assert_eq!(resp.limit, Some(2));
    assert_eq!(resp.selected, vec![0, 1]);
}

#[test]
fn kind_filter_with_no_matches_but_nonempty_snapshot_is_benign_note() {
    let rows = kinds(&[("react_component", 1)]);
    let resp = build_response(
        &rows,
        &langs(&["tsx"]),
        Some("spring_container_managed"),
        None,
    );
    assert_eq!(resp.count, 0);
    let empty = resp.empty.expect("an explanation");
    assert_eq!(empty.reason.as_str(), "no_records_for_kind_filter");
    assert_eq!(
        empty.message,
        "No 'spring_container_managed' inferences in this snapshot (1 inference(s) of other kinds — see the detector inventory above)."
    );
}

#[test]
fn empty_snapshot_gets_the_language_line_and_full_snapshot_none() {
    let resp = build_response(&Vec::new(), &langs(&["python"]), None, None);
    assert_eq!(resp.count, 0);
    assert!(!resp.truncated);
    assert_eq!(
        resp.empty.map(|e| e.reason),
        Some(EmptyReason::NoDetectorForLanguages)
    );
    let full = build_response(&kinds(&[("react_component", 1)]), &langs(&["tsx"]), None, None);
    assert!(full.empty.is_none());
    assert_eq!(full.selected, vec![0]);
}

/// A language list as read, in any order and with repeats.
fn raw(items: &[&str]) -> Vec<String> {
    items.iter().map(|s| s.to_string()).collect()
}

#[test]
fn language_answers_depend_on_the_set_only() {
    assert_eq!(
        uncovered_languages(&raw(&["cpp", "java", "c", "cpp"])),
        langs(&["c", "cpp"])
    );
    assert_eq!(reader_language_list(&raw(&["csharp", "c", "cpp", "c"])), "C, C++, C#");
    assert_eq!(
        no_detector_note(&raw(&["cpp", "c"])).unwrap(),
        "No inference detector on this build covers C, C++."
    );
    let a = empty_state(&raw(&["tsx", "c", "java", "java"]));
    let b = empty_state(&langs(&["c", "java", "tsx"]));
    assert_eq!(a.message, b.message);
    assert_eq!(a.covered_languages, b.covered_languages);
    assert_eq!(a.uncovered_languages, b.uncovered_languages);
}

#[test]
fn kind_filter_keeps_exactly_the_matching_rows_in_order() {
    let rows = raw(&["a", "b", "a", "c", "a"]);
    let resp = build_response(&rows, &langs(&["tsx"]), Some("a"), None);
    assert_eq!(resp.selected, vec![0, 2, 4]);
    assert_eq!(resp.count, 3);
    let all = build_response(&rows, &langs(&["tsx"]), None, None);
    assert_eq!(all.selected, vec![0, 1, 2, 3, 4]);
    // The inventory is the same whatever the filter.
    let counts = |r: &repo_graph_daemon_runtime::inferences_serve::InferencesResponse| {
        r.detectors.iter().map(|d| (d.applicable, d.count)).collect::<Vec<_>>()
    };
    assert_eq!(counts(&resp), counts(&all));
}

#[test]
fn record_location_surfaces_a_malformed_value() {
    let key = "repo_01abc:web/src/util.ts#useThing:SYMBOL:FUNCTION";
    let ok = record_location(key, Ok(Some(7)));
    assert_eq!(ok.file.as_deref(), Some("web/src/util.ts"));
    assert_eq!(ok.line, Some(7));
    assert_eq!(ok.value_error, None);

    let no_line = record_location("repo_01abc:src/main/java/App.java#AppConfig:SYMBOL:CLASS", Ok(None));
    assert_eq!(no_line.file.as_deref(), Some("src/main/java/App.java"));
    assert_eq!(no_line.line, None);
    assert_eq!(no_line.value_error, None);

    let bad = record_location(key, Err("expected value at line 1 column 1".to_string()));
    assert_eq!(bad.file.as_deref(), Some("web/src/util.ts"));
    assert_eq!(bad.line, None);
    assert_eq!(bad.value_error.as_deref(), Some("expected value at line 1 column 1"));
}
