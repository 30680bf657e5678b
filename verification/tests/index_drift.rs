use std::collections::BTreeSet;

use repo_graph_daemon_runtime::index_drift::{
    basis_none_state, basis_outcome_from_probe, cap_modules, classify_changed, classify_for_drift,
    classify_head_failure, drift_after_diff, drift_gate, drifted, git_reason, module_of,
    partition_changed, references_missing_revision, sort_roots, unresolved_repo_drift,
    BasisOutcome, CandidateLine, DriftClass, DriftGate, IndexDrift, MODULE_NAME_CAP,
};

fn s(v: &[&str]) -> Vec<String> {
    v.iter().map(|x| x.to_string()).collect()
}

#[test]
fn module_of_matches_on_path_boundary() {
    let roots = sort_roots(&s(&["src/http", "src"]));
    assert_eq!(
        module_of("src/http/handler.ts", &roots).as_deref(),
        Some("src/http"),
        "most-specific root wins"
    );
    assert_eq!(
        module_of("src/main.ts", &roots).as_deref(),
        Some("src"),
        "falls back to the containing root"
    );
    assert_eq!(module_of("lib/x.ts", &roots), None, "no root owns it → no module");
}

#[test]
fn module_of_no_false_prefix() {
    let roots = s(&["src/a"]);
    assert_eq!(module_of("src/ab.ts", &roots), None);
    assert_eq!(module_of("src/a", &roots).as_deref(), Some("src/a"));
    assert_eq!(module_of("src/a/b.ts", &roots).as_deref(), Some("src/a"));
}

#[test]
fn cap_modules_folds_overflow() {
    let mut set = BTreeSet::new();
    for i in 0..(MODULE_NAME_CAP + 3) {
        set.insert(format!("m{i:02}"));
    }
    let out = cap_modules(set.into_iter().collect());
    assert_eq!(out.len(), MODULE_NAME_CAP + 1);
    assert_eq!(out.last().unwrap(), "+3 more");
    assert_eq!(out[0], "m00");
    assert_eq!(cap_modules(s(&["a", "b"])), s(&["a", "b"]));
}

#[test]
fn sort_roots_longest_first_then_ascending() {
    assert_eq!(
        sort_roots(&s(&["src", "lib/b", "src/http", "lib/a", "x"])),
        s(&["src/http", "lib/a", "lib/b", "src", "x"])
    );
}

#[test]
fn classify_changed_counts_indexed_and_folds_modules() {
    let paths = s(&["src/http/a.ts", "src/b.ts", "README.md", "src/http/c.ts", "other/d.ts"]);
    let indexed = vec![true, true, false, true, true];
    let (k, modules) = classify_changed(&paths, &indexed, &s(&["src", "src/http"]));
    assert_eq!(k, 4);
    assert_eq!(modules, s(&["src", "src/http"]));
}

#[test]
fn basis_none_state_maps_recorded_record_never_reprobes() {
    match basis_none_state(Ok(Some(BasisOutcome::Failure {
        reason: "repository has no commits yet".to_string(),
    }))) {
        IndexDrift::Unknown { basis, reason } => {
            assert_eq!(basis, None);
            assert_eq!(reason, "repository has no commits yet");
        }
        _ => panic!("expected Unknown"),
    }
    assert!(matches!(basis_none_state(Ok(Some(BasisOutcome::NonGit))), IndexDrift::NotGit));
    assert!(matches!(basis_none_state(Ok(None)), IndexDrift::BasisUnknown));
    match basis_none_state(Ok(Some(BasisOutcome::Basis { commit: "abc".to_string() }))) {
        IndexDrift::Unknown { reason, .. } => assert!(reason.contains("inconsistent index-basis record")),
        _ => panic!("expected Unknown for an inconsistent record"),
    }
    match basis_none_state(Err("extraction diagnostics unreadable (locked)".to_string())) {
        IndexDrift::Unknown { basis, reason } => {
            assert_eq!(basis, None);
            assert!(reason.contains("unreadable"));
        }
        _ => panic!("expected Unknown"),
    }
}

#[test]
fn basis_outcome_from_probe_classifies_non_failing_arms() {
    match basis_outcome_from_probe(Ok(Some("deadbeef".to_string())), None) {
        b @ BasisOutcome::Basis { .. } => assert_eq!(b.basis_commit().as_deref(), Some("deadbeef")),
        _ => panic!("expected Basis"),
    }
    let non_git = basis_outcome_from_probe(Ok(None), None);
    assert!(matches!(non_git, BasisOutcome::NonGit));
    assert_eq!(non_git.basis_commit(), None);
}

#[test]
fn classify_head_failure_claims_unborn_only_on_positive_probe() {
    let head_err = "git rev-parse HEAD failed: fatal: ambiguous argument 'HEAD': unknown revision";
    match classify_head_failure(head_err, Some(true)) {
        BasisOutcome::Failure { reason } => assert_eq!(reason, "repository has no commits yet"),
        _ => panic!(),
    }
    for probe in [Some(false), None] {
        match classify_head_failure(head_err, probe) {
            BasisOutcome::Failure { reason } => {
                assert!(reason.contains("git HEAD unreadable at index time"));
                assert!(reason.contains("unknown revision"));
                assert_ne!(reason, "repository has no commits yet");
            }
            _ => panic!(),
        }
    }
}

#[test]
fn unresolved_repo_is_unknown_with_reason_never_basis_unknown() {
    match unresolved_repo_drift(None, "repo metadata not found in storage".to_string()) {
        IndexDrift::Unknown { basis, reason } => {
            assert_eq!(basis, None);
            assert!(reason.contains("not found in storage"));
        }
        _ => panic!("expected Unknown"),
    }
    match unresolved_repo_drift(Some("abc123def456".to_string()), "database is locked".to_string()) {
        IndexDrift::Unknown { basis, reason } => {
            assert_eq!(basis.as_deref(), Some("abc123def456"));
            assert!(reason.contains("database is locked"));
        }
        _ => panic!("expected Unknown"),
    }
    assert!(matches!(
        unresolved_repo_drift(Some(String::new()), "x".to_string()),
        IndexDrift::Unknown { basis: None, .. }
    ));
}

#[test]
fn git_reason_only_attributes_missing_revision_to_rewritten_basis() {
    let missing = git_reason(
        Some("fatal: ambiguous argument 'deadbeef..HEAD': unknown revision or path not in the working tree."),
        "git rev-list failed",
    );
    assert!(missing.contains("history may have been rewritten"));
    let unrelated = git_reason(
        Some("fatal: Unable to create '/repo/.git/index.lock': File exists."),
        "git status --porcelain -z failed (exit 128): index.lock",
    );
    assert!(!unrelated.contains("history may have been rewritten"));
    assert!(unrelated.contains("git status --porcelain -z") && unrelated.contains("index.lock"));
    assert_eq!(git_reason(None, "io error"), "io error");
    assert!(references_missing_revision("error: bad object 1234"));
    assert!(!references_missing_revision("permission denied"));
}

#[test]
fn drift_steps() {
    assert!(matches!(drift_gate(Ok(false), Some("abc")), DriftGate::Settled(IndexDrift::NotGit)));
    match drift_gate(Err("spawn failed".to_string()), Some("abc")) {
        DriftGate::Settled(IndexDrift::Unknown { basis, reason }) => {
            assert_eq!(basis.as_deref(), Some("abc"));
            assert_eq!(reason, "git could not be probed (spawn failed)");
        }
        _ => panic!(),
    }
    assert!(matches!(drift_gate(Ok(true), Some("")), DriftGate::NoBasis));
    assert!(matches!(drift_gate(Ok(true), None), DriftGate::NoBasis));
    match drift_gate(Ok(true), Some("abc")) {
        DriftGate::Proceed(b) => assert_eq!(b, "abc"),
        _ => panic!(),
    }
    assert!(matches!(drift_after_diff("abc", Ok((0, 0))), Some(IndexDrift::Clean { .. })));
    assert!(drift_after_diff("abc", Ok((1, 0))).is_none());
    assert!(matches!(drift_after_diff("abc", Err("gone".to_string())), Some(IndexDrift::Unknown { .. })));
    match drifted("abc", 2, 3, 1, 0, Ok((2, s(&["src"])))) {
        IndexDrift::Drifted { commits_ahead, files_changed, indexed_changed, modules, excluded, .. } => {
            assert_eq!((commits_ahead, files_changed, indexed_changed, excluded), (2, 3, 2, 1));
            assert_eq!(modules, s(&["src"]));
        }
        _ => panic!(),
    }
    assert!(matches!(drifted("abc", 2, 3, 1, 0, Err("module read failed".to_string())), IndexDrift::Unknown { .. }));
}

#[test]
fn drift_classification_and_partition() {
    assert_eq!(classify_for_drift(true, true, CandidateLine::Unreadable), DriftClass::Excluded);
    assert_eq!(classify_for_drift(false, false, CandidateLine::Unreadable), DriftClass::Reader);
    assert_eq!(
        classify_for_drift(false, true, CandidateLine::Line { self_generated: true }),
        DriftClass::Excluded
    );
    assert_eq!(
        classify_for_drift(false, true, CandidateLine::Line { self_generated: false }),
        DriftClass::Reader
    );
    assert_eq!(classify_for_drift(false, true, CandidateLine::Absent), DriftClass::Reader);
    assert_eq!(classify_for_drift(false, true, CandidateLine::Unreadable), DriftClass::UnreadableReader);
    let (readers, excluded, unreadable) = partition_changed(
        &s(&["a", ".DS_Store", "map.md"]),
        &vec![DriftClass::Reader, DriftClass::Excluded, DriftClass::UnreadableReader],
    );
    assert_eq!(readers, s(&["a", "map.md"]));
    assert_eq!((excluded, unreadable), (1, 1));
}

#[test]
fn the_most_specific_owning_root_wins_whatever_the_declaration_order() {
    for declared in [s(&["a", "a/b", "a/b/c"]), s(&["a/b/c", "a", "a/b"]), s(&["a/b", "a/b/c", "a"])] {
        let roots = sort_roots(&declared);
        assert_eq!(module_of("a/b/c/x.ts", &roots).as_deref(), Some("a/b/c"));
        assert_eq!(module_of("a/b/y.ts", &roots).as_deref(), Some("a/b"));
        assert_eq!(module_of("a/bc/y.ts", &roots).as_deref(), Some("a"));
        assert_eq!(module_of("b/y.ts", &roots), None);
    }
}

#[test]
fn every_changed_path_is_the_readers_or_excluded() {
    let paths = s(&["a", "b", ".rgr/x", "MAP.md", "c", "d"]);
    let classes = vec![
        DriftClass::Reader,
        DriftClass::UnreadableReader,
        DriftClass::Excluded,
        DriftClass::Excluded,
        DriftClass::UnreadableReader,
        DriftClass::Reader,
    ];
    let (readers, excluded, unreadable) = partition_changed(&paths, &classes);
    assert_eq!(readers.len() as u64 + excluded, paths.len() as u64);
    assert!(unreadable <= readers.len() as u64);
    assert_eq!(readers, s(&["a", "b", "c", "d"]));
}
