use repo_graph_daemon_runtime::livegraph_feed::{
    auto_outcome, cert_eligibility, cert_is_stale, compare_keys, compare_path,
    cycles_fastpath_choice, directional_status, epoch_eligible, file_display, import_cert_fingerprint,
    imports_auto_decision, imports_compare_sidecar, imports_use_fastpath, key_name,
    precondition_fallback_reason, repo_relative_prefix, stats_fastpath_choice, stored_verdict,
    ts_only, AnswerClass, CycleNoLossCert, Engine, FallbackReason, FilePartitionStatus,
    FreshnessState, ImportNoLossCert, ImportRow, LanguageSupport, LgAuto, LivePartition,
    ServeChoice, StatsNoLossCert,
};

const MET: FilePartitionStatus = FilePartitionStatus { fresh: true, ts_primary: true, precondition_met: true };

fn row(target: &str, resolution: &str) -> ImportRow {
    ImportRow {
        source_file: "a.ts".to_string(),
        target_file: target.to_string(),
        kind: "FILE".to_string(),
        subtype: Some("SOURCE".to_string()),
        resolution: Some(resolution.to_string()),
    }
}

fn s(v: &[&str]) -> Vec<String> {
    v.iter().map(|x| x.to_string()).collect()
}

#[test]
fn engine_parse_defaults_to_auto() {
    assert_eq!(Engine::parse(None), Engine::Auto);
    assert_eq!(Engine::parse(Some("sqlite")), Engine::Sqlite);
    assert_eq!(Engine::parse(Some("livegraph")), Engine::LiveGraph);
    assert_eq!(Engine::parse(Some("compare")), Engine::Compare);
    assert_eq!(Engine::parse(Some("auto")), Engine::Auto);
    assert_eq!(Engine::parse(Some("SQLITE")), Engine::Auto);
}

#[test]
fn fallback_reasons_render_their_names() {
    assert_eq!(FallbackReason::LiveGraphUnavailable.as_str(), "LiveGraphUnavailable");
    assert_eq!(FallbackReason::LiveGraphStale.as_str(), "LiveGraphStale");
    assert_eq!(FallbackReason::LiveGraphCycleDivergence.as_str(), "LiveGraphCycleDivergence");
    assert_eq!(
        FallbackReason::LiveGraphDisplayMetadataUnavailable.as_str(),
        "LiveGraphDisplayMetadataUnavailable"
    );
    assert_eq!(
        FallbackReason::LiveGraphBoundedServeDeclined.as_str(),
        "LiveGraphBoundedServeDeclined"
    );
}

#[test]
fn repo_relative_prefix_cases() {
    assert_eq!(repo_relative_prefix("/repo", "/repo/packages/a"), "packages/a");
    assert_eq!(repo_relative_prefix("/repo", "/repo"), "");
    assert_eq!(repo_relative_prefix("/repo/", "/repo/x/"), "x");
    assert_eq!(repo_relative_prefix("/repo", "/repository/x"), "");
    assert_eq!(repo_relative_prefix("/repo", "/other/x"), "");
    assert_eq!(repo_relative_prefix("/", "/a/b"), "a/b");
    assert_eq!(repo_relative_prefix("/repo", "/repo/a\\b"), "a/b");
}

#[test]
fn auto_outcome_order_of_checks() {
    let lg = |class, freshness, ts| LgAuto { class, freshness, ts_only: ts, keys: s(&["k"]) };
    assert_eq!(auto_outcome(None).unwrap_err(), FallbackReason::LiveGraphUnavailable);
    assert_eq!(
        auto_outcome(Some(lg(AnswerClass::Partial, FreshnessState::Stale, false))).unwrap_err(),
        FallbackReason::LiveGraphStale
    );
    assert_eq!(
        auto_outcome(Some(lg(AnswerClass::Partial, FreshnessState::Fresh, true))).unwrap_err(),
        FallbackReason::LiveGraphPartial
    );
    assert_eq!(
        auto_outcome(Some(lg(AnswerClass::Exact, FreshnessState::Fresh, false))).unwrap_err(),
        FallbackReason::LiveGraphUnsupportedLanguage
    );
    assert_eq!(
        auto_outcome(Some(lg(AnswerClass::Exact, FreshnessState::Fresh, true))).unwrap(),
        s(&["k"])
    );
    assert!(ts_only(&vec![LanguageSupport::TypeScriptPrimary]));
    assert!(!ts_only(&vec![]));
    assert!(!ts_only(&vec![LanguageSupport::TypeScriptPrimary, LanguageSupport::Other]));
}

#[test]
fn compare_keys_buckets_missing_and_extra() {
    let sqlite = s(&["a", "b"]);
    let lg = Some((AnswerClass::Exact, s(&["b", "c"])));
    let r = compare_keys("sym", "callers", &sqlite, lg);
    assert_eq!(r.sqlite_count, 2);
    assert_eq!(r.livegraph_count, 2);
    assert_eq!(r.missing_in_livegraph, vec!["a".to_string()]);
    assert_eq!(r.extra_in_livegraph, vec!["c".to_string()]);
    assert!(!r.partition_unavailable);
    assert!(r.trust_class_mismatch.is_empty());
}

#[test]
fn compare_keys_partition_unavailable_when_no_livegraph() {
    let r = compare_keys("sym", "callers", &s(&["a"]), None);
    assert!(r.partition_unavailable);
    assert_eq!(r.livegraph_count, 0);
    assert_eq!(r.livegraph_class, "Unavailable");
}

#[test]
fn compare_keys_trust_class_mismatch_when_not_exact() {
    let lg = Some((AnswerClass::Partial, s(&["a"])));
    let r = compare_keys("sym", "callers", &s(&["a"]), lg);
    assert_eq!(r.trust_class_mismatch, s(&["livegraph_class=Partial"]));
    assert_eq!(r.livegraph_class, "Partial");
}

#[test]
fn compare_keys_sorted_without_repeats() {
    let lg = Some((AnswerClass::Exact, s(&["z", "y", "z"])));
    let r = compare_keys("sym", "callees", &s(&["d", "a", "d", "y"]), lg);
    assert_eq!(r.missing_in_livegraph, s(&["a", "d"]));
    assert_eq!(r.extra_in_livegraph, s(&["z"]));
    assert_eq!(r.sqlite_count, 4);
    assert_eq!(r.livegraph_count, 3);
}

#[test]
fn key_name_and_file_display() {
    assert_eq!(key_name("repo:src/a.ts#report:SYMBOL:FUNCTION"), "report");
    assert_eq!(key_name("repo:src/a.ts#report"), "report");
    assert_eq!(key_name("repo:src/a.ts"), "repo:src/a.ts");
    assert_eq!(file_display("repo_1:src/a.ts:FILE"), "src/a.ts");
    assert_eq!(file_display("repo_1:src/a.ts"), "src/a.ts");
    assert_eq!(file_display("plain"), "plain");
}

#[test]
fn compare_path_buckets() {
    let none = compare_path("a", "b", true, s(&["a", "b"]), None);
    assert_eq!(none.buckets, s(&["PartitionUnavailable"]));
    assert!(none.partition_unavailable);
    let same = compare_path(
        "a",
        "b",
        true,
        s(&["a", "b"]),
        Some((AnswerClass::Exact, FreshnessState::Fresh, true, s(&["a", "b"]))),
    );
    assert!(same.buckets.is_empty());
    let diff = compare_path(
        "a",
        "b",
        true,
        s(&["a", "x", "b"]),
        Some((AnswerClass::Partial, FreshnessState::Fresh, true, s(&["a", "b"]))),
    );
    assert_eq!(diff.buckets, s(&["LiveGraphPartial", "DifferentPath"]));
    let only_sql = compare_path(
        "a",
        "b",
        true,
        s(&["a", "b"]),
        Some((AnswerClass::Unavailable, FreshnessState::Stale, false, vec![])),
    );
    assert_eq!(only_sql.buckets, s(&["TrustClassMismatch", "PathOnlyInSqlite"]));
    assert_eq!(only_sql.livegraph_class, "Unavailable");
}

#[test]
fn directional_status_gates_on_the_precondition() {
    assert_eq!(directional_status(false, true, true), "FallbackPreconditionUnmet");
    assert_eq!(directional_status(true, true, true), "Regression");
    assert_eq!(directional_status(true, false, true), "NoLossLivegraphSuperset");
    assert_eq!(directional_status(true, false, false), "NoLossEquivalent");
}

#[test]
fn precondition_fallback_reasons() {
    assert_eq!(precondition_fallback_reason(None), FallbackReason::LiveGraphUnavailable);
    let stale = FilePartitionStatus { fresh: false, ts_primary: true, precondition_met: false };
    assert_eq!(precondition_fallback_reason(Some(stale)), FallbackReason::LiveGraphStale);
    let non_ts = FilePartitionStatus { fresh: true, ts_primary: false, precondition_met: false };
    assert_eq!(
        precondition_fallback_reason(Some(non_ts)),
        FallbackReason::LiveGraphUnsupportedLanguage
    );
}

#[test]
fn imports_compare_sidecar_directional_verdicts() {
    let sq = s(&["app/src/y.ts"]);
    let r = imports_compare_sidecar(&sq, &s(&["app/src/y.ts"]), Some(MET));
    assert_eq!(r.status, "NoLossEquivalent");
    assert_eq!(r.matched, s(&["app/src/y.ts"]));
    assert!(r.missing_in_livegraph.is_empty());
    let r2 = imports_compare_sidecar(&sq, &s(&["app/src/y.ts", "app/src/z.ts"]), Some(MET));
    assert_eq!(r2.status, "NoLossLivegraphSuperset");
    assert_eq!(r2.extra_edges, vec![1]);
    let r3 = imports_compare_sidecar(&sq, &vec![], Some(MET));
    assert_eq!(r3.status, "Regression");
    assert_eq!(r3.missing_in_livegraph, s(&["app/src/y.ts"]));
    let r4 = imports_compare_sidecar(&sq, &vec![], None);
    assert_eq!(r4.status, "FallbackPreconditionUnmet");
}

#[test]
fn imports_auto_body_serves_livegraph_or_falls_back() {
    let sqlite = vec![row("b.ts", "static")];
    let edges = s(&["b.ts", "c.ts"]);
    let r = imports_auto_decision(&sqlite, &edges, Some(MET));
    assert_eq!(r.fallback_reason, None);
    assert_eq!(r.livegraph_edges, 2);
    assert_eq!(r.extra_livegraph_edges, 1);
    let r2 = imports_auto_decision(&sqlite, &edges, None);
    assert_eq!(r2.fallback_reason, Some(FallbackReason::LiveGraphUnavailable));
    let r3 = imports_auto_decision(&sqlite, &s(&["c.ts"]), Some(MET));
    assert_eq!(r3.fallback_reason, Some(FallbackReason::LiveGraphImportRegression));
    assert_eq!(r3.missing_in_livegraph, 1);
    let unknown = vec![row("b.ts", "unresolved")];
    let r4 = imports_auto_decision(&unknown, &edges, Some(MET));
    assert_eq!(r4.fallback_reason, Some(FallbackReason::LiveGraphImportUnknown));
    let stale = FilePartitionStatus { fresh: false, ts_primary: true, precondition_met: false };
    let r5 = imports_auto_decision(&sqlite, &edges, Some(stale));
    assert_eq!(r5.fallback_reason, Some(FallbackReason::LiveGraphStale));
}

#[test]
fn imports_auto_external_rows_are_excluded() {
    let mut ext = row("lodash", "static");
    ext.subtype = Some("EXTERNAL".to_string());
    let r = imports_auto_decision(&vec![ext], &vec![], Some(MET));
    assert_eq!(r.fallback_reason, None);
    assert_eq!(r.sqlite_resolved_local, 0);
}

#[test]
fn imports_fastpath_ladder() {
    assert!(imports_use_fastpath(Some(MET), true));
    assert!(!imports_use_fastpath(Some(MET), false));
    assert!(!imports_use_fastpath(None, true));
}

#[test]
fn cycles_fastpath_eligible_serves_livegraph_without_sqlite() {
    assert_eq!(
        cycles_fastpath_choice(true, FallbackReason::LiveGraphUnavailable, true),
        ServeChoice::LiveGraph
    );
}

#[test]
fn cycles_fastpath_not_eligible_falls_back_to_sqlite() {
    assert_eq!(
        cycles_fastpath_choice(true, FallbackReason::LiveGraphUnavailable, false),
        ServeChoice::Sqlite(FallbackReason::LiveGraphCycleDivergence)
    );
}

#[test]
fn cycles_fastpath_precondition_unmet_falls_back_with_reason() {
    assert_eq!(
        cycles_fastpath_choice(false, FallbackReason::LiveGraphPartial, true),
        ServeChoice::Sqlite(FallbackReason::LiveGraphPartial)
    );
}

#[test]
fn stats_fastpath_ladder() {
    assert_eq!(stats_fastpath_choice(true, FallbackReason::LiveGraphUnavailable, true), ServeChoice::LiveGraph);
    assert_eq!(
        stats_fastpath_choice(true, FallbackReason::LiveGraphUnavailable, false),
        ServeChoice::Sqlite(FallbackReason::LiveGraphStatsDivergence)
    );
    assert_eq!(
        stats_fastpath_choice(false, FallbackReason::LiveGraphStale, true),
        ServeChoice::Sqlite(FallbackReason::LiveGraphStale)
    );
}

fn partition(id: &str, epoch: u64) -> LivePartition {
    LivePartition {
        id: id.to_string(),
        epoch,
        fresh: true,
        ts: true,
        source_inputs_hash: "h".to_string(),
        producer_fingerprint: "scip-typescript@0.4.0".to_string(),
    }
}

#[test]
fn cert_fingerprint_is_sorted_and_epoch_sensitive() {
    let fp = import_cert_fingerprint(&vec![partition("p", 3), partition("a", 12)], "snap_1", "2");
    assert_eq!(
        fp,
        "imp|snap:snap_1|pol:2|parts[a@12:f1:ts1:h:scip-typescript@0.4.0,p@3:f1:ts1:h:scip-typescript@0.4.0]"
    );
    let swapped = import_cert_fingerprint(&vec![partition("a", 12), partition("p", 3)], "snap_1", "2");
    assert_eq!(fp, swapped, "partition order does not matter");
    let bumped = import_cert_fingerprint(&vec![partition("p", 4), partition("a", 12)], "snap_1", "2");
    assert_ne!(fp, bumped, "an epoch bump moves the fingerprint");
    let mut stale = partition("x", 0);
    stale.fresh = false;
    stale.ts = false;
    assert_eq!(
        import_cert_fingerprint(&vec![stale], "s", "p"),
        "imp|snap:s|pol:p|parts[x@0:f0:ts0:h:scip-typescript@0.4.0]"
    );
    assert_eq!(import_cert_fingerprint(&vec![], "s", "p"), "imp|snap:s|pol:p|parts[]");
}

#[test]
fn callgraph_eligibility_none_on_red_and_without_livegraph() {
    let red = ImportNoLossCert { verdict: "RED".to_string(), fingerprint: "fp".to_string() };
    assert!(cert_eligibility(Some(red.key()), Some("fp".to_string())).is_none());
    let green = ImportNoLossCert { verdict: "GREEN".to_string(), fingerprint: "fp".to_string() };
    assert!(cert_eligibility(Some(green.key()), None).is_none());
}

#[test]
fn bounded_eligibility_some_iff_bounded_cert_green() {
    let green = CycleNoLossCert {
        verdict: "GREEN".to_string(),
        values_verdict: "RED".to_string(),
        fingerprint: "fp".to_string(),
    };
    assert_eq!(
        cert_eligibility(Some(green.key()), Some("fp".to_string())),
        Some("fp".to_string()),
        "eligibility.is_some() is the SAME serve decision as the prior bool gate"
    );
    assert!(cert_eligibility(Some(green.key()), Some("fp2".to_string())).is_none());
    assert!(cert_eligibility(None, Some("fp".to_string())).is_none());
    assert!(cert_eligibility(Some(green.key()), None).is_none());
    let yellow = StatsNoLossCert { verdict: "YELLOW".to_string(), fingerprint: "fp".to_string() };
    assert!(cert_eligibility(Some(yellow.key()), Some("fp".to_string())).is_none());
}

#[test]
fn cert_staleness_and_epoch_gate() {
    let c = ImportNoLossCert { verdict: "RED".to_string(), fingerprint: "fp".to_string() };
    assert!(!cert_is_stale(Some(c.key()), "fp"));
    assert!(cert_is_stale(Some(c.key()), "fp2"));
    assert!(cert_is_stale(None, "fp"));
    assert!(epoch_eligible(&Some("fp".to_string()), &Some("fp".to_string())));
    assert!(!epoch_eligible(&Some("fp".to_string()), &Some("x".to_string())));
    assert!(!epoch_eligible(&None, &None));
    assert_eq!(stored_verdict(Some("GREEN")), "GREEN");
    assert_eq!(stored_verdict(None), "RED");
}

#[test]
fn compare_keys_reports_exact_set_differences() {
    // Same keys, different order and repeats: nothing missing, nothing extra.
    let same = compare_keys("f", "callees", &s(&["b", "a", "b"]), Some((AnswerClass::Exact, s(&["a", "b"]))));
    assert!(same.missing_in_livegraph.is_empty());
    assert!(same.extra_in_livegraph.is_empty());
    // A key is never both missing and extra.
    let r = compare_keys("f", "callees", &s(&["x", "y", "z"]), Some((AnswerClass::Exact, s(&["z", "w", "w"]))));
    assert_eq!(r.missing_in_livegraph, s(&["x", "y"]));
    assert_eq!(r.extra_in_livegraph, s(&["w"]));
    for k in &r.missing_in_livegraph {
        assert!(!r.extra_in_livegraph.contains(k));
    }
}

#[test]
fn stats_fastpath_eligible_serves_livegraph_without_sqlite() {
    assert_eq!(
        stats_fastpath_choice(true, FallbackReason::LiveGraphUnavailable, true),
        ServeChoice::LiveGraph
    );
}

#[test]
fn stats_fastpath_not_eligible_falls_back_to_sqlite() {
    let choice = stats_fastpath_choice(true, FallbackReason::LiveGraphUnavailable, false);
    assert_eq!(choice, ServeChoice::Sqlite(FallbackReason::LiveGraphStatsDivergence));
    match choice {
        ServeChoice::Sqlite(r) => assert_eq!(r.as_str(), "LiveGraphStatsDivergence"),
        ServeChoice::LiveGraph => panic!("must not serve LiveGraph when the epoch is not eligible"),
    }
}

#[test]
fn stats_fastpath_precondition_unmet_falls_back_with_reason() {
    let choice = stats_fastpath_choice(false, FallbackReason::LiveGraphPartial, true);
    match choice {
        ServeChoice::Sqlite(r) => assert_eq!(r.as_str(), "LiveGraphPartial"),
        ServeChoice::LiveGraph => panic!("must not serve LiveGraph when the precondition is unmet"),
    }
}

/// The resident fingerprint before and after a swap that bumps one epoch.
fn resident_fps() -> (String, String) {
    let before = import_cert_fingerprint(&vec![partition("web", 1), partition("api", 4)], "snap_9", "1");
    let after = import_cert_fingerprint(&vec![partition("web", 2), partition("api", 4)], "snap_9", "1");
    (before, after)
}

#[test]
fn import_cert_eligibility_is_some_only_on_green_at_the_exact_resident_fingerprint() {
    let (resident, swapped) = resident_fps();
    let yellow = ImportNoLossCert { verdict: "YELLOW".to_string(), fingerprint: resident.clone() };
    assert!(cert_eligibility(Some(yellow.key()), Some(resident.clone())).is_none());
    let green = ImportNoLossCert { verdict: "GREEN".to_string(), fingerprint: resident.clone() };
    assert_eq!(cert_eligibility(Some(green.key()), Some(resident.clone())), Some(resident.clone()));
    assert!(
        cert_eligibility(Some(green.key()), Some(swapped)).is_none(),
        "after a swap the witness is None, never the stale pre-swap fingerprint"
    );
}

#[test]
fn stats_cert_eligibility_is_the_exact_resident_fingerprint_on_green() {
    let (resident, swapped) = resident_fps();
    let green = StatsNoLossCert { verdict: "GREEN".to_string(), fingerprint: resident.clone() };
    assert_eq!(cert_eligibility(Some(green.key()), Some(resident.clone())), Some(resident.clone()));
    assert_ne!(
        cert_eligibility(Some(green.key()), Some(swapped)).as_deref(),
        Some(resident.as_str())
    );
    assert!(cert_eligibility(Some(green.key()), None).is_none(), "no resident LiveGraph");
}

#[test]
fn cycles_cert_eligibility_is_the_exact_resident_fingerprint_on_green() {
    let (resident, swapped) = resident_fps();
    let green = CycleNoLossCert {
        verdict: "GREEN".to_string(),
        values_verdict: "GREEN".to_string(),
        fingerprint: resident.clone(),
    };
    assert_eq!(cert_eligibility(Some(green.key()), Some(resident.clone())), Some(resident.clone()));
    assert!(cert_eligibility(Some(green.key()), Some(swapped)).is_none());
}

#[test]
fn repo_relative_prefix_skips_dot_components() {
    assert_eq!(repo_relative_prefix("/repo", "/repo/./a"), "a");
    assert_eq!(repo_relative_prefix("/repo/.", "/repo/pkg/web"), "pkg/web");
    assert_eq!(repo_relative_prefix("/repo", "/repo/./"), "");
    assert_eq!(repo_relative_prefix("/repo", "/other/./a"), "");
}

#[test]
fn fallback_reason_strings_are_distinct() {
    let all = [
        FallbackReason::LiveGraphUnavailable,
        FallbackReason::LiveGraphPartial,
        FallbackReason::LiveGraphStale,
        FallbackReason::LiveGraphUnsupportedLanguage,
        FallbackReason::LiveGraphRenderUnsupported,
        FallbackReason::LiveGraphDisplayMetadataUnavailable,
        FallbackReason::LiveGraphError,
        FallbackReason::LiveGraphImportRegression,
        FallbackReason::LiveGraphImportUnknown,
        FallbackReason::LiveGraphCycleDivergence,
        FallbackReason::LiveGraphStatsDivergence,
        FallbackReason::LiveGraphComplexityDivergence,
        FallbackReason::LiveGraphCallgraphDivergence,
        FallbackReason::LiveGraphBoundedServeDeclined,
    ];
    for (i, a) in all.iter().enumerate() {
        assert_eq!(a.as_str(), format!("{:?}", a));
        for b in all.iter().skip(i + 1) {
            assert_ne!(a.as_str(), b.as_str());
        }
    }
}
