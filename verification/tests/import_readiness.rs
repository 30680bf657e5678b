use repo_graph_daemon_runtime::import_readiness::{
    aggregate_readiness, ImportObservation, ReadinessVerdict,
};
use repo_graph_daemon_runtime::livegraph_feed::{FilePartitionStatus, ImportRow};

fn row(src: &str, tgt: &str, res: &str) -> ImportRow {
    ImportRow {
        source_file: src.to_string(),
        target_file: tgt.to_string(),
        kind: "FILE".to_string(),
        subtype: Some("SOURCE".to_string()),
        resolution: Some(res.to_string()),
    }
}

fn edge(src: &str, dst: &str) -> (String, String) {
    (src.to_string(), dst.to_string())
}

fn met(files: &[&str]) -> Vec<(String, FilePartitionStatus)> {
    files
        .iter()
        .map(|f| {
            (
                f.to_string(),
                FilePartitionStatus { fresh: true, ts_primary: true, precondition_met: true },
            )
        })
        .collect()
}

#[test]
fn aggregate_readiness_verdicts() {
    let bulk = vec![row("a.ts", "b.ts", "static")];
    let r = aggregate_readiness(&bulk, &vec![edge("a.ts", "b.ts")], &vec![], &met(&["a.ts"]));
    assert_eq!(r.verdict.as_str(), "GREEN");
    assert_eq!(r.files_precondition_met, 1);
    assert_eq!(r.files_regression, 0);
    let r2 = aggregate_readiness(&bulk, &vec![], &vec![], &met(&["a.ts"]));
    assert_eq!(r2.verdict.as_str(), "RED");
    assert_eq!(r2.files_regression, 1);
    assert_eq!(r2.missing_in_livegraph_total, 1);
    let r3 = aggregate_readiness(&bulk, &vec![], &vec![], &vec![]);
    assert_eq!(r3.verdict.as_str(), "YELLOW");
    assert_eq!(r3.files_fallback_required, 1);
    assert_eq!(r3.files_regression, 0);
    let bulk_unknown = vec![row("a.ts", "b.ts", "unresolved")];
    let r4 = aggregate_readiness(&bulk_unknown, &vec![], &vec![], &met(&["a.ts"]));
    assert_eq!(r4.verdict.as_str(), "RED");
    assert_eq!(r4.unknown_total, 1);
    assert_eq!(
        r4.unknowns,
        vec![("a.ts".to_string(), "b.ts".to_string(), "unresolved".to_string())]
    );
}

#[test]
fn readiness_metrics_over_the_union_of_files() {
    let bulk = vec![
        row("a.ts", "b.ts", "static"),
        row("a.ts", "b.ts", "static"),
        row("a.ts", "c.ts", "static"),
        row("d.ts", "b.ts", "static"),
    ];
    let edges = vec![edge("a.ts", "b.ts"), edge("a.ts", "x.ts"), edge("e.ts", "b.ts")];
    let obs = vec![
        ImportObservation { source_file: "f.ts".to_string(), class: "dynamic".to_string(), blocking: true },
        ImportObservation { source_file: "a.ts".to_string(), class: "alias".to_string(), blocking: true },
        ImportObservation { source_file: "a.ts".to_string(), class: "dynamic".to_string(), blocking: true },
        ImportObservation { source_file: "a.ts".to_string(), class: "note".to_string(), blocking: false },
    ];
    let r = aggregate_readiness(&bulk, &edges, &obs, &met(&["a.ts", "e.ts"]));
    assert_eq!(r.files_total, 4);
    assert_eq!(r.files_precondition_met, 2);
    assert_eq!(r.files_fallback_required, 2);
    assert_eq!(r.files_regression, 1);
    assert_eq!(r.missing_in_livegraph_total, 1);
    assert_eq!(r.extra_livegraph_edges_total, 2);
    assert_eq!(r.regressions, vec![("a.ts".to_string(), vec!["c.ts".to_string()])]);
    assert_eq!(r.blocking_observation_total, 3);
    assert_eq!(
        r.blocking_observation_by_class,
        vec![("alias".to_string(), 1), ("dynamic".to_string(), 2)]
    );
    assert_eq!(r.sqlite_import_bearing_files, 2);
    assert_eq!(r.livegraph_import_bearing_files, 3);
    assert!(!r.fallback_heavy);
    assert_eq!(r.verdict, ReadinessVerdict::Red);
}

#[test]
fn readiness_fallback_heavy_is_yellow() {
    let bulk = vec![row("a.ts", "b.ts", "static"), row("c.ts", "b.ts", "static"), row("d.ts", "b.ts", "static")];
    let edges = vec![edge("a.ts", "b.ts")];
    let r = aggregate_readiness(&bulk, &edges, &vec![], &met(&["a.ts"]));
    assert_eq!(r.files_fallback_required, 2);
    assert!(r.fallback_heavy);
    assert_eq!(r.verdict, ReadinessVerdict::Yellow);
    let empty = aggregate_readiness(&vec![], &vec![], &vec![], &vec![]);
    assert_eq!(empty.files_total, 0);
    assert!(!empty.fallback_heavy);
    assert_eq!(empty.verdict, ReadinessVerdict::Yellow, "serves no file");
}

#[test]
fn readiness_accounts_for_every_compared_file() {
    let bulk = vec![
        row("a.ts", "b.ts", "static"),
        row("a.ts", "c.ts", "static"),
        row("g.ts", "b.ts", "static"),
    ];
    let edges = vec![edge("a.ts", "b.ts"), edge("h.ts", "b.ts"), edge("h.ts", "q.ts")];
    let r = aggregate_readiness(&bulk, &edges, &vec![], &met(&["a.ts", "h.ts"]));
    assert_eq!(r.files_total, 3);
    assert_eq!(r.files_precondition_met + r.files_fallback_required, r.files_total);
    assert!(r.files_regression <= r.files_precondition_met);
    assert_eq!(r.regressions.len(), r.files_regression);
    assert!(r.missing_in_livegraph_total <= bulk.len());
    assert!(r.extra_livegraph_edges_total <= edges.len());
    assert_eq!(r.verdict, ReadinessVerdict::Red);
}
