use repo_graph_daemon_runtime::authority::{authority_write_check, sandbox_root, startup_mode};
use repo_graph_daemon_runtime::governance::{
    boundary_rules, invalid_fate_message, policy_kind, snapshot_not_ready, BoundaryRule, PolicyKind,
};

fn rule(m: &str, f: &str, r: Option<&str>) -> BoundaryRule {
    BoundaryRule { boundary_module: m.to_string(), forbids: f.to_string(), reason: r.map(str::to_string) }
}

#[test]
fn boundary_rules_dedup_first_reason_in_pair_order() {
    let decls = vec![
        rule("web", "db", Some("first")),
        rule("api", "web", None),
        rule("web", "db", Some("second")),
        rule("api", "db", Some("x")),
    ];
    let rules = boundary_rules(&decls);
    let got: Vec<(String, String, Option<String>)> = rules
        .into_iter()
        .map(|r| (r.boundary_module, r.forbids, r.reason))
        .collect();
    assert_eq!(
        got,
        vec![
            ("api".to_string(), "db".to_string(), Some("x".to_string())),
            ("api".to_string(), "web".to_string(), None),
            ("web".to_string(), "db".to_string(), Some("first".to_string())),
        ]
    );
    assert!(boundary_rules(&vec![]).is_empty());
}

#[test]
fn policy_kind_selection() {
    assert_eq!(policy_kind(None).unwrap(), PolicyKind::StatusMapping);
    assert_eq!(policy_kind(Some("behavioral_marker")).unwrap(), PolicyKind::BehavioralMarker);
    assert_eq!(policy_kind(Some("Return_Fate")).unwrap(), PolicyKind::ReturnFate);
    assert_eq!(
        policy_kind(Some("bogus")).unwrap_err(),
        "unsupported policy kind: BOGUS (supported: STATUS_MAPPING, BEHAVIORAL_MARKER, RETURN_FATE)"
    );
    assert_eq!(
        invalid_fate_message("lost"),
        "invalid fate kind: lost (supported: IGNORED, CHECKED, PROPAGATED, TRANSFORMED, STORED)"
    );
    assert_eq!(snapshot_not_ready("building"), "latest snapshot is not ready (status: building)");
}

#[test]
fn authority_writes_need_global_mode() {
    assert!(authority_write_check(false, "mark_baseline", "/home/u/.rgr").is_ok());
    assert_eq!(
        authority_write_check(true, "repo_alias", "/private/tmp/repo-graph-agent/501").unwrap_err(),
        "cannot modify authority data in sandbox mode: repo_alias (state root: /private/tmp/repo-graph-agent/501, mode: sandbox-local). Authority data (baselines, aliases, declarations) must be written via the socket daemon for durability."
    );
    assert_eq!(sandbox_root(501), "/private/tmp/repo-graph-agent/501");
    assert_eq!(startup_mode(true), "warm");
    assert_eq!(startup_mode(false), "cold");
}

#[test]
fn every_declared_pair_is_checked_once_in_pair_order() {
    let decls = vec![
        rule("b", "a", None),
        rule("a", "c", Some("r1")),
        rule("b", "a", Some("dup")),
        rule("a", "b", None),
        rule("a", "c", Some("r2")),
    ];
    let rules = boundary_rules(&decls);
    let pairs: Vec<(String, String)> =
        rules.iter().map(|r| (r.boundary_module.clone(), r.forbids.clone())).collect();
    for w in pairs.windows(2) {
        assert!(w[0] < w[1], "strictly increasing, so no pair twice");
    }
    for d in &decls {
        assert!(pairs.contains(&(d.boundary_module.clone(), d.forbids.clone())));
    }
    assert_eq!(pairs.len(), 3);
}

#[test]
fn mark_baseline_blocked_in_sandbox_mode() {
    let message = authority_write_check(true, "mark_baseline", "/private/tmp/repo-graph-agent/501").unwrap_err();
    assert!(message.contains("cannot modify authority data in sandbox mode"), "{message}");
    assert!(message.contains("mark_baseline"), "{message}");
}

#[test]
fn unmark_baseline_blocked_in_sandbox_mode() {
    let message =
        authority_write_check(true, "unmark_baseline", "/private/tmp/repo-graph-agent/501").unwrap_err();
    assert!(message.contains("cannot modify authority data in sandbox mode"), "{message}");
    assert!(message.contains("unmark_baseline"), "{message}");
}

#[test]
fn mark_baseline_allowed_in_global_mode() {
    assert!(authority_write_check(false, "mark_baseline", "/home/u/.repo-graph").is_ok());
}
