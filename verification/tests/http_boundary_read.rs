use repo_graph_daemon_runtime::http_boundary_read::{
    direction_counts, http_kind_direction, module_by_file, project_surface_to_input,
    read_degraded, split_method_route, surface_display,
};
use repo_graph_daemon_runtime::http_surface_union::HttpSurfaceFamily;

#[test]
fn read_degraded_is_reader_framed() {
    let msg = read_degraded("surfaces", "db locked");
    assert!(msg.contains("degraded"), "{msg}");
    assert!(msg.contains("db locked"), "{msg}");
    assert_eq!(msg, "HTTP boundary surfaces read failed (degraded): db locked");
}

#[test]
fn kind_direction() {
    assert_eq!(http_kind_direction("http_provider"), Some("provider"));
    assert_eq!(http_kind_direction("http_consumer"), Some("consumer"));
    assert_eq!(http_kind_direction("cli"), None);
}

#[test]
fn split_method_route_cases() {
    assert_eq!(
        split_method_route(Some("GET /api/x"), None),
        ("GET".to_string(), Some("/api/x".to_string()))
    );
    assert_eq!(
        split_method_route(Some("  POST   /a b  "), Some("POST")),
        ("POST".to_string(), Some("/a b".to_string()))
    );
    assert_eq!(
        split_method_route(Some("get /x"), Some("GET")),
        ("GET".to_string(), Some("/x".to_string())),
        "case-insensitive agreement keeps the split route"
    );
    assert_eq!(
        split_method_route(Some("/only/route"), Some("PUT")),
        ("PUT".to_string(), Some("/only/route".to_string())),
        "a disagreeing first word means the whole name is the route"
    );
    assert_eq!(split_method_route(None, None), ("UNKNOWN".to_string(), None));
    assert_eq!(split_method_route(Some("GET"), None), ("GET".to_string(), None));
    assert_eq!(split_method_route(None, Some("GET")), ("GET".to_string(), None));
}

#[test]
fn project_consumer_in_test_file_carries_is_test_true() {
    let input = project_surface_to_input(
        "http_consumer",
        Some("GET /api/x"),
        Some("GET"),
        Some("express".to_string()),
        Some("test/api.test.ts".to_string()),
        "test/api.test.ts".to_string(),
        Some(true),
    )
    .expect("http kind");
    assert_eq!(input.is_test, Some(true));
    assert_eq!(input.direction, "consumer");
    assert_eq!(input.http_method, "GET");
    assert_eq!(input.route.as_deref(), Some("/api/x"));
    assert_eq!(input.family, HttpSurfaceFamily::Project);
    let untracked = project_surface_to_input(
        "http_provider",
        Some("GET /api/y"),
        None,
        None,
        None,
        "vendor/z.ts".to_string(),
        None,
    )
    .unwrap();
    assert_eq!(untracked.is_test, None);
    assert_eq!(untracked.source_file, "vendor/z.ts");
    assert!(project_surface_to_input("cli", None, None, None, None, "x".to_string(), None).is_none());
}

#[test]
fn module_labels_join_ownership() {
    let ownership = vec![
        ("f1".to_string(), "m1".to_string()),
        ("f2".to_string(), "m2".to_string()),
        ("f3".to_string(), "missing".to_string()),
    ];
    let modules = vec![
        ("m1".to_string(), Some("core-api".to_string()), "backend".to_string()),
        ("m2".to_string(), None, "web".to_string()),
    ];
    let files = vec![
        ("f1".to_string(), "backend/A.java".to_string()),
        ("f2".to_string(), "web/b.ts".to_string()),
        ("f3".to_string(), "x/c.ts".to_string()),
    ];
    assert_eq!(
        module_by_file(&ownership, &modules, &files),
        vec![
            ("backend/A.java".to_string(), "core-api".to_string()),
            ("web/b.ts".to_string(), "web".to_string()),
        ]
    );
}

#[test]
fn unlinked_counts_and_display() {
    let dirs: Vec<String> = ["provider", "consumer", "provider", "provider", "consumer"]
        .iter()
        .map(|s| s.to_string())
        .collect();
    assert_eq!(direction_counts(&dirs), (3, 2));
    assert_eq!(surface_display("GET", Some("/offers")), "GET /offers");
    assert_eq!(surface_display("POST", None), "POST <dynamic>");
}
