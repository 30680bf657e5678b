use repo_graph_daemon_runtime::http_surface_union::{
    counts, counts_partitioned, normalize_route, unify, HttpSurfaceFamily, HttpSurfaceInput,
};

fn input(
    family: HttpSurfaceFamily,
    direction: &str,
    method: &str,
    route: Option<&str>,
    file: &str,
) -> HttpSurfaceInput {
    HttpSurfaceInput {
        direction: direction.to_string(),
        http_method: method.to_string(),
        route: route.map(str::to_string),
        source_file: file.to_string(),
        line: None,
        is_test: None,
        framework: None,
        route_unknown_reason: None,
        family,
    }
}

#[test]
fn normalize_route_makes_param_names_positional() {
    assert_eq!(normalize_route("/api/v2/clients/{id}"), "/api/v2/clients/{}");
    assert_eq!(normalize_route("/api/v2/clients/{param}/"), "/api/v2/clients/{}");
    assert_eq!(normalize_route("/users/[slug]"), "/users/{}");
    assert_eq!(normalize_route("/users/:name"), "/users/{}");
    assert_ne!(normalize_route("/a/x"), normalize_route("/a/y"));
}

#[test]
fn same_identity_same_direction_renders_once_with_provenance() {
    let boundary = vec![input(
        HttpSurfaceFamily::Boundary,
        "provider",
        "GET",
        Some("/api/v2/clients/{id}"),
        "backend/Ctrl.java",
    )];
    let project = vec![input(
        HttpSurfaceFamily::Project,
        "provider",
        "GET",
        Some("/api/v2/clients/{param}"),
        "backend/Ctrl.java",
    )];
    let rows = unify(boundary, project, &Vec::new());
    assert_eq!(rows.len(), 1, "deduped to one: {rows:?}");
    assert_eq!(rows[0].provenance, vec!["boundary", "project_surfaces"]);
    assert_eq!(rows[0].conflict, None);
}

#[test]
fn richer_boundary_record_wins_and_backfills_labels() {
    let mut b = input(HttpSurfaceFamily::Boundary, "provider", "GET", Some("/x"), "f.java");
    b.is_test = Some(true);
    let mut p = input(HttpSurfaceFamily::Project, "provider", "GET", Some("/x"), "f.java");
    p.framework = Some("express".to_string());
    let rows = unify(vec![b], vec![p], &Vec::new());
    assert_eq!(rows.len(), 1);
    assert_eq!(rows[0].is_test, Some(true));
    assert_eq!(rows[0].framework.as_deref(), Some("express"));
}

#[test]
fn conflicting_direction_renders_both_with_label() {
    let boundary = vec![input(HttpSurfaceFamily::Boundary, "provider", "GET", Some("/api/x"), "svc.ts")];
    let project = vec![input(HttpSurfaceFamily::Project, "consumer", "GET", Some("/api/x"), "svc.ts")];
    let rows = unify(boundary, project, &Vec::new());
    assert_eq!(rows.len(), 2, "both render: {rows:?}");
    assert!(rows.iter().all(|r| r.conflict.is_some()));
    assert!(rows.iter().any(|r| r.direction == "provider"));
    assert!(rows.iter().any(|r| r.direction == "consumer"));
}

#[test]
fn dynamic_routes_never_merge() {
    let boundary = vec![
        input(HttpSurfaceFamily::Boundary, "consumer", "GET", None, "a.ts"),
        input(HttpSurfaceFamily::Boundary, "consumer", "GET", None, "a.ts"),
    ];
    let rows = unify(boundary, vec![], &Vec::new());
    assert_eq!(rows.len(), 2);
}

#[test]
fn module_attached_from_ownership_absent_is_none() {
    let boundary = vec![input(HttpSurfaceFamily::Boundary, "provider", "GET", Some("/x"), "backend/A.java")];
    let map = vec![("backend/A.java".to_string(), "core-api".to_string())];
    let rows = unify(boundary, vec![], &map);
    assert_eq!(rows[0].module.as_deref(), Some("core-api"));

    let b2 = vec![input(HttpSurfaceFamily::Boundary, "provider", "GET", Some("/y"), "unowned/B.java")];
    let rows2 = unify(b2, vec![], &map);
    assert_eq!(rows2[0].module, None);
}

#[test]
fn counts_reflect_unified_rows() {
    let boundary = vec![
        input(HttpSurfaceFamily::Boundary, "provider", "GET", Some("/a"), "f"),
        input(HttpSurfaceFamily::Boundary, "consumer", "GET", Some("/b"), "g"),
    ];
    let project = vec![input(HttpSurfaceFamily::Project, "provider", "POST", Some("/c"), "h")];
    let rows = unify(boundary, project, &Vec::new());
    assert_eq!(counts(&rows), (2, 1));
}

#[test]
fn conflict_label_names_other_direction_and_families() {
    let boundary = vec![input(HttpSurfaceFamily::Boundary, "provider", "get", Some("/api/x/"), "svc.ts")];
    let project = vec![input(HttpSurfaceFamily::Project, "consumer", "GET", Some(" /api/x"), "svc.ts")];
    let rows = unify(boundary, project, &Vec::new());
    assert_eq!(rows.len(), 2);
    // Sorted by direction: consumer first.
    assert_eq!(rows[0].direction, "consumer");
    assert_eq!(
        rows[0].conflict.as_deref(),
        Some("identity also recorded as provider (families: boundary, project_surfaces)")
    );
    assert_eq!(
        rows[1].conflict.as_deref(),
        Some("identity also recorded as consumer (families: boundary, project_surfaces)")
    );
    assert_eq!(rows[0].provenance, vec!["project_surfaces"]);
    assert_eq!(rows[1].provenance, vec!["boundary"]);
}

#[test]
fn rows_render_in_direction_method_route_file_order() {
    let boundary = vec![
        input(HttpSurfaceFamily::Boundary, "provider", "POST", Some("/b"), "f"),
        input(HttpSurfaceFamily::Boundary, "provider", "GET", None, "f"),
        input(HttpSurfaceFamily::Boundary, "consumer", "GET", Some("/z"), "f"),
        input(HttpSurfaceFamily::Boundary, "provider", "GET", Some("/a"), "f"),
    ];
    let rows = unify(boundary, vec![], &Vec::new());
    let keys: Vec<(String, String, Option<String>)> = rows
        .iter()
        .map(|r| (r.direction.clone(), r.http_method.clone(), r.route.clone()))
        .collect();
    assert_eq!(
        keys,
        vec![
            ("consumer".to_string(), "GET".to_string(), Some("/z".to_string())),
            ("provider".to_string(), "GET".to_string(), None),
            ("provider".to_string(), "GET".to_string(), Some("/a".to_string())),
            ("provider".to_string(), "POST".to_string(), Some("/b".to_string())),
        ]
    );
}

#[test]
fn line_backfilled_from_other_family() {
    let b = input(HttpSurfaceFamily::Boundary, "provider", "GET", Some("/x"), "f.java");
    let mut p = input(HttpSurfaceFamily::Project, "provider", "GET", Some("/x"), "f.java");
    p.line = Some(12);
    p.route_unknown_reason = Some("why".to_string());
    let rows = unify(vec![b], vec![p], &Vec::new());
    assert_eq!(rows.len(), 1);
    assert_eq!(rows[0].line, Some(12));
    assert_eq!(rows[0].route_unknown_reason.as_deref(), Some("why"));
}

#[test]
fn normalize_route_edge_cases() {
    assert_eq!(normalize_route(""), "/");
    assert_eq!(normalize_route("  ///  "), "/");
    assert_eq!(normalize_route("a//b"), "a//b");
    assert_eq!(normalize_route("/{x"), "/{x");
    assert_eq!(normalize_route("/:"), "/{}");
}

#[test]
fn counts_partitioned_excludes_test_fixtures_and_discloses_unknown() {
    let mut a = input(HttpSurfaceFamily::Boundary, "provider", "GET", Some("/a"), "f");
    a.is_test = Some(true);
    let mut b = input(HttpSurfaceFamily::Boundary, "provider", "GET", Some("/b"), "f");
    b.is_test = Some(false);
    let c = input(HttpSurfaceFamily::Boundary, "consumer", "GET", Some("/c"), "f");
    let rows = unify(vec![a, b, c], vec![], &Vec::new());
    let p = counts_partitioned(&rows);
    assert_eq!(p.providers, 1);
    assert_eq!(p.consumers, 1);
    assert_eq!(p.test_fixture_excluded, 1);
    assert_eq!(p.test_status_unknown, 1);
}

#[test]
fn union_keeps_every_record_and_renders_in_order() {
    let boundary = vec![
        input(HttpSurfaceFamily::Boundary, "provider", "GET", Some("/b/{id}"), "z.ts"),
        input(HttpSurfaceFamily::Boundary, "consumer", "get", Some("/b/{x}"), "z.ts"),
        input(HttpSurfaceFamily::Boundary, "consumer", "POST", None, "a.ts"),
    ];
    let project = vec![
        input(HttpSurfaceFamily::Project, "provider", "GET", Some("/b/:id"), "z.ts"),
        input(HttpSurfaceFamily::Project, "provider", "DELETE", Some("/c"), "m.ts"),
    ];
    let all: Vec<HttpSurfaceInput> = boundary.iter().chain(project.iter()).cloned().collect();
    let rows = unify(boundary, project, &Vec::new());
    // Every record is rendered by a row with its direction and source file.
    for x in &all {
        assert!(
            rows.iter().any(|r| r.direction == x.direction && r.source_file == x.source_file),
            "record {:?} dropped",
            x
        );
    }
    // The dynamic record is rendered as itself.
    assert!(rows.iter().any(|r| r.route.is_none() && r.http_method == "POST" && r.source_file == "a.ts"));
    // Rendering order: (direction, method, route, file), never descending.
    for w in rows.windows(2) {
        let a = (&w[0].direction, &w[0].http_method, &w[0].route, &w[0].source_file);
        let b = (&w[1].direction, &w[1].http_method, &w[1].route, &w[1].source_file);
        assert!(a <= b, "{:?} after {:?}", b, a);
    }
    // The conflicting identity renders one row per direction; the merged
    // provider and the distinct DELETE route are one row each.
    assert_eq!(rows.len(), 4);
}

#[test]
fn partition_counts_never_double_count_a_row() {
    let mut rows_in = Vec::new();
    for (i, (dir, test)) in [("provider", Some(true)), ("consumer", None), ("provider", Some(false)), ("other", None), ("consumer", Some(true))]
        .iter()
        .enumerate()
    {
        let mut x = input(HttpSurfaceFamily::Boundary, dir, "GET", Some(&format!("/r{i}")), "f");
        x.is_test = *test;
        rows_in.push(x);
    }
    let rows = unify(rows_in, vec![], &Vec::new());
    let p = counts_partitioned(&rows);
    assert!(p.providers + p.consumers + p.test_fixture_excluded <= rows.len());
    assert!(p.test_fixture_excluded + p.test_status_unknown <= rows.len());
    assert_eq!((p.providers, p.consumers, p.test_fixture_excluded, p.test_status_unknown), (1, 1, 2, 2));
}

#[test]
fn each_identity_renders_once_per_recorded_direction() {
    let boundary = vec![
        input(HttpSurfaceFamily::Boundary, "provider", "GET", Some("/u/{id}"), "u.ts"),
        input(HttpSurfaceFamily::Boundary, "provider", "GET", Some("/u/{id}"), "u.ts"),
        input(HttpSurfaceFamily::Boundary, "consumer", "POST", Some("/v"), "v.ts"),
    ];
    let project = vec![
        input(HttpSurfaceFamily::Project, "provider", "get", Some("/u/:uid"), "u.ts"),
        input(HttpSurfaceFamily::Project, "provider", "POST", Some("/v"), "v.ts"),
        input(HttpSurfaceFamily::Project, "consumer", "POST", Some("/v"), "v.ts"),
    ];
    let rows = unify(boundary, project, &Vec::new());
    let count = |dir: &str, file: &str| rows.iter().filter(|r| r.direction == dir && r.source_file == file).count();
    assert_eq!(count("provider", "u.ts"), 1, "same identity, same direction, both families: once");
    assert_eq!(count("provider", "v.ts"), 1, "conflicting identity: one row per direction");
    assert_eq!(count("consumer", "v.ts"), 1);
    assert_eq!(count("consumer", "u.ts"), 0, "no row is invented");
    assert_eq!(rows.len(), 3);
}

#[test]
fn conflicting_group_merges_each_direction_without_losing_facts() {
    let mut b = input(HttpSurfaceFamily::Boundary, "provider", "GET", Some("/x"), "f.ts");
    b.is_test = Some(false);
    let mut p = input(HttpSurfaceFamily::Project, "provider", "GET", Some("/x"), "f.ts");
    p.framework = Some("express".to_string());
    p.line = Some(7);
    let c = input(HttpSurfaceFamily::Boundary, "consumer", "GET", Some("/x"), "f.ts");
    let rows = unify(vec![b, c], vec![p], &Vec::new());
    assert_eq!(rows.len(), 2);
    let prov = rows.iter().find(|r| r.direction == "provider").unwrap();
    assert_eq!(prov.provenance, vec!["boundary".to_string(), "project_surfaces".to_string()]);
    assert_eq!(prov.is_test, Some(false));
    assert_eq!(prov.framework.as_deref(), Some("express"));
    assert_eq!(prov.line, Some(7));
    assert!(prov.conflict.is_some());
    let cons = rows.iter().find(|r| r.direction == "consumer").unwrap();
    assert_eq!(cons.provenance, vec!["boundary".to_string()]);
    assert!(cons.conflict.is_some());
}

#[test]
fn normalize_route_is_idempotent_and_ignores_a_trailing_slash() {
    for r in ["/api/v2/clients/{id}", "/users/[slug]/posts/:pid", "a/b", "/", "", "///", "/x//"] {
        let n = normalize_route(r);
        assert_eq!(normalize_route(&n), n, "idempotent on {r:?}");
        assert_eq!(normalize_route(&format!("{r}/")), n, "trailing slash on {r:?}");
    }
    assert_eq!(normalize_route("///"), "/");
    assert_eq!(normalize_route(""), "/");
}
