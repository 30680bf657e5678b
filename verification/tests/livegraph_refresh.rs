use repo_graph_daemon_runtime::livegraph_refresh::{
    build_config_files, build_inputs_hash, discover_from, is_ts_source, producer_exit_failure,
    refresh_output_file_name, refresh_step, skipped_entry, unsupported_partition, ProducerMeta, RefreshAction,
    RefreshEvent, RefreshFailure, RefreshStage,
};
use sha2::Digest;

#[test]
fn failure_codes_are_stable() {
    assert_eq!(RefreshFailure::ProducerUnavailable.code(), "ProducerUnavailable");
    assert_eq!(RefreshFailure::Timeout.code(), "Timeout");
    assert_eq!(RefreshFailure::ProducerFailed("x".into()).code(), "ProducerFailed");
    assert_eq!(RefreshFailure::IngestFailed("x".into()).code(), "IngestFailed");
    assert_eq!(RefreshFailure::HashFailed("x".into()).code(), "HashFailed");
    assert_eq!(
        RefreshFailure::UnsupportedPartition("x".into()).code(),
        "UnsupportedPartition"
    );
}

#[test]
fn failure_details_are_reader_text() {
    assert_eq!(
        RefreshFailure::ProducerUnavailable.detail(),
        "scip-typescript not found (set RMAP_SCIP_TYPESCRIPT or add it to PATH)"
    );
    assert_eq!(RefreshFailure::Timeout.detail(), "producer timed out");
    assert_eq!(RefreshFailure::HashFailed("read x: gone".into()).detail(), "read x: gone");
}

#[test]
fn discovery_config_then_path_then_unavailable() {
    let exe = "/usr/local/bin/scip-typescript".to_string();
    assert_eq!(discover_from(Some(exe.clone()), true, None).unwrap(), exe);
    assert_eq!(
        discover_from(Some("/nonexistent/scip-typescript".to_string()), false, Some(exe.clone()))
            .unwrap(),
        exe
    );
    assert_eq!(discover_from(None, false, None).unwrap_err(), RefreshFailure::ProducerUnavailable);
    assert_eq!(
        discover_from(Some("/missing".to_string()), false, None).unwrap_err(),
        RefreshFailure::ProducerUnavailable
    );
}

#[test]
fn config_files_in_hashing_order() {
    assert_eq!(
        build_config_files(),
        vec!["tsconfig.json", "package.json", "package-lock.json", "yarn.lock", "pnpm-lock.yaml"]
    );
}

#[test]
fn build_inputs_hash_is_sha256_of_the_documented_stream() {
    let configs = vec![Some(b"{}".to_vec()), None, None, None, None];
    let sources = vec![("src/a.ts".to_string(), b"export const a = 1;".to_vec())];
    let meta = Some(ProducerMeta { len: 42, modified_secs: Some(7) });
    let h = build_inputs_hash(&configs, &sources, "/bin/scip-typescript", meta);
    let mut stream: Vec<u8> = Vec::new();
    stream.extend_from_slice(b"tsconfig.json");
    stream.extend_from_slice(b"{}");
    stream.extend_from_slice(b"src/a.ts");
    stream.extend_from_slice(b"export const a = 1;");
    stream.extend_from_slice(b"/bin/scip-typescript");
    stream.extend_from_slice(&42u64.to_le_bytes());
    stream.extend_from_slice(&7u64.to_le_bytes());
    stream.extend_from_slice(b"scip-typescript@0.4.0");
    let expected = hex::encode(sha2::Sha256::digest(&stream));
    assert_eq!(h, expected);
    assert_eq!(h.len(), 64);
}

#[test]
fn build_inputs_hash_is_deterministic_and_input_sensitive() {
    let configs = vec![None, Some(b"{\"name\":\"x\"}".to_vec()), None, None, None];
    let sources = vec![("b.ts".to_string(), b"b".to_vec())];
    let h1 = build_inputs_hash(&configs, &sources, "p", None);
    let h2 = build_inputs_hash(&configs, &sources, "p", None);
    assert_eq!(h1, h2, "build_inputs_hash must be deterministic");
    let h3 = build_inputs_hash(&configs, &sources, "q", None);
    assert_ne!(h1, h3, "the producer path is hashed");
    assert_ne!(h1, "preload");
    let empty = build_inputs_hash(&vec![None, None, None, None, None], &Vec::new(), "", None);
    assert_eq!(
        empty,
        hex::encode(sha2::Sha256::digest(b"scip-typescript@0.4.0"))
    );
}

#[test]
fn refresh_step_failures_and_names() {
    let u = unsupported_partition("/repo/pkg");
    assert_eq!(u.code(), "UnsupportedPartition");
    assert_eq!(u.detail(), "no tsconfig.json under /repo/pkg");
    let f = producer_exit_failure(Some(2), "  boom\n");
    assert_eq!(f.code(), "ProducerFailed");
    assert_eq!(f.detail(), "exit Some(2): boom");
    assert_eq!(producer_exit_failure(Some(-9), "").detail(), "exit Some(-9): ");
    assert_eq!(producer_exit_failure(None, "x").detail(), "exit None: x");
    assert_eq!(refresh_output_file_name("default"), "rmap-scip-refresh-default.scip");
}

#[test]
fn source_walk_rules() {
    assert!(skipped_entry("node_modules"));
    assert!(skipped_entry(".git"));
    assert!(!skipped_entry("src"));
    assert!(is_ts_source("a.ts"));
    assert!(is_ts_source("a.d.ts"));
    assert!(!is_ts_source(".ts"));
    assert!(!is_ts_source("a.tsx"));
    assert!(!is_ts_source("ts"));
}

#[test]
fn build_inputs_hash_is_deterministic_and_nonempty() {
    // A synthetic project: its tsconfig and package.json plus two sources, with
    // the producer at a path that has no metadata (the path alone is hashed).
    let configs = vec![
        Some(b"{\"compilerOptions\":{}}".to_vec()),
        Some(b"{\"name\":\"synthetic\"}".to_vec()),
        None,
        None,
        None,
    ];
    let sources = vec![
        ("src/index.ts".to_string(), b"export * from './util';".to_vec()),
        ("src/util.ts".to_string(), b"export const u = 1;".to_vec()),
    ];
    let producer = "/nonexistent/scip-typescript";
    let h1 = build_inputs_hash(&configs, &sources, producer, None);
    let h2 = build_inputs_hash(&configs, &sources, producer, None);
    assert!(!h1.is_empty());
    assert_eq!(h1, h2, "build_inputs_hash must be deterministic");
    assert_ne!(h1, "preload", "real hash, not the placeholder");
}

#[test]
fn build_inputs_hash_orders_sources_by_path_components() {
    let configs = vec![None, None, None, None, None];
    let a = ("/p/a/b.ts".to_string(), b"1".to_vec());
    let b = ("/p/a-b.ts".to_string(), b"2".to_vec());
    let c = ("/p/z.ts".to_string(), b"3".to_vec());
    let h1 = build_inputs_hash(&configs, &vec![a.clone(), b.clone(), c.clone()], "p", None);
    let h2 = build_inputs_hash(&configs, &vec![c.clone(), b.clone(), a.clone()], "p", None);
    assert_eq!(h1, h2, "the given order of the sources does not matter");
    // `PathBuf` order: component `a` sorts before `a-b.ts`, although `/` > `-` as characters.
    let mut stream: Vec<u8> = Vec::new();
    for (p, bytes) in [&a, &b, &c] {
        stream.extend_from_slice(p.as_bytes());
        stream.extend_from_slice(bytes);
    }
    stream.extend_from_slice(b"p");
    stream.extend_from_slice(b"scip-typescript@0.4.0");
    assert_eq!(h1, hex::encode(sha2::Sha256::digest(&stream)));
    let mut paths = vec![std::path::PathBuf::from(&b.0), std::path::PathBuf::from(&c.0), std::path::PathBuf::from(&a.0)];
    paths.sort();
    assert_eq!(paths[0].to_str().unwrap(), a.0);
}

/// Drives a run with the given report for each requested kind of work; the
/// actions asked for, in order.
fn drive(config: bool, step_fails_at: Option<&str>, cache_hit: bool) -> Vec<RefreshAction> {
    let mut stage = RefreshStage::Start;
    let mut event = RefreshEvent::Begin;
    let mut actions = Vec::new();
    loop {
        let (next, action) = refresh_step(stage, event, "/p");
        stage = next;
        let fail = |name: &str, e: RefreshFailure| {
            if step_fails_at == Some(name) { RefreshEvent::Failed(e) } else { RefreshEvent::Succeeded }
        };
        event = match &action {
            RefreshAction::CheckConfig => RefreshEvent::ConfigPresent(config),
            RefreshAction::Discover => fail("discover", RefreshFailure::ProducerUnavailable),
            RefreshAction::Hash => fail("hash", RefreshFailure::HashFailed("h".to_string())),
            RefreshAction::ReadCache => if cache_hit { RefreshEvent::CacheHit } else { RefreshEvent::CacheMiss },
            RefreshAction::RunProducer => fail("produce", RefreshFailure::Timeout),
            RefreshAction::Ingest => fail("ingest", RefreshFailure::IngestFailed("d".to_string())),
            RefreshAction::Swap | RefreshAction::WriteCache => RefreshEvent::Succeeded,
            RefreshAction::Finish { .. } | RefreshAction::Fail(_) => {
                actions.push(action);
                return actions;
            }
        };
        actions.push(action);
    }
}

#[test]
fn a_failed_refresh_never_swaps() {
    for at in ["discover", "hash", "produce", "ingest"] {
        let run = drive(true, Some(at), false);
        assert!(!run.contains(&RefreshAction::Swap), "{at}: {run:?}");
        assert!(matches!(run.last(), Some(RefreshAction::Fail(_))));
    }
    let no_config = drive(false, None, false);
    assert!(!no_config.contains(&RefreshAction::Swap));
    assert_eq!(
        no_config.last(),
        Some(&RefreshAction::Fail(RefreshFailure::UnsupportedPartition("no tsconfig.json under /p".to_string())))
    );
}

#[test]
fn refresh_runs_swap_then_write_cache_or_warm_from_cache() {
    assert_eq!(
        drive(true, None, false),
        vec![
            RefreshAction::CheckConfig,
            RefreshAction::Discover,
            RefreshAction::Hash,
            RefreshAction::ReadCache,
            RefreshAction::RunProducer,
            RefreshAction::Ingest,
            RefreshAction::Swap,
            RefreshAction::WriteCache,
            RefreshAction::Finish { warmed_from_cache: false },
        ]
    );
    assert_eq!(
        drive(true, None, true),
        vec![
            RefreshAction::CheckConfig,
            RefreshAction::Discover,
            RefreshAction::Hash,
            RefreshAction::ReadCache,
            RefreshAction::Swap,
            RefreshAction::Finish { warmed_from_cache: true },
        ]
    );
}
