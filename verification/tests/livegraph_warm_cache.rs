use repo_graph_daemon_runtime::livegraph_warm_cache::{
    build_cache_key, filename_safe_partition_id, logical_fingerprint, partition_cache_path,
    select_producer_absent_candidate, value_facts_sidecar_path, ProducerAbsentCandidate,
    ProducerFingerprint, INDEXER_NAME, INDEXER_VERSION, REPO_GRAPH_VERSION,
};

#[test]
fn cache_path_is_repo_local_under_rgr() {
    let p = partition_cache_path("/repo/x", "default");
    assert!(p.ends_with(".rgr/warm-cache/default.cache"), "{}", p);
}

#[test]
fn multi_partition_id_is_filename_safe() {
    assert_eq!(filename_safe_partition_id("packages/a"), "packages_a");
    assert_eq!(filename_safe_partition_id("default"), "default");
    let p = partition_cache_path("/repo/packages/a", "packages/a");
    assert!(
        p.ends_with(".rgr/warm-cache/packages_a.cache"),
        "no nested dir from the id slash: {}",
        p
    );
    let vf = value_facts_sidecar_path("/repo/packages/a", "packages/a");
    assert!(vf.ends_with(".rgr/warm-cache/packages_a.vf"), "{}", vf);
}

#[test]
fn cache_paths_exact() {
    assert_eq!(
        partition_cache_path("/repo/x", "default"),
        "/repo/x/.rgr/warm-cache/default.cache"
    );
    assert_eq!(
        partition_cache_path("/repo/x/", "a\\b"),
        "/repo/x/.rgr/warm-cache/a_b.cache"
    );
    assert_eq!(
        value_facts_sidecar_path("", "p"),
        ".rgr/warm-cache/p.vf"
    );
}

#[test]
fn cache_key_carries_runtime_and_producer_identity() {
    let k = build_cache_key("repo_1", "default", "deadbeef");
    assert_eq!(k.repo_uid, "repo_1");
    assert_eq!(k.partition_id, "default");
    assert_eq!(k.source_inputs_hash, "deadbeef");
    assert_eq!(k.producer_fingerprint.name, INDEXER_NAME);
    assert_eq!(k.producer_fingerprint.version, INDEXER_VERSION);
    assert_eq!(k.repo_graph_version, REPO_GRAPH_VERSION);
    let fp = logical_fingerprint();
    assert_eq!(fp.name, "scip-typescript");
    assert_eq!(fp.version, "0.4.0");
}

#[test]
fn producer_absent_distinct_fingerprints_is_ambiguous_else_one_or_none() {
    let fp = |v: &str| ProducerFingerprint {
        name: "scip-typescript".to_string(),
        version: v.to_string(),
    };
    let cands = vec![(vec![1u8], fp("0.4.0")), (vec![2u8], fp("0.5.0"))];
    assert!(matches!(
        select_producer_absent_candidate(cands, "r", "p", "h"),
        ProducerAbsentCandidate::Ambiguous
    ));
    let cands = vec![(vec![1u8], fp("0.4.0"))];
    assert!(matches!(
        select_producer_absent_candidate(cands, "r", "p", "h"),
        ProducerAbsentCandidate::One { .. }
    ));
    assert!(matches!(
        select_producer_absent_candidate(vec![], "r", "p", "h"),
        ProducerAbsentCandidate::NoCandidate
    ));
}

#[test]
fn producer_absent_one_keeps_first_bytes_and_current_fields() {
    let fp = ProducerFingerprint {
        name: "scip-typescript".to_string(),
        version: "0.3.9".to_string(),
    };
    let fp2 = ProducerFingerprint {
        name: "scip-typescript".to_string(),
        version: "0.3.9".to_string(),
    };
    match select_producer_absent_candidate(vec![(vec![7u8], fp), (vec![8u8], fp2)], "r", "p", "h") {
        ProducerAbsentCandidate::One { bytes, expected_key } => {
            assert_eq!(bytes, vec![7u8]);
            assert_eq!(expected_key.repo_uid, "r");
            assert_eq!(expected_key.partition_id, "p");
            assert_eq!(expected_key.source_inputs_hash, "h");
            assert_eq!(expected_key.producer_fingerprint.version, "0.3.9");
            assert_eq!(expected_key.repo_graph_version, REPO_GRAPH_VERSION);
        }
        _ => panic!("one shared fingerprint selects One"),
    }
}

#[test]
fn filename_safe_id_has_no_separator_and_is_stable() {
    let id = "a/b\\c//d";
    let safe = filename_safe_partition_id(id);
    assert_eq!(safe.chars().count(), id.chars().count());
    assert!(!safe.contains('/') && !safe.contains('\\'));
    assert_eq!(filename_safe_partition_id(&safe), safe);
}

#[test]
fn sidecar_sits_beside_the_cache_file() {
    let cache = partition_cache_path("/r", "p/q");
    let vf = value_facts_sidecar_path("/r", "p/q");
    assert_ne!(cache, vf);
    assert_eq!(cache.strip_suffix(".cache"), vf.strip_suffix(".vf"));
}
