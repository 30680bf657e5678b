//! The warm-cache seam of the daemon SCIP refresh path: the on-disk file
//! names, the cache key identity, and the producer-absent candidate choice.
//!
//! The cache is a non-authoritative accelerator: the application reads,
//! validates and writes the files; this module decides what they are called
//! and which key a loaded entry must carry.
use crate::text::{chars_of, owned, push_str, str_eq, string_of};
use vstd::prelude::*;
use vstd::string::*;

verus! {

/// Producer name stamped into the cache key.
pub const INDEXER_NAME: &'static str = "scip-typescript";

/// Producer version stamped into the cache key.
pub const INDEXER_VERSION: &'static str = "0.4.0";

/// Runtime version stamped into the cache key: a runtime version change
/// invalidates every entry.
pub const REPO_GRAPH_VERSION: &'static str = "0.1.0";

/// A path separator in a partition id.
pub open spec fn is_path_sep(c: char) -> bool {
    c == '/' || c == '\\'
}

/// `id` with every path separator replaced by `_`.
pub open spec fn filename_safe_spec(id: Seq<char>) -> Seq<char> {
    id.map_values(|c: char| if is_path_sep(c) { '_' } else { c })
}

/// A filesystem-safe rendering of a partition id for use as a file name
/// component: `/` and `\` become `_`. The partition's identity is unchanged;
/// only the file name is.
pub fn filename_safe_partition_id(partition_id: &str) -> (r: String)
    ensures
        r@ == filename_safe_spec(partition_id@),
{
    let cs = chars_of(partition_id);
    let mut out: Vec<char> = Vec::new();
    let mut i: usize = 0;
    while i < cs.len()
        invariant
            i <= cs.len(),
            cs@ == partition_id@,
            out@ == filename_safe_spec(cs@.subrange(0, i as int)),
        decreases cs.len() - i,
    {
        let c = cs[i];
        if c == '/' || c == '\\' {
            out.push('_');
        } else {
            out.push(c);
        }
        proof {
            assert(cs@.subrange(0, i + 1) == cs@.subrange(0, i as int).push(c));
            assert(filename_safe_spec(cs@.subrange(0, i + 1)) =~= filename_safe_spec(
                cs@.subrange(0, i as int),
            ).push(if is_path_sep(c) { '_' } else { c }));
        }
        i = i + 1;
    }
    assert(cs@.subrange(0, cs.len() as int) == cs@);
    string_of(&out)
}

/// `dir` joined with a relative `rest` the way a path join does: a separator
/// is inserted unless `dir` is empty or already ends with one.
pub open spec fn join_spec(dir: Seq<char>, rest: Seq<char>) -> Seq<char> {
    if dir.len() == 0 {
        rest
    } else if dir.last() == '/' {
        dir + rest
    } else {
        dir + seq!['/'] + rest
    }
}

/// `<project_dir>/.rgr/warm-cache/<safe id><ext>`.
pub open spec fn cache_file_spec(dir: Seq<char>, id: Seq<char>, ext: Seq<char>) -> Seq<char> {
    join_spec(dir, ".rgr/warm-cache/"@ + filename_safe_spec(id) + ext)
}

fn cache_file(project_dir: &str, partition_id: &str, ext: &str) -> (r: String)
    ensures
        r@ == cache_file_spec(project_dir@, partition_id@, ext@),
{
    let mut out = chars_of(project_dir);
    let n = out.len();
    if n > 0 && out[n - 1] != '/' {
        out.push('/');
    }
    let ghost head = out@;
    push_str(&mut out, ".rgr/warm-cache/");
    let safe = filename_safe_partition_id(partition_id);
    push_str(&mut out, safe.as_str());
    push_str(&mut out, ext);
    proof {
        if n == 0 {
            assert(head =~= Seq::<char>::empty());
        }
        assert(out@ =~= cache_file_spec(project_dir@, partition_id@, ext@));
    }
    string_of(&out)
}

/// The cache file path: `<project_dir>/.rgr/warm-cache/<partition_id>.cache`,
/// with the partition id made filename-safe.
pub fn partition_cache_path(project_dir: &str, partition_id: &str) -> (r: String)
    ensures
        r@ == cache_file_spec(project_dir@, partition_id@, ".cache"@),
{
    cache_file(project_dir, partition_id, ".cache")
}

/// The value-facts sidecar path, sibling of the partition cache:
/// `<project_dir>/.rgr/warm-cache/<partition_id>.vf`.
pub fn value_facts_sidecar_path(project_dir: &str, partition_id: &str) -> (r: String)
    ensures
        r@ == cache_file_spec(project_dir@, partition_id@, ".vf"@),
{
    cache_file(project_dir, partition_id, ".vf")
}

/// Law: a filename-safe id holds no path separator, has the id's length,
/// keeps every other character in place, and is its own filename-safe form.
pub proof fn lemma_filename_safe(id: Seq<char>)
    ensures
        filename_safe_spec(id).len() == id.len(),
        forall|i: int| 0 <= i < id.len() ==> !is_path_sep(#[trigger] filename_safe_spec(id)[i]),
        forall|i: int|
            0 <= i < id.len() && !is_path_sep(#[trigger] id[i]) ==> filename_safe_spec(id)[i] == id[i],
        filename_safe_spec(filename_safe_spec(id)) == filename_safe_spec(id),
{
    assert(filename_safe_spec(filename_safe_spec(id)) =~= filename_safe_spec(id));
}

/// Law: a partition's cache file and its value-facts sidecar are two distinct
/// files with one stem, side by side in the warm-cache directory.
pub proof fn lemma_sidecar_is_sibling(dir: Seq<char>, id: Seq<char>)
    ensures
        cache_file_spec(dir, id, ".cache"@) == join_spec(dir, ".rgr/warm-cache/"@ + filename_safe_spec(id))
            + ".cache"@,
        cache_file_spec(dir, id, ".vf"@) == join_spec(dir, ".rgr/warm-cache/"@ + filename_safe_spec(id))
            + ".vf"@,
        cache_file_spec(dir, id, ".cache"@) != cache_file_spec(dir, id, ".vf"@),
{
    reveal_strlit(".cache");
    reveal_strlit(".vf");
    let stem = ".rgr/warm-cache/"@ + filename_safe_spec(id);
    assert(join_spec(dir, stem + ".cache"@) =~= join_spec(dir, stem) + ".cache"@);
    assert(join_spec(dir, stem + ".vf"@) =~= join_spec(dir, stem) + ".vf"@);
    assert((join_spec(dir, stem) + ".cache"@).len() != (join_spec(dir, stem) + ".vf"@).len());
}

/// The producer's logical identity: name and version, stable across
/// reinstalls (not its binary path or modification time).
pub struct ProducerFingerprint {
    pub name: String,
    pub version: String,
}

/// The identity a cache entry must carry to be accepted.
pub struct CacheKey {
    pub repo_uid: String,
    pub partition_id: String,
    pub source_inputs_hash: String,
    pub producer_fingerprint: ProducerFingerprint,
    pub repo_graph_version: String,
}

/// The logical fingerprint of the producer this runtime drives.
pub fn logical_fingerprint() -> (r: ProducerFingerprint)
    ensures
        r.name@ == INDEXER_NAME@,
        r.version@ == INDEXER_VERSION@,
{
    ProducerFingerprint { name: owned(INDEXER_NAME), version: owned(INDEXER_VERSION) }
}

/// The expected cache key: the given repo, partition and source digest, the
/// logical producer fingerprint and this runtime's version.
pub fn build_cache_key(repo_uid: &str, partition_id: &str, source_inputs_hash: &str) -> (r:
    CacheKey)
    ensures
        r.repo_uid@ == repo_uid@,
        r.partition_id@ == partition_id@,
        r.source_inputs_hash@ == source_inputs_hash@,
        r.producer_fingerprint.name@ == INDEXER_NAME@,
        r.producer_fingerprint.version@ == INDEXER_VERSION@,
        r.repo_graph_version@ == REPO_GRAPH_VERSION@,
{
    CacheKey {
        repo_uid: owned(repo_uid),
        partition_id: owned(partition_id),
        source_inputs_hash: owned(source_inputs_hash),
        producer_fingerprint: logical_fingerprint(),
        repo_graph_version: owned(REPO_GRAPH_VERSION),
    }
}

/// The outcome of choosing a producer-absent cache candidate.
pub enum ProducerAbsentCandidate {
    /// No candidate matched the current source digest.
    NoCandidate,
    /// All candidates share one fingerprint: the first candidate's bytes and
    /// the key to validate them against.
    One { bytes: Vec<u8>, expected_key: CacheKey },
    /// Candidates disagree on the producer fingerprint: none is picked.
    Ambiguous,
}

pub open spec fn fp_view(fp: ProducerFingerprint) -> (Seq<char>, Seq<char>) {
    (fp.name@, fp.version@)
}

/// Whether every candidate carries the same fingerprint as the first.
pub open spec fn one_fingerprint(c: Seq<(Vec<u8>, ProducerFingerprint)>) -> bool {
    forall|i: int| 0 <= i < c.len() ==> fp_view(#[trigger] c[i].1) == fp_view(c[0].1)
}

fn fp_eq(a: &ProducerFingerprint, b: &ProducerFingerprint) -> (r: bool)
    ensures
        r == (fp_view(*a) == fp_view(*b)),
{
    str_eq(a.name.as_str(), b.name.as_str()) && str_eq(a.version.as_str(), b.version.as_str())
}

/// Chooses among candidates whose manifests match the current source digest:
/// none gives `NoCandidate`; one shared fingerprint gives `One` with the first
/// candidate's bytes and a key built from that fingerprint and the current
/// repo, partition, digest and runtime version; two distinct fingerprints
/// give `Ambiguous`.
pub fn select_producer_absent_candidate(
    candidates: Vec<(Vec<u8>, ProducerFingerprint)>,
    repo_uid: &str,
    partition_id: &str,
    source_inputs_hash: &str,
) -> (r: ProducerAbsentCandidate)
    ensures
        candidates@.len() == 0 ==> r is NoCandidate,
        candidates@.len() > 0 && !one_fingerprint(candidates@) ==> r is Ambiguous,
        candidates@.len() > 0 && one_fingerprint(candidates@) ==> match r {
            ProducerAbsentCandidate::One { bytes, expected_key } => {
                &&& bytes@ == candidates@[0].0@
                &&& fp_view(expected_key.producer_fingerprint) == fp_view(candidates@[0].1)
                &&& expected_key.repo_uid@ == repo_uid@
                &&& expected_key.partition_id@ == partition_id@
                &&& expected_key.source_inputs_hash@ == source_inputs_hash@
                &&& expected_key.repo_graph_version@ == REPO_GRAPH_VERSION@
            },
            _ => false,
        },
{
    let ghost c0 = candidates@;
    let mut cands = candidates;
    if cands.len() == 0 {
        return ProducerAbsentCandidate::NoCandidate;
    }
    let mut i: usize = 1;
    while i < cands.len()
        invariant
            cands@ == c0,
            c0 == candidates@,
            c0.len() > 0,
            1 <= i <= c0.len(),
            forall|j: int| 0 <= j < i ==> fp_view(#[trigger] c0[j].1) == fp_view(c0[0].1),
        decreases c0.len() - i,
    {
        if !fp_eq(&cands[i].1, &cands[0].1) {
            return ProducerAbsentCandidate::Ambiguous;
        }
        i = i + 1;
    }
    let (bytes, fingerprint) = cands.remove(0);
    let expected_key = CacheKey {
        repo_uid: owned(repo_uid),
        partition_id: owned(partition_id),
        source_inputs_hash: owned(source_inputs_hash),
        producer_fingerprint: fingerprint,
        repo_graph_version: owned(REPO_GRAPH_VERSION),
    };
    ProducerAbsentCandidate::One { bytes, expected_key }
}

} // verus!
