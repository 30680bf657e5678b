//! Daemon-owned SCIP refresh: producer discovery policy, the structured
//! failure model, and the build-inputs hash (a SHA-256 over the partition's
//! config, sources and producer identity, hex encoded).
//!
//! The filesystem walk, the producer subprocess and the LiveGraph swap are the
//! application's; this module decides and computes over what they read, and
//! sequences a refresh run step by step (a failed run never feeds the
//! LiveGraph).
use vstd::bytes::{spec_u64_to_le_bytes, u64_to_le_bytes};
use vstd::prelude::*;
use vstd::string::*;
use vstd::utf8::encode_utf8;
use crate::digest::{hex_encode, hex_lower, lemma_hex_lower_len, sha256, sha256_digest};
use crate::text::{
    chars_of, decimal, decimal_chars, has_suffix, push_chars, push_str, string_of, trim_chars, trim_ws, vec_has_suffix,
    seq_lt, lemma_seq_lt_asym, lemma_seq_lt_total, lemma_seq_lt_trans,
};
use crate::livegraph_feed::{components, path_components};

verus! {

/// Structured refresh failure classes, surfaced in the refresh command's
/// structured response. `ProducerUnavailable` is the graceful-absent path.
#[derive(Debug, PartialEq, Eq)]
pub enum RefreshFailure {
    /// The `scip-typescript` producer was not found (config + PATH). Graceful: partition unchanged.
    ProducerUnavailable,
    /// The producer ran but exited non-zero.
    ProducerFailed(String),
    /// The producer exceeded its timeout.
    Timeout,
    /// Decoding / ingesting the producer output failed.
    IngestFailed(String),
    /// Computing `build_inputs_hash` failed.
    HashFailed(String),
    /// The target is not a supported TS partition.
    UnsupportedPartition(String),
}

impl RefreshFailure {
    pub open spec fn code_spec(&self) -> Seq<char> {
        match self {
            RefreshFailure::ProducerUnavailable => "ProducerUnavailable"@,
            RefreshFailure::ProducerFailed(_) => "ProducerFailed"@,
            RefreshFailure::Timeout => "Timeout"@,
            RefreshFailure::IngestFailed(_) => "IngestFailed"@,
            RefreshFailure::HashFailed(_) => "HashFailed"@,
            RefreshFailure::UnsupportedPartition(_) => "UnsupportedPartition"@,
        }
    }

    pub open spec fn detail_spec(&self) -> Seq<char> {
        match self {
            RefreshFailure::ProducerUnavailable => "scip-typescript not found (set RMAP_SCIP_TYPESCRIPT or add it to PATH)"@,
            RefreshFailure::Timeout => "producer timed out"@,
            RefreshFailure::ProducerFailed(d) => d@,
            RefreshFailure::IngestFailed(d) => d@,
            RefreshFailure::HashFailed(d) => d@,
            RefreshFailure::UnsupportedPartition(d) => d@,
        }
    }

    /// Stable machine code for the structured daemon response.
    pub fn code(&self) -> (r: &'static str)
        ensures
            r@ == self.code_spec(),
    {
        match self {
            RefreshFailure::ProducerUnavailable => "ProducerUnavailable",
            RefreshFailure::ProducerFailed(_) => "ProducerFailed",
            RefreshFailure::Timeout => "Timeout",
            RefreshFailure::IngestFailed(_) => "IngestFailed",
            RefreshFailure::HashFailed(_) => "HashFailed",
            RefreshFailure::UnsupportedPartition(_) => "UnsupportedPartition",
        }
    }

    /// Human-readable detail for the structured response.
    pub fn detail(&self) -> (r: String)
        ensures
            r@ == self.detail_spec(),
    {
        match self {
            RefreshFailure::ProducerUnavailable => String::from_str(
                "scip-typescript not found (set RMAP_SCIP_TYPESCRIPT or add it to PATH)",
            ),
            RefreshFailure::Timeout => String::from_str("producer timed out"),
            RefreshFailure::ProducerFailed(d) => d.clone(),
            RefreshFailure::IngestFailed(d) => d.clone(),
            RefreshFailure::HashFailed(d) => d.clone(),
            RefreshFailure::UnsupportedPartition(d) => d.clone(),
        }
    }
}

/// The discovery policy: a configured path that IS a file wins; else the
/// PATH-found binary; else `ProducerUnavailable`. A configured-but-missing path
/// falls through to PATH ("configured first, PATH second").
pub open spec fn discover_spec(
    configured: Option<Seq<char>>,
    configured_is_file: bool,
    path_found: Option<Seq<char>>,
) -> Option<Seq<char>> {
    if configured is Some && configured_is_file {
        configured
    } else {
        path_found
    }
}

/// Producer discovery over what the caller observed: `configured` (the
/// `RMAP_SCIP_TYPESCRIPT` path, if set), whether that path is a regular file,
/// and the first `scip-typescript` on `$PATH`.
pub fn discover_from(
    configured: Option<String>,
    configured_is_file: bool,
    path_found: Option<String>,
) -> (r: Result<String, RefreshFailure>)
    ensures
        match r {
            Ok(p) => discover_spec(
                match configured {
                    Some(c) => Some(c@),
                    None => None,
                },
                configured_is_file,
                match path_found {
                    Some(c) => Some(c@),
                    None => None,
                },
            ) == Some(p@),
            Err(e) => e == RefreshFailure::ProducerUnavailable && discover_spec(
                match configured {
                    Some(c) => Some(c@),
                    None => None,
                },
                configured_is_file,
                match path_found {
                    Some(c) => Some(c@),
                    None => None,
                },
            ) is None,
        },
{
    if let Some(p) = configured {
        if configured_is_file {
            return Ok(p);
        }
    }
    if let Some(p) = path_found {
        return Ok(p);
    }
    Err(RefreshFailure::ProducerUnavailable)
}

// ───────────────────────── build-inputs hash ─────────────────────────

/// The partition config files folded into the hash, in hashing order.
pub open spec fn config_file_names() -> Seq<Seq<char>> {
    seq![
        "tsconfig.json"@,
        "package.json"@,
        "package-lock.json"@,
        "yarn.lock"@,
        "pnpm-lock.yaml"@,
    ]
}

/// The config files whose contents the caller reads (absent files are skipped).
pub fn build_config_files() -> (r: Vec<&'static str>)
    ensures
        r@.map_values(|s: &str| s@) == config_file_names(),
{
    let mut r: Vec<&'static str> = Vec::new();
    r.push("tsconfig.json");
    r.push("package.json");
    r.push("package-lock.json");
    r.push("yarn.lock");
    r.push("pnpm-lock.yaml");
    assert(r@.map_values(|s: &str| s@) =~= config_file_names());
    r
}

/// The producer identity string folded in last.
pub open spec fn producer_tag() -> Seq<u8> {
    "scip-typescript@0.4.0".spec_bytes()
}

/// What the producer's filesystem metadata contributes: its length and, when
/// readable, its modification time in whole seconds since the epoch.
pub struct ProducerMeta {
    pub len: u64,
    pub modified_secs: Option<u64>,
}

pub open spec fn opt_bytes(o: Option<Vec<u8>>) -> Option<Seq<u8>> {
    match o {
        Some(b) => Some(b@),
        None => None,
    }
}

/// The config part of the stream: name then contents, for each present file.
pub open spec fn config_stream(names: Seq<Seq<char>>, contents: Seq<Option<Seq<u8>>>) -> Seq<u8>
    decreases contents.len(),
{
    if contents.len() == 0 || names.len() < contents.len() {
        Seq::<u8>::empty()
    } else {
        let i = contents.len() - 1;
        config_stream(names, contents.drop_last()) + match contents[i] {
            Some(b) => encode_utf8(names[i]) + b,
            None => Seq::<u8>::empty(),
        }
    }
}

/// The sources part: path then contents, for each source in the given order.
pub open spec fn source_stream(sources: Seq<(Seq<char>, Seq<u8>)>) -> Seq<u8>
    decreases sources.len(),
{
    if sources.len() == 0 {
        Seq::<u8>::empty()
    } else {
        source_stream(sources.drop_last()) + encode_utf8(sources.last().0) + sources.last().1
    }
}

pub open spec fn meta_stream(meta: Option<ProducerMeta>) -> Seq<u8> {
    match meta {
        Some(m) => spec_u64_to_le_bytes(m.len) + match m.modified_secs {
            Some(s) => spec_u64_to_le_bytes(s),
            None => Seq::<u8>::empty(),
        },
        None => Seq::<u8>::empty(),
    }
}

/// The full byte stream the build-inputs hash digests.
pub open spec fn build_inputs_stream(
    config_contents: Seq<Option<Seq<u8>>>,
    sources: Seq<(Seq<char>, Seq<u8>)>,
    producer: Seq<char>,
    meta: Option<ProducerMeta>,
) -> Seq<u8> {
    config_stream(config_file_names(), config_contents) + source_stream(sources) + encode_utf8(
        producer,
    ) + meta_stream(meta) + producer_tag()
}

fn push_bytes(out: &mut Vec<u8>, b: &[u8])
    ensures
        final(out)@ == old(out)@ + b@,
{
    let ghost start = out@;
    let mut i: usize = 0;
    while i < b.len()
        invariant
            i <= b.len(),
            out@ == start + b@.subrange(0, i as int),
        decreases b.len() - i,
    {
        out.push(b[i]);
        i = i + 1;
    }
    assert(b@.subrange(0, b.len() as int) == b@);
}

fn push_str_bytes(out: &mut Vec<u8>, s: &str)
    ensures
        final(out)@ == old(out)@ + encode_utf8(s@),
{
    push_bytes(out, s.as_bytes());
}

// ───────────────────────── path order ─────────────────────────

/// The rank of a path component in `Path`'s order: root, `.`, `..`, then
/// named components.
pub open spec fn comp_rank(c: Seq<char>) -> int {
    if c == seq!['/'] {
        0
    } else if c == seq!['.'] {
        1
    } else if c == seq!['.', '.'] {
        2
    } else {
        3
    }
}

/// Component order: by rank, named components by code point.
pub open spec fn comp_lt(a: Seq<char>, b: Seq<char>) -> bool {
    comp_rank(a) < comp_rank(b) || (comp_rank(a) == 3 && comp_rank(b) == 3 && seq_lt(a, b))
}

/// Lexicographic order on component sequences.
pub open spec fn comps_lt(a: Seq<Seq<char>>, b: Seq<Seq<char>>) -> bool
    decreases a.len(),
{
    if a.len() == 0 {
        b.len() > 0
    } else if b.len() == 0 {
        false
    } else if comp_lt(a[0], b[0]) {
        true
    } else if a[0] == b[0] {
        comps_lt(a.drop_first(), b.drop_first())
    } else {
        false
    }
}

/// The order `PathBuf` sorts by: component by component.
pub open spec fn path_lt(a: Seq<char>, b: Seq<char>) -> bool {
    comps_lt(path_components(a), path_components(b))
}

proof fn lemma_comp_lt_order(a: Seq<char>, b: Seq<char>, c: Seq<char>)
    ensures
        !(comp_lt(a, b) && comp_lt(b, a)),
        comp_lt(a, b) && comp_lt(b, c) ==> comp_lt(a, c),
        a == b || comp_lt(a, b) || comp_lt(b, a),
{
    lemma_seq_lt_asym(a, b);
    lemma_seq_lt_total(a, b);
    if seq_lt(a, b) && seq_lt(b, c) {
        lemma_seq_lt_trans(a, b, c);
    }
    if comp_rank(a) == comp_rank(b) && comp_rank(a) < 3 {
        if comp_rank(a) == 0 {
            assert(a == b);
        } else if comp_rank(a) == 1 {
            assert(a == b);
        } else {
            assert(a == b);
        }
    }
}

proof fn lemma_comps_lt_order(a: Seq<Seq<char>>, b: Seq<Seq<char>>, c: Seq<Seq<char>>)
    ensures
        !(comps_lt(a, b) && comps_lt(b, a)),
        comps_lt(a, b) && comps_lt(b, c) ==> comps_lt(a, c),
        a == b || comps_lt(a, b) || comps_lt(b, a),
    decreases a.len(),
{
    if a.len() > 0 && b.len() > 0 {
        lemma_comp_lt_order(a[0], b[0], a[0]);
        if c.len() > 0 {
            lemma_comp_lt_order(a[0], b[0], c[0]);
            lemma_comp_lt_order(b[0], c[0], a[0]);
            lemma_comp_lt_order(a[0], c[0], b[0]);
        }
        let ct = if c.len() > 0 { c.drop_first() } else { c };
        lemma_comps_lt_order(a.drop_first(), b.drop_first(), ct);
        if a.drop_first() == b.drop_first() && a[0] == b[0] {
            assert(a == seq![a[0]] + a.drop_first());
            assert(b == seq![b[0]] + b.drop_first());
        }
    } else if a.len() == 0 && b.len() == 0 {
        assert(a == b);
    }
}

/// Insert `x` after every source whose path it does not precede (stable).
pub open spec fn ins_path(s: Seq<(Seq<char>, Seq<u8>)>, x: (Seq<char>, Seq<u8>)) -> Seq<(Seq<char>, Seq<u8>)>
    decreases s.len(),
{
    if s.len() == 0 || !path_lt(x.0, s.last().0) {
        s.push(x)
    } else {
        ins_path(s.drop_last(), x).push(s.last())
    }
}

/// The sources in `PathBuf` order (a stable sort by path).
pub open spec fn sort_paths(s: Seq<(Seq<char>, Seq<u8>)>) -> Seq<(Seq<char>, Seq<u8>)>
    decreases s.len(),
{
    if s.len() == 0 {
        Seq::<(Seq<char>, Seq<u8>)>::empty()
    } else {
        ins_path(sort_paths(s.drop_last()), s.last())
    }
}

/// No source comes after one whose path it precedes.
pub open spec fn paths_ordered(s: Seq<(Seq<char>, Seq<u8>)>) -> bool {
    forall|i: int, j: int| 0 <= i < j < s.len() ==> !path_lt((#[trigger] s[j]).0, (#[trigger] s[i]).0)
}

proof fn lemma_path_lt_order(a: Seq<char>, b: Seq<char>, c: Seq<char>)
    ensures
        !(path_lt(a, b) && path_lt(b, a)),
        path_lt(a, b) && path_lt(b, c) ==> path_lt(a, c),
        path_components(a) == path_components(b) || path_lt(a, b) || path_lt(b, a),
        path_components(b) == path_components(c) ==> path_lt(a, b) == path_lt(a, c),
{
    lemma_comps_lt_order(path_components(a), path_components(b), path_components(c));
}

proof fn lemma_ins_path(s: Seq<(Seq<char>, Seq<u8>)>, x: (Seq<char>, Seq<u8>))
    requires
        paths_ordered(s),
    ensures
        paths_ordered(ins_path(s, x)),
        ins_path(s, x).to_multiset() == s.to_multiset().insert(x),
    decreases s.len(),
{
    broadcast use vstd::seq_lib::group_to_multiset_ensures;
    if s.len() == 0 || !path_lt(x.0, s.last().0) {
        let r = s.push(x);
        assert forall|i: int, j: int| 0 <= i < j < r.len() implies !path_lt((#[trigger] r[j]).0, (#[trigger] r[i]).0) by {
            if j == s.len() {
                if i < s.len() - 1 {
                    assert(!path_lt(s[s.len() - 1].0, s[i].0));
                    lemma_path_lt_order(x.0, s[i].0, s.last().0);
                    lemma_path_lt_order(s[i].0, s.last().0, x.0);
                }
            } else {
                assert(r[i] == s[i] && r[j] == s[j]);
            }
        }
    } else {
        let t = s.drop_last();
        assert forall|i: int, j: int| 0 <= i < j < t.len() implies !path_lt((#[trigger] t[j]).0, (#[trigger] t[i]).0) by {
            assert(t[i] == s[i] && t[j] == s[j]);
        }
        lemma_ins_path(t, x);
        let q = ins_path(t, x);
        let r = q.push(s.last());
        assert(s == t.push(s.last()));
        assert forall|i: int, j: int| 0 <= i < j < r.len() implies !path_lt((#[trigger] r[j]).0, (#[trigger] r[i]).0) by {
            if j == q.len() {
                let y = q[i];
                assert(r[i] == y);
                assert(q.to_multiset().count(y) > 0);
                if y == x {
                    lemma_path_lt_order(x.0, s.last().0, x.0);
                } else {
                    assert(t.to_multiset().count(y) > 0);
                    assert(t.contains(y));
                    let k = choose|k: int| 0 <= k < t.len() && t[k] == y;
                    assert(s[k] == y);
                    assert(!path_lt(s[s.len() - 1].0, s[k].0));
                }
            } else {
                assert(r[i] == q[i] && r[j] == q[j]);
            }
        }
    }
}

/// Law: the sources are hashed in `PathBuf` order, each source exactly as
/// often as it was given.
pub proof fn lemma_sort_paths(s: Seq<(Seq<char>, Seq<u8>)>)
    ensures
        paths_ordered(sort_paths(s)),
        sort_paths(s).to_multiset() == s.to_multiset(),
    decreases s.len(),
{
    broadcast use vstd::seq_lib::group_to_multiset_ensures;
    if s.len() > 0 {
        lemma_sort_paths(s.drop_last());
        lemma_ins_path(sort_paths(s.drop_last()), s.last());
        assert(s == s.drop_last().push(s.last()));
    }
}

fn comp_rank_exec(c: &Vec<char>) -> (r: u8)
    ensures
        r == comp_rank(c@),
{
    if c.len() == 1 && c[0] == '/' {
        assert(c@ =~= seq!['/']);
        0
    } else if c.len() == 1 && c[0] == '.' {
        assert(c@ =~= seq!['.']);
        1
    } else if c.len() == 2 && c[0] == '.' && c[1] == '.' {
        assert(c@ =~= seq!['.', '.']);
        2
    } else {
        proof {
            if c@ == seq!['/'] {
                assert(c@[0] == '/');
            }
            if c@ == seq!['.'] {
                assert(c@[0] == '.');
            }
            if c@ == seq!['.', '.'] {
                assert(c@[0] == '.' && c@[1] == '.');
            }
        }
        3
    }
}

fn comps_lt_exec(a: &Vec<Vec<char>>, b: &Vec<Vec<char>>) -> (r: bool)
    ensures
        r == comps_lt(a@.map_values(|c: Vec<char>| c@), b@.map_values(|c: Vec<char>| c@)),
{
    let ghost av = a@.map_values(|c: Vec<char>| c@);
    let ghost bv = b@.map_values(|c: Vec<char>| c@);
    assert(av.subrange(0, av.len() as int) == av);
    assert(bv.subrange(0, bv.len() as int) == bv);
    let mut i: usize = 0;
    while i < a.len() && i < b.len()
        invariant
            i <= a.len(),
            i <= b.len(),
            av == a@.map_values(|c: Vec<char>| c@),
            bv == b@.map_values(|c: Vec<char>| c@),
            comps_lt(av, bv) == comps_lt(av.subrange(i as int, av.len() as int), bv.subrange(i as int, bv.len() as int)),
        decreases a.len() - i,
    {
        let ghost sa = av.subrange(i as int, av.len() as int);
        let ghost sb = bv.subrange(i as int, bv.len() as int);
        assert(sa[0] == a@[i as int]@);
        assert(sb[0] == b@[i as int]@);
        let ra = comp_rank_exec(&a[i]);
        let rb = comp_rank_exec(&b[i]);
        if ra < rb || (ra == 3 && rb == 3 && crate::text::chars_lt(&a[i], &b[i])) {
            return true;
        }
        if !crate::text::chars_eq(&a[i], &b[i]) {
            return false;
        }
        assert(sa.drop_first() == av.subrange(i + 1, av.len() as int));
        assert(sb.drop_first() == bv.subrange(i + 1, bv.len() as int));
        i = i + 1;
    }
    i < b.len()
}

/// The positions of the sources in `PathBuf` order.
fn path_order(sources: &Vec<(String, Vec<u8>)>) -> (order: Vec<usize>)
    ensures
        order.len() == sources.len(),
        forall|j: int| 0 <= j < order.len() ==> order@[j] < sources.len(),
        order@.map_values(|i: usize| sources_view(sources@)[i as int]) == sort_paths(sources_view(sources@)),
{
    let ghost sv = sources_view(sources@);
    let mut comps: Vec<Vec<Vec<char>>> = Vec::new();
    let mut i: usize = 0;
    while i < sources.len()
        invariant
            i <= sources.len(),
            comps.len() == i,
            forall|j: int|
                0 <= j < i ==> (#[trigger] comps@[j])@.map_values(|c: Vec<char>| c@) == path_components(
                    sources@[j].0@,
                ),
        decreases sources.len() - i,
    {
        comps.push(components(&chars_of(sources[i].0.as_str())));
        i = i + 1;
    }
    let mut order: Vec<usize> = Vec::new();
    let mut k: usize = 0;
    while k < sources.len()
        invariant
            k <= sources.len(),
            comps.len() == sources.len(),
            sv == sources_view(sources@),
            forall|j: int|
                0 <= j < sources.len() ==> (#[trigger] comps@[j])@.map_values(|c: Vec<char>| c@)
                    == path_components(sources@[j].0@),
            order.len() == k,
            forall|j: int| 0 <= j < order.len() ==> order@[j] < k,
            order@.map_values(|i: usize| sv[i as int]) == sort_paths(sv.subrange(0, k as int)),
        decreases sources.len() - k,
    {
        let ghost s = order@.map_values(|i: usize| sv[i as int]);
        let ghost x = sv[k as int];
        proof {
            assert(sv.subrange(0, k + 1).drop_last() == sv.subrange(0, k as int));
            assert(sv.subrange(0, k + 1).last() == x);
            assert(x.0 == sources@[k as int].0@);
        }
        let mut j: usize = order.len();
        while j > 0 && comps_lt_exec(&comps[k], &comps[order[j - 1]])
            invariant
                j <= order.len(),
                order.len() == k,
                k < sources.len(),
                comps.len() == sources.len(),
                forall|m: int| 0 <= m < order.len() ==> order@[m] < k,
                s == order@.map_values(|i: usize| sv[i as int]),
                sv == sources_view(sources@),
                x == sv[k as int],
                forall|m: int|
                    0 <= m < sources.len() ==> (#[trigger] comps@[m])@.map_values(|c: Vec<char>| c@)
                        == path_components(sources@[m].0@),
                forall|m: int| j <= m < s.len() ==> path_lt(x.0, #[trigger] s[m].0),
            decreases j,
        {
            proof {
                assert(s[j - 1] == sv[order@[j - 1] as int]);
                assert(sv[order@[j - 1] as int].0 == sources@[order@[j - 1] as int].0@);
            }
            j = j - 1;
        }
        proof {
            if j > 0 {
                assert(s[j - 1] == sv[order@[j - 1] as int]);
                assert(sv[order@[j - 1] as int].0 == sources@[order@[j - 1] as int].0@);
            }
            lemma_ins_path_walk(s, x, j as int);
            if j > 0 {
                assert(s.subrange(0, j as int).last() == s[j - 1]);
            } else {
                assert(s.subrange(0, 0) =~= Seq::<(Seq<char>, Seq<u8>)>::empty());
            }
        }
        order.insert(j, k);
        proof {
            assert(order@.map_values(|i: usize| sv[i as int]) =~= ins_path(s.subrange(0, j as int), x)
                + s.subrange(j as int, s.len() as int));
        }
        k = k + 1;
    }
    assert(sv.subrange(0, sources.len() as int) == sv);
    order
}

proof fn lemma_ins_path_walk(s: Seq<(Seq<char>, Seq<u8>)>, x: (Seq<char>, Seq<u8>), j: int)
    requires
        0 <= j <= s.len(),
        forall|k: int| j <= k < s.len() ==> path_lt(x.0, #[trigger] s[k].0),
    ensures
        ins_path(s, x) == ins_path(s.subrange(0, j), x) + s.subrange(j, s.len() as int),
    decreases s.len() - j,
{
    if j == s.len() {
        assert(s.subrange(0, j) == s);
        assert(s.subrange(j, s.len() as int) =~= Seq::<(Seq<char>, Seq<u8>)>::empty());
    } else {
        let t = s.drop_last();
        assert(path_lt(x.0, s[s.len() - 1].0));
        assert forall|k: int| j <= k < t.len() implies path_lt(x.0, #[trigger] t[k].0) by {
            assert(t[k] == s[k]);
        }
        lemma_ins_path_walk(t, x, j);
        assert(t.subrange(0, j) == s.subrange(0, j));
        assert(s.subrange(j, s.len() as int) == t.subrange(j, t.len() as int).push(s.last()));
    }
}

pub open spec fn sources_view(s: Seq<(String, Vec<u8>)>) -> Seq<(Seq<char>, Seq<u8>)> {
    s.map_values(|p: (String, Vec<u8>)| (p.0@, p.1@))
}

/// The build-inputs hash: SHA-256 over, in order, each present config file's
/// name and contents (in [`build_config_files`] order, `config_contents`
/// aligned with it), each source's path and contents (sources taken in `PathBuf` order,
/// component by component, whatever order they are given in),
/// the producer path, the producer's length and modification time when
/// known, and the producer identity tag; hex encoded.
pub fn build_inputs_hash(
    config_contents: &Vec<Option<Vec<u8>>>,
    sources: &Vec<(String, Vec<u8>)>,
    producer: &str,
    meta: Option<ProducerMeta>,
) -> (r: String)
    ensures
        r@ == hex_lower(
            sha256_digest(
                build_inputs_stream(
                    config_contents@.map_values(|o: Option<Vec<u8>>| opt_bytes(o)),
                    sort_paths(sources_view(sources@)),
                    producer@,
                    meta,
                ),
            ),
        ),
        r@.len() == 64,
{
    let names = build_config_files();
    let ghost cv = config_contents@.map_values(|o: Option<Vec<u8>>| opt_bytes(o));
    let mut out: Vec<u8> = Vec::new();
    let mut i: usize = 0;
    let n = if config_contents.len() <= names.len() { config_contents.len() } else { 0 };
    proof {
        if config_contents.len() > names.len() {
            assert(config_stream(config_file_names(), cv) == Seq::<u8>::empty());
        }
        assert(cv.subrange(0, 0) =~= Seq::<Option<Seq<u8>>>::empty());
    }
    while i < n
        invariant
            n <= config_contents.len(),
            n <= names.len(),
            n == config_contents.len() || n == 0,
            i <= n,
            names@.map_values(|s: &str| s@) == config_file_names(),
            cv == config_contents@.map_values(|o: Option<Vec<u8>>| opt_bytes(o)),
            out@ == config_stream(config_file_names(), cv.subrange(0, i as int)),
        decreases n - i,
    {
        proof {
            assert(cv.subrange(0, i + 1).drop_last() == cv.subrange(0, i as int));
            assert(cv.subrange(0, i + 1)[i as int] == opt_bytes(config_contents@[i as int]));
            assert(config_file_names()[i as int] == names@[i as int]@);
        }
        match &config_contents[i] {
            Some(b) => {
                push_str_bytes(&mut out, names[i]);
                push_bytes(&mut out, b.as_slice());
            },
            None => {},
        }
        i = i + 1;
    }
    proof {
        if n == config_contents.len() {
            assert(cv.subrange(0, n as int) == cv);
        }
    }
    let ghost all = sources_view(sources@);
    let order = path_order(sources);
    let ghost sv = order@.map_values(|i: usize| all[i as int]);
    let ghost after_config = out@;
    let mut k: usize = 0;
    while k < order.len()
        invariant
            k <= order.len(),
            order.len() == sources.len(),
            forall|j: int| 0 <= j < order.len() ==> order@[j] < sources.len(),
            all == sources_view(sources@),
            sv == order@.map_values(|i: usize| all[i as int]),
            out@ == after_config + source_stream(sv.subrange(0, k as int)),
        decreases order.len() - k,
    {
        let idx = order[k];
        proof {
            assert(sv.subrange(0, k + 1).drop_last() == sv.subrange(0, k as int));
            assert(sv.subrange(0, k + 1).last() == sv[k as int]);
            assert(sv[k as int] == all[idx as int]);
            assert(all[idx as int] == (sources@[idx as int].0@, sources@[idx as int].1@));
        }
        push_str_bytes(&mut out, sources[idx].0.as_str());
        push_bytes(&mut out, sources[idx].1.as_slice());
        k = k + 1;
    }
    assert(sv.subrange(0, order.len() as int) == sv);
    push_str_bytes(&mut out, producer);
    match &meta {
        Some(m) => {
            let lb = u64_to_le_bytes(m.len);
            push_bytes(&mut out, lb.as_slice());
            match m.modified_secs {
                Some(s) => {
                    let sb = u64_to_le_bytes(s);
                    push_bytes(&mut out, sb.as_slice());
                },
                None => {},
            }
        },
        None => {},
    }
    push_str_bytes(&mut out, "scip-typescript@0.4.0");
    proof {
        assert(sv == sort_paths(all));
        assert(out@ =~= build_inputs_stream(cv, sort_paths(all), producer@, meta));
    }
    let digest = sha256(&out);
    proof {
        lemma_hex_lower_len(digest@);
    }
    hex_encode(&digest)
}


// ───────────────────────── the refresh steps ─────────────────────────

/// The failure for a partition without a `tsconfig.json`.
pub fn unsupported_partition(project_dir: &str) -> (r: RefreshFailure)
    ensures
        r is UnsupportedPartition,
        r.detail_spec() == "no tsconfig.json under "@ + project_dir@,
{
    let mut m: Vec<char> = Vec::new();
    push_str(&mut m, "no tsconfig.json under ");
    push_str(&mut m, project_dir);
    RefreshFailure::UnsupportedPartition(string_of(&m))
}

/// The decimal rendering of a signed integer.
pub open spec fn signed_decimal(i: int) -> Seq<char> {
    if i < 0 {
        "-"@ + decimal((-i) as nat)
    } else {
        decimal(i as nat)
    }
}

/// The `Debug` rendering of an exit code: `Some(n)` or `None`.
pub open spec fn exit_code_text(code: Option<i32>) -> Seq<char> {
    match code {
        Some(c) => "Some("@ + signed_decimal(c as int) + ")"@,
        None => "None"@,
    }
}

/// The failure for a producer that exited unsuccessfully: the exit code and
/// the trimmed standard error, `exit {code:?}: {stderr}`.
pub fn producer_exit_failure(code: Option<i32>, stderr: &str) -> (r: RefreshFailure)
    ensures
        r is ProducerFailed,
        r.detail_spec() == "exit "@ + exit_code_text(code) + ": "@ + trim_ws(stderr@),
{
    let mut m: Vec<char> = Vec::new();
    push_str(&mut m, "exit ");
    match code {
        Some(c) => {
            push_str(&mut m, "Some(");
            if c < 0 {
                push_str(&mut m, "-");
                let mag: u64 = (0i64 - (c as i64)) as u64;
                let d = decimal_chars(mag);
                push_chars(&mut m, &d);
            } else {
                let d = decimal_chars(c as u64);
                push_chars(&mut m, &d);
            }
            push_str(&mut m, ")");
        },
        None => push_str(&mut m, "None"),
    }
    push_str(&mut m, ": ");
    let t = trim_chars(&chars_of(stderr));
    push_chars(&mut m, &t);
    RefreshFailure::ProducerFailed(string_of(&m))
}

/// The producer output file name for a partition (placed in the temp dir).
pub fn refresh_output_file_name(partition_id: &str) -> (r: String)
    ensures
        r@ == "rmap-scip-refresh-"@ + partition_id@ + ".scip"@,
{
    let mut m: Vec<char> = Vec::new();
    push_str(&mut m, "rmap-scip-refresh-");
    push_str(&mut m, partition_id);
    push_str(&mut m, ".scip");
    string_of(&m)
}

/// Directory entries the source walk skips.
pub fn skipped_entry(name: &str) -> (r: bool)
    ensures
        r == (name@ == "node_modules"@ || name@ == ".git"@),
{
    crate::text::str_eq(name, "node_modules") || crate::text::str_eq(name, ".git")
}

/// A file name whose extension is `ts`: it ends in `.ts` after a non-empty stem.
pub open spec fn is_ts_source_spec(name: Seq<char>) -> bool {
    has_suffix(name, ".ts"@) && name.len() > ".ts"@.len()
}

pub fn is_ts_source(name: &str) -> (r: bool)
    ensures
        r == is_ts_source_spec(name@),
{
    let n = chars_of(name);
    let suf = chars_of(".ts");
    vec_has_suffix(&n, &suf) && n.len() > suf.len()
}


// ───────────────────────── the refresh run ─────────────────────────

/// Where a refresh run stands.
#[derive(Debug, Clone, Copy, PartialEq, Eq, Structural)]
pub enum RefreshStage {
    Start,
    CheckingConfig,
    Discovering,
    Hashing,
    ReadingCache,
    Producing,
    Ingesting,
    /// Feeding a warm-cache hit into the LiveGraph.
    SwappingCached,
    /// Feeding a freshly produced partition into the LiveGraph.
    SwappingFresh,
    WritingCache,
    Done,
    Failed,
}

/// The outside work a refresh step asks for.
#[derive(Debug, PartialEq, Eq)]
pub enum RefreshAction {
    /// Look for `tsconfig.json` in the project directory.
    CheckConfig,
    /// Find the producer.
    Discover,
    /// Compute the build-inputs hash.
    Hash,
    /// Try the warm cache under the expected key.
    ReadCache,
    /// Run the producer, holding no LiveGraph lock.
    RunProducer,
    /// Read, decode and ingest the producer output.
    Ingest,
    /// Feed the partition into the LiveGraph under its write lock: the only
    /// step that moves the partition's epoch.
    Swap,
    /// Write the warm cache, best effort.
    WriteCache,
    /// The refresh succeeded.
    Finish { warmed_from_cache: bool },
    /// The refresh failed; the LiveGraph was not touched.
    Fail(RefreshFailure),
}

/// What the last outside work reported.
#[derive(Debug, PartialEq, Eq)]
pub enum RefreshEvent {
    Begin,
    ConfigPresent(bool),
    CacheHit,
    CacheMiss,
    /// The step succeeded.
    Succeeded,
    /// The step failed.
    Failed(RefreshFailure),
}

/// The events a stage can receive: the outcomes of the work it asked for.
/// The swap and the best-effort cache write cannot fail; a finished or
/// failed run takes no more events.
pub open spec fn event_fits(stage: RefreshStage, event: RefreshEvent) -> bool {
    match stage {
        RefreshStage::Start => event is Begin,
        RefreshStage::CheckingConfig => event is ConfigPresent,
        RefreshStage::Discovering | RefreshStage::Hashing | RefreshStage::Producing | RefreshStage::Ingesting =>
            event is Succeeded || event is Failed,
        RefreshStage::ReadingCache => event is CacheHit || event is CacheMiss,
        RefreshStage::SwappingCached | RefreshStage::SwappingFresh | RefreshStage::WritingCache => event is Succeeded,
        RefreshStage::Done | RefreshStage::Failed => false,
    }
}

/// The stage a run moves to: the steps in order (config, producer, hash,
/// cache), a cache hit fed straight in, a miss running the producer and
/// ingesting its output before the swap and the cache write; any failure
/// ends the run.
pub open spec fn next_stage(stage: RefreshStage, event: RefreshEvent) -> RefreshStage {
    match (stage, event) {
        (RefreshStage::Start, _) => RefreshStage::CheckingConfig,
        (RefreshStage::CheckingConfig, RefreshEvent::ConfigPresent(true)) => RefreshStage::Discovering,
        (RefreshStage::CheckingConfig, _) => RefreshStage::Failed,
        (RefreshStage::Discovering, RefreshEvent::Succeeded) => RefreshStage::Hashing,
        (RefreshStage::Hashing, RefreshEvent::Succeeded) => RefreshStage::ReadingCache,
        (RefreshStage::ReadingCache, RefreshEvent::CacheHit) => RefreshStage::SwappingCached,
        (RefreshStage::ReadingCache, _) => RefreshStage::Producing,
        (RefreshStage::Producing, RefreshEvent::Succeeded) => RefreshStage::Ingesting,
        (RefreshStage::Ingesting, RefreshEvent::Succeeded) => RefreshStage::SwappingFresh,
        (RefreshStage::SwappingCached, _) => RefreshStage::Done,
        (RefreshStage::SwappingFresh, _) => RefreshStage::WritingCache,
        (RefreshStage::WritingCache, _) => RefreshStage::Done,
        (RefreshStage::Done, _) => RefreshStage::Done,
        (_, _) => RefreshStage::Failed,
    }
}

/// The action that goes with entering `next`: the work that stage does, the
/// success summary, or the failure (a step's own, or the unsupported
/// partition when the config is missing).
pub open spec fn action_fits(a: RefreshAction, stage: RefreshStage, event: RefreshEvent, project_dir: Seq<char>) -> bool {
    match next_stage(stage, event) {
        RefreshStage::CheckingConfig => a is CheckConfig,
        RefreshStage::Discovering => a is Discover,
        RefreshStage::Hashing => a is Hash,
        RefreshStage::ReadingCache => a is ReadCache,
        RefreshStage::Producing => a is RunProducer,
        RefreshStage::Ingesting => a is Ingest,
        RefreshStage::SwappingCached | RefreshStage::SwappingFresh => a is Swap,
        RefreshStage::WritingCache => a is WriteCache,
        RefreshStage::Done => a == RefreshAction::Finish { warmed_from_cache: stage == RefreshStage::SwappingCached },
        RefreshStage::Failed => match event {
            RefreshEvent::Failed(e) => a == RefreshAction::Fail(e),
            _ => a matches RefreshAction::Fail(e) && e is UnsupportedPartition && e.detail_spec()
                == "no tsconfig.json under "@ + project_dir,
        },
        RefreshStage::Start => false,
    }
}

/// One step of a daemon-owned refresh: from where the run stands and what
/// the last outside work reported, the next stage and the work it asks for.
pub fn refresh_step(stage: RefreshStage, event: RefreshEvent, project_dir: &str) -> (r: (RefreshStage, RefreshAction))
    requires
        event_fits(stage, event),
    ensures
        r.0 == next_stage(stage, event),
        action_fits(r.1, stage, event, project_dir@),
{
    match stage {
        RefreshStage::Start => (RefreshStage::CheckingConfig, RefreshAction::CheckConfig),
        RefreshStage::CheckingConfig => match event {
            RefreshEvent::ConfigPresent(true) => (RefreshStage::Discovering, RefreshAction::Discover),
            _ => (RefreshStage::Failed, RefreshAction::Fail(unsupported_partition(project_dir))),
        },
        RefreshStage::Discovering => match event {
            RefreshEvent::Failed(e) => (RefreshStage::Failed, RefreshAction::Fail(e)),
            _ => (RefreshStage::Hashing, RefreshAction::Hash),
        },
        RefreshStage::Hashing => match event {
            RefreshEvent::Failed(e) => (RefreshStage::Failed, RefreshAction::Fail(e)),
            _ => (RefreshStage::ReadingCache, RefreshAction::ReadCache),
        },
        RefreshStage::ReadingCache => match event {
            RefreshEvent::CacheHit => (RefreshStage::SwappingCached, RefreshAction::Swap),
            _ => (RefreshStage::Producing, RefreshAction::RunProducer),
        },
        RefreshStage::Producing => match event {
            RefreshEvent::Failed(e) => (RefreshStage::Failed, RefreshAction::Fail(e)),
            _ => (RefreshStage::Ingesting, RefreshAction::Ingest),
        },
        RefreshStage::Ingesting => match event {
            RefreshEvent::Failed(e) => (RefreshStage::Failed, RefreshAction::Fail(e)),
            _ => (RefreshStage::SwappingFresh, RefreshAction::Swap),
        },
        RefreshStage::SwappingCached => (RefreshStage::Done, RefreshAction::Finish { warmed_from_cache: true }),
        RefreshStage::SwappingFresh => (RefreshStage::WritingCache, RefreshAction::WriteCache),
        RefreshStage::WritingCache => (RefreshStage::Done, RefreshAction::Finish { warmed_from_cache: false }),
        RefreshStage::Done => (RefreshStage::Done, RefreshAction::Finish { warmed_from_cache: false }),
        RefreshStage::Failed => (RefreshStage::Failed, RefreshAction::Fail(RefreshFailure::Timeout)),
    }
}

/// The stages a run passes through for a sequence of reports, from `Start`.
pub open spec fn run_stages(events: Seq<RefreshEvent>) -> Seq<RefreshStage>
    decreases events.len(),
{
    if events.len() == 0 {
        seq![RefreshStage::Start]
    } else {
        let p = run_stages(events.drop_last());
        p.push(next_stage(p.last(), events.last()))
    }
}

/// Every report answers the work its stage asked for.
pub open spec fn run_fits(events: Seq<RefreshEvent>) -> bool
    decreases events.len(),
{
    events.len() == 0 || (run_fits(events.drop_last()) && event_fits(
        run_stages(events.drop_last()).last(),
        events.last(),
    ))
}

pub open spec fn is_swap(s: RefreshStage) -> bool {
    s == RefreshStage::SwappingCached || s == RefreshStage::SwappingFresh
}

pub open spec fn after_swap(s: RefreshStage) -> bool {
    is_swap(s) || s == RefreshStage::WritingCache || s == RefreshStage::Done
}

proof fn lemma_step_facts(st: RefreshStage, e: RefreshEvent)
    requires
        event_fits(st, e),
    ensures
        after_swap(st) ==> after_swap(next_stage(st, e)),
        is_swap(next_stage(st, e)) ==> after_swap(next_stage(st, e)),
        next_stage(st, e) == RefreshStage::WritingCache ==> st == RefreshStage::SwappingFresh,
        next_stage(st, e) == RefreshStage::Done ==> st == RefreshStage::SwappingCached || st == RefreshStage::WritingCache,
        st != RefreshStage::Done && st != RefreshStage::Failed,
{
}

proof fn lemma_run_shape(events: Seq<RefreshEvent>)
    ensures
        run_stages(events).len() == events.len() + 1,
        run_stages(events)[0] == RefreshStage::Start,
    decreases events.len(),
{
    if events.len() > 0 {
        lemma_run_shape(events.drop_last());
        let p = run_stages(events.drop_last());
        assert(run_stages(events)[0] == p[0]);
    }
}

/// Law: a failed refresh leaves the LiveGraph untouched. Once the run has fed
/// the LiveGraph it can no longer fail, so a run that ends failed never
/// swapped and the last-good epoch stands; a finished run swapped; and the
/// warm cache is written only right after feeding a freshly produced
/// partition.
#[verifier::rlimit(60)]
pub proof fn lemma_failed_refresh_never_swaps(events: Seq<RefreshEvent>)
    requires
        run_fits(events),
    ensures
        run_stages(events).len() == events.len() + 1,
        (exists|k: int| 0 <= k < run_stages(events).len() && is_swap(#[trigger] run_stages(events)[k])) ==> after_swap(
            run_stages(events).last(),
        ),
        run_stages(events).last() == RefreshStage::Failed ==> forall|k: int|
            0 <= k < run_stages(events).len() ==> !is_swap(#[trigger] run_stages(events)[k]),
        run_stages(events).last() == RefreshStage::Done ==> exists|k: int|
            0 <= k < run_stages(events).len() && is_swap(#[trigger] run_stages(events)[k]),
        forall|k: int|
            0 < k < run_stages(events).len() && #[trigger] run_stages(events)[k] == RefreshStage::WritingCache
                ==> run_stages(events)[k - 1] == RefreshStage::SwappingFresh,
    decreases events.len(),
{
    lemma_run_shape(events);
    let q = run_stages(events);
    if events.len() == 0 {
        assert(q == seq![RefreshStage::Start]);
        assert forall|k: int| 0 <= k < q.len() implies !is_swap(#[trigger] q[k]) by {
            assert(q[k] == RefreshStage::Start);
        }
    } else {
        let t = events.drop_last();
        lemma_failed_refresh_never_swaps(t);
        lemma_run_shape(t);
        let p = run_stages(t);
        let e = events.last();
        let n = next_stage(p.last(), e);
        assert(q == p.push(n));
        assert(event_fits(p.last(), e));
        lemma_step_facts(p.last(), e);
        assert(p[p.len() - 1] == p.last());
        assert(q.last() == n);
        assert forall|k: int| 0 <= k < q.len() && is_swap(#[trigger] q[k]) implies after_swap(q.last()) by {
            if k < p.len() {
                assert(q[k] == p[k]);
                assert(is_swap(p[k]));
            } else {
                assert(q[k] == n);
            }
        }
        if n == RefreshStage::Failed {
            assert forall|k: int| 0 <= k < q.len() implies !is_swap(#[trigger] q[k]) by {
                if is_swap(q[k]) {
                    assert(after_swap(q.last()));
                }
            }
        }
        if n == RefreshStage::Done {
            if p.last() == RefreshStage::SwappingCached {
                assert(q[p.len() - 1] == p[p.len() - 1]);
                assert(is_swap(q[p.len() - 1]));
            } else {
                assert(p.len() >= 2);
                assert(p[p.len() - 1] == RefreshStage::WritingCache);
                assert(p[p.len() - 2] == RefreshStage::SwappingFresh);
                assert(q[p.len() - 2] == p[p.len() - 2]);
                assert(is_swap(q[p.len() - 2]));
            }
        }
        assert forall|k: int| 0 < k < q.len() && #[trigger] q[k] == RefreshStage::WritingCache implies q[k - 1]
            == RefreshStage::SwappingFresh by {
            if k < p.len() {
                assert(q[k] == p[k]);
                assert(q[k - 1] == p[k - 1]);
                assert(p[k] == RefreshStage::WritingCache);
            } else {
                assert(q[k - 1] == p.last());
            }
        }
    }
}

} // verus!
