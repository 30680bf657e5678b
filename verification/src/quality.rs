//! The decisions of the quality handlers (churn, hotspots, risk, coverage,
//! dead causes) and of the repo-root resolution they share: vendored paths,
//! the indexed-file filter, hotspot exclusions, coverage measurement
//! identity, and the dead-cause facts.
//!
//! Git, storage, the scorers and the JSON envelopes are the application's.
use crate::digest::{hex_encode, hex_lower, lemma_hex_lower_len, sha256, sha256_digest};
use crate::inferences_serve::{
    build_detectors, detectors_match, empty_state, empty_state_spec, note_for,
    no_detector_note_spec, uncovered_languages, uncovered_spec, DetectorReport, EmptyState,
    EmptyView,
};
use crate::sorted::{lemma_sort_distinct_sorted, sort_distinct, sort_distinct_strings};
use crate::text::{
    chars_of, contains_str, has_prefix, has_suffix, owned, push_chars, push_str, slice_chars,
    split_chars, split_on, str_contains, str_eq, string_of, strs, trim_end_char,
    trim_end_char_chars, vec_has_prefix, vec_has_suffix, contains_seq, ascii_lower, is_ascii_chars,
};
use vstd::prelude::*;
use vstd::string::*;
use vstd::utf8::encode_utf8;

verus! {

// ───────────────────────── vendored paths ─────────────────────────

/// Path segments that mark vendored code.
pub open spec fn vendored_segments() -> Seq<Seq<char>> {
    seq!["vendor"@, "node_modules"@, "third_party"@, "deps"@]
}

/// A path is vendored when one of its `/`-separated segments is a vendored
/// segment (a whole segment: `vendors_list.js` and `myvendor/` are not).
pub open spec fn is_vendored_spec(path: Seq<char>) -> bool {
    exists|i: int| 0 <= i < split_on(path, '/').len() && vendored_segments().contains(#[trigger] split_on(path, '/')[i])
}

pub fn is_vendored_path(path: &str) -> (r: bool)
    ensures
        r == is_vendored_spec(path@),
{
    let parts = split_chars(&chars_of(path), '/');
    let ghost pv = parts@.map_values(|c: Vec<char>| c@);
    let mut i: usize = 0;
    while i < parts.len()
        invariant
            i <= parts.len(),
            pv == parts@.map_values(|c: Vec<char>| c@),
            pv == split_on(path@, '/'),
            forall|j: int| 0 <= j < i ==> !vendored_segments().contains(#[trigger] pv[j]),
        decreases parts.len() - i,
    {
        let seg = string_of(&parts[i]);
        assert(seg@ == pv[i as int]);
        let hit = str_eq(seg.as_str(), "vendor") || str_eq(seg.as_str(), "node_modules") || str_eq(
            seg.as_str(),
            "third_party",
        ) || str_eq(seg.as_str(), "deps");
        proof {
            let v = vendored_segments();
            if vendored_segments().contains(pv[i as int]) {
                let k = choose|k: int| 0 <= k < v.len() && v[k] == pv[i as int];
                assert(k == 0 || k == 1 || k == 2 || k == 3);
            }
            if hit {
                assert(v[0] == "vendor"@ && v[1] == "node_modules"@ && v[2] == "third_party"@ && v[3] == "deps"@);
                if seg@ == "vendor"@ {
                    assert(v[0] == pv[i as int]);
                } else if seg@ == "node_modules"@ {
                    assert(v[1] == pv[i as int]);
                } else if seg@ == "third_party"@ {
                    assert(v[2] == pv[i as int]);
                } else {
                    assert(v[3] == pv[i as int]);
                }
            }
        }
        if hit {
            return true;
        }
        i = i + 1;
    }
    false
}

// ───────────────────────── repo roots ─────────────────────────

/// The last position of `c` in `s`, if it occurs.
pub open spec fn last_of(s: Seq<char>, c: char) -> Option<int> {
    if exists|i: int| 0 <= i < s.len() && s[i] == c && forall|j: int| i < j < s.len() ==> s[j] != c {
        Some(choose|i: int| 0 <= i < s.len() && s[i] == c && forall|j: int| i < j < s.len() ==> s[j] != c)
    } else {
        None
    }
}

fn find_last(s: &Vec<char>, c: char) -> (r: Option<usize>)
    ensures
        match r {
            Some(i) => i < s.len() && last_of(s@, c) == Some(i as int),
            None => last_of(s@, c) is None,
        },
{
    let mut i: usize = s.len();
    while i > 0
        invariant
            i <= s.len(),
            forall|j: int| i <= j < s.len() ==> s@[j] != c,
        decreases i,
    {
        if s[i - 1] == c {
            proof {
                let k = choose|k: int| 0 <= k < s@.len() && s@[k] == c && forall|j: int| k < j < s@.len() ==> s@[j] != c;
                if k < i - 1 {
                    assert(s@[i - 1] != c);
                } else if k > i - 1 {
                }
            }
            return Some(i - 1);
        }
        i = i - 1;
    }
    None
}

/// The parent directory of a `/`-separated path, ignoring trailing
/// separators: `None` for the root or an empty path; empty for a bare name;
/// `/` for a child of the root.
pub open spec fn parent_dir(p: Seq<char>) -> Option<Seq<char>> {
    let t = trim_end_char(p, '/');
    if t.len() == 0 {
        None
    } else {
        match last_of(t, '/') {
            None => Some(Seq::<char>::empty()),
            Some(i) => {
                let head = trim_end_char(t.subrange(0, i), '/');
                if head.len() == 0 {
                    Some(seq!['/'])
                } else {
                    Some(head)
                }
            },
        }
    }
}

/// Joins a relative path onto a directory; an absolute path replaces it.
pub open spec fn join_path(dir: Seq<char>, rel: Seq<char>) -> Seq<char> {
    if rel.len() > 0 && rel[0] == '/' {
        rel
    } else if dir.len() == 0 {
        rel
    } else if dir.last() == '/' {
        dir + rel
    } else {
        dir + seq!['/'] + rel
    }
}

/// A repo's root path, stored relative to its database file, joined onto the
/// database's directory (the root `/` when it has none).
pub open spec fn resolve_root_path_spec(db_path: Seq<char>, relative_root_path: Seq<char>) -> Seq<char> {
    let dir = match parent_dir(db_path) {
        Some(d) => d,
        None => seq!['/'],
    };
    join_path(dir, relative_root_path)
}

/// Resolves a repo's stored root path against the directory of its database
/// file. The result is what the application canonicalizes (keeping it as is
/// when canonicalization fails).
pub fn resolve_root_path(db_path: &str, relative_root_path: &str) -> (r: String)
    ensures
        r@ == resolve_root_path_spec(db_path@, relative_root_path@),
{
    let p = chars_of(db_path);
    let t = trim_end_char_chars(&p, '/');
    let dir: Vec<char> = if t.len() == 0 {
        let mut d: Vec<char> = Vec::new();
        d.push('/');
        d
    } else {
        match find_last(&t, '/') {
            None => Vec::new(),
            Some(i) => {
                let head = trim_end_char_chars(&slice_chars(&t, 0, i), '/');
                if head.len() == 0 {
                    let mut d: Vec<char> = Vec::new();
                    d.push('/');
                    d
                } else {
                    head
                }
            },
        }
    };
    proof {
        if t.len() > 0 && last_of(t@, '/') is None {
            assert(dir@ =~= Seq::<char>::empty());
        }
    }
    let rel = chars_of(relative_root_path);
    if rel.len() > 0 && rel[0] == '/' {
        return string_of(&rel);
    }
    if dir.len() == 0 {
        return string_of(&rel);
    }
    let mut out = dir;
    if out[out.len() - 1] != '/' {
        out.push('/');
    }
    push_chars(&mut out, &rel);
    string_of(&out)
}

/// The absolute repo root of the map view: the same resolution.
pub fn resolve_repo_root_abs(db_path: &str, root_path: &str) -> (r: String)
    ensures
        r@ == resolve_root_path_spec(db_path@, root_path@),
{
    resolve_root_path(db_path, root_path)
}

// ───────────────────────── churn and hotspots ─────────────────────────

/// The positions, in order, of the paths that are indexed.
pub open spec fn indexed_positions(paths: Seq<Seq<char>>, indexed: Seq<Seq<char>>) -> Seq<int>
    decreases paths.len(),
{
    if paths.len() == 0 {
        Seq::<int>::empty()
    } else if indexed.contains(paths.last()) {
        indexed_positions(paths.drop_last(), indexed).push(paths.len() - 1)
    } else {
        indexed_positions(paths.drop_last(), indexed)
    }
}

/// Keeps the churn entries whose file is indexed: their positions, in order.
pub fn keep_indexed(paths: &Vec<String>, indexed: &Vec<String>) -> (r: Vec<usize>)
    ensures
        r@.map_values(|i: usize| i as int) == indexed_positions(strs(paths@), strs(indexed@)),
{
    let mut out: Vec<usize> = Vec::new();
    let mut i: usize = 0;
    while i < paths.len()
        invariant
            i <= paths.len(),
            out@.map_values(|k: usize| k as int) == indexed_positions(strs(paths@).subrange(0, i as int), strs(indexed@)),
        decreases paths.len() - i,
    {
        proof {
            let t = strs(paths@).subrange(0, i + 1);
            assert(t.drop_last() =~= strs(paths@).subrange(0, i as int));
            assert(t.last() == paths@[i as int]@);
        }
        if contains_str(indexed, paths[i].as_str()) {
            let ghost prev = out@;
            out.push(i);
            assert(out@.map_values(|k: usize| k as int) =~= prev.map_values(|k: usize| k as int).push(i as int));
        }
        i = i + 1;
    }
    assert(strs(paths@).subrange(0, paths.len() as int) == strs(paths@));
    out
}

/// The hotspot exclusion of one file.
pub open spec fn excluded_as_test(path: Seq<char>, tests: Seq<Seq<char>>, exclude_tests: bool) -> bool {
    exclude_tests && tests.contains(path)
}

pub open spec fn excluded_as_vendored(path: Seq<char>, exclude_vendored: bool) -> bool {
    exclude_vendored && is_vendored_spec(path)
}

pub open spec fn is_excluded(path: Seq<char>, tests: Seq<Seq<char>>, et: bool, ev: bool) -> bool {
    excluded_as_test(path, tests, et) || excluded_as_vendored(path, ev)
}

/// The hotspots kept after the test / vendored filters, and what was dropped.
pub struct HotspotFilter {
    /// Positions of the kept hotspots, in order.
    pub kept: Vec<usize>,
    pub excluded_tests_count: usize,
    pub excluded_vendored_count: usize,
    /// Distinct excluded file paths.
    pub excluded_count: usize,
}

pub open spec fn kept_positions(paths: Seq<Seq<char>>, tests: Seq<Seq<char>>, et: bool, ev: bool) -> Seq<int>
    decreases paths.len(),
{
    if paths.len() == 0 {
        Seq::<int>::empty()
    } else if is_excluded(paths.last(), tests, et, ev) {
        kept_positions(paths.drop_last(), tests, et, ev)
    } else {
        kept_positions(paths.drop_last(), tests, et, ev).push(paths.len() - 1)
    }
}

pub open spec fn count_where(paths: Seq<Seq<char>>, f: spec_fn(Seq<char>) -> bool) -> nat
    decreases paths.len(),
{
    if paths.len() == 0 {
        0
    } else {
        count_where(paths.drop_last(), f) + if f(paths.last()) {
            1nat
        } else {
            0nat
        }
    }
}

pub open spec fn excluded_paths(paths: Seq<Seq<char>>, tests: Seq<Seq<char>>, et: bool, ev: bool) -> Seq<Seq<char>>
    decreases paths.len(),
{
    if paths.len() == 0 {
        Seq::<Seq<char>>::empty()
    } else if is_excluded(paths.last(), tests, et, ev) {
        excluded_paths(paths.drop_last(), tests, et, ev).push(paths.last())
    } else {
        excluded_paths(paths.drop_last(), tests, et, ev)
    }
}

proof fn lemma_count_where_le(paths: Seq<Seq<char>>, f: spec_fn(Seq<char>) -> bool)
    ensures
        count_where(paths, f) <= paths.len(),
    decreases paths.len(),
{
    if paths.len() > 0 {
        lemma_count_where_le(paths.drop_last(), f);
    }
}

/// Law: a hotspot is dropped exactly when `exclude_tests` is set and it is a
/// test file, or `exclude_vendored` is set and its path is vendored; the
/// kept positions are those of every other hotspot, ascending; the excluded
/// paths are exactly the hotspot paths so dropped; and each reason's count is
/// zero when its flag is off.
pub proof fn lemma_hotspot_filter_law(paths: Seq<Seq<char>>, tests: Seq<Seq<char>>, et: bool, ev: bool)
    ensures
        forall|j: int| 0 <= j < paths.len() ==> (#[trigger] kept_positions(paths, tests, et, ev).contains(j)
            <==> !((et && tests.contains(paths[j])) || (ev && is_vendored_spec(paths[j])))),
        forall|k: int| kept_positions(paths, tests, et, ev).contains(k) ==> 0 <= k < paths.len(),
        forall|a: int, b: int| 0 <= a < b < kept_positions(paths, tests, et, ev).len()
            ==> kept_positions(paths, tests, et, ev)[a] < kept_positions(paths, tests, et, ev)[b],
        forall|p: Seq<char>| #[trigger] excluded_paths(paths, tests, et, ev).contains(p)
            <==> (paths.contains(p) && ((et && tests.contains(p)) || (ev && is_vendored_spec(p)))),
        !et ==> count_where(paths, |p: Seq<char>| excluded_as_test(p, tests, et)) == 0,
        !ev ==> count_where(paths, |p: Seq<char>| excluded_as_vendored(p, ev)) == 0,
    decreases paths.len(),
{
    if paths.len() > 0 {
        let pre = paths.drop_last();
        lemma_hotspot_filter_law(pre, tests, et, ev);
        let kp = kept_positions(pre, tests, et, ev);
        let k = kept_positions(paths, tests, et, ev);
        let last = paths.last();
        let dropped = (et && tests.contains(last)) || (ev && is_vendored_spec(last));
        assert(is_excluded(last, tests, et, ev) == dropped);
        assert forall|j: int| 0 <= j < paths.len() implies (#[trigger] k.contains(j)
            <==> !((et && tests.contains(paths[j])) || (ev && is_vendored_spec(paths[j])))) by {
            if j < paths.len() - 1 {
                assert(pre[j] == paths[j]);
                if kp.contains(j) {
                    let w = choose|w: int| 0 <= w < kp.len() && kp[w] == j;
                    if !dropped {
                        assert(k[w] == j);
                    }
                }
                if k.contains(j) {
                    let w = choose|w: int| 0 <= w < k.len() && k[w] == j;
                    if !dropped && w == kp.len() {
                        assert(false);
                    }
                    assert(kp[w] == j);
                }
            } else {
                if !dropped {
                    assert(k[kp.len() as int] == j);
                } else {
                    if k.contains(j) {
                        let w = choose|w: int| 0 <= w < k.len() && k[w] == j;
                        assert(kp[w] == j);
                    }
                }
            }
        }
        assert forall|q: int| k.contains(q) implies 0 <= q < paths.len() by {
            let w = choose|w: int| 0 <= w < k.len() && k[w] == q;
            if dropped || w < kp.len() {
                assert(kp[w] == q);
                assert(kp.contains(q));
            }
        }
        assert forall|a: int, b: int| 0 <= a < b < k.len() implies k[a] < k[b] by {
            if !dropped && b == kp.len() {
                assert(kp.contains(kp[a]));
            }
        }
        let ep = excluded_paths(pre, tests, et, ev);
        let e = excluded_paths(paths, tests, et, ev);
        assert forall|p: Seq<char>| #[trigger] e.contains(p)
            <==> (paths.contains(p) && ((et && tests.contains(p)) || (ev && is_vendored_spec(p)))) by {
            if e.contains(p) {
                let w = choose|w: int| 0 <= w < e.len() && e[w] == p;
                if dropped && w == ep.len() {
                    assert(paths[paths.len() - 1] == p);
                } else {
                    assert(ep[w] == p);
                    assert(ep.contains(p));
                    let v = choose|v: int| 0 <= v < pre.len() && pre[v] == p;
                    assert(paths[v] == p);
                }
            }
            if paths.contains(p) && ((et && tests.contains(p)) || (ev && is_vendored_spec(p))) {
                let v = choose|v: int| 0 <= v < paths.len() && paths[v] == p;
                if v == paths.len() - 1 {
                    assert(e[ep.len() as int] == p);
                } else {
                    assert(pre[v] == p);
                    assert(pre.contains(p));
                    assert(ep.contains(p));
                    let w = choose|w: int| 0 <= w < ep.len() && ep[w] == p;
                    assert(e[w] == p);
                }
            }
        }
    }
}

/// Filters the ranked hotspots (by file path) with the test files of the
/// snapshot: a file is excluded as a test when `exclude_tests` and it is a
/// test file, as vendored when `exclude_vendored` and its path is vendored;
/// each count counts its own reason, and `excluded_count` the distinct
/// excluded paths.
pub fn filter_hotspots(paths: &Vec<String>, test_files: &Vec<String>, exclude_tests: bool, exclude_vendored: bool) -> (r: HotspotFilter)
    ensures
        r.kept@.map_values(|i: usize| i as int) == kept_positions(strs(paths@), strs(test_files@), exclude_tests, exclude_vendored),
        r.excluded_tests_count == count_where(strs(paths@), |p: Seq<char>| excluded_as_test(p, strs(test_files@), exclude_tests)),
        r.excluded_vendored_count == count_where(strs(paths@), |p: Seq<char>| excluded_as_vendored(p, exclude_vendored)),
        r.excluded_count == sort_distinct(excluded_paths(strs(paths@), strs(test_files@), exclude_tests, exclude_vendored)).len(),
{
    let ghost pv = strs(paths@);
    let ghost tv = strs(test_files@);
    let ghost ft = |p: Seq<char>| excluded_as_test(p, tv, exclude_tests);
    let ghost fv = |p: Seq<char>| excluded_as_vendored(p, exclude_vendored);
    let mut kept: Vec<usize> = Vec::new();
    let mut excluded: Vec<String> = Vec::new();
    let mut nt: usize = 0;
    let mut nv: usize = 0;
    let mut i: usize = 0;
    while i < paths.len()
        invariant
            i <= paths.len(),
            pv == strs(paths@),
            tv == strs(test_files@),
            ft == (|p: Seq<char>| excluded_as_test(p, tv, exclude_tests)),
            fv == (|p: Seq<char>| excluded_as_vendored(p, exclude_vendored)),
            kept@.map_values(|k: usize| k as int) == kept_positions(pv.subrange(0, i as int), tv, exclude_tests, exclude_vendored),
            strs(excluded@) == excluded_paths(pv.subrange(0, i as int), tv, exclude_tests, exclude_vendored),
            nt == count_where(pv.subrange(0, i as int), ft),
            nv == count_where(pv.subrange(0, i as int), fv),
        decreases paths.len() - i,
    {
        proof {
            let t = pv.subrange(0, i + 1);
            assert(t.drop_last() =~= pv.subrange(0, i as int));
            assert(t.last() == paths@[i as int]@);
            lemma_count_where_le(pv.subrange(0, i as int), ft);
            lemma_count_where_le(pv.subrange(0, i as int), fv);
        }
        let as_test = exclude_tests && contains_str(test_files, paths[i].as_str());
        let as_vendored = exclude_vendored && is_vendored_path(paths[i].as_str());
        if as_test {
            nt = nt + 1;
        }
        if as_vendored {
            nv = nv + 1;
        }
        if as_test || as_vendored {
            let ghost prev = excluded@;
            excluded.push(owned(paths[i].as_str()));
            assert(strs(excluded@) =~= strs(prev).push(paths@[i as int]@));
        } else {
            let ghost prev = kept@;
            kept.push(i);
            assert(kept@.map_values(|k: usize| k as int) =~= prev.map_values(|k: usize| k as int).push(i as int));
        }
        i = i + 1;
    }
    assert(pv.subrange(0, paths.len() as int) == pv);
    let distinct = sort_distinct_strings(&excluded);
    assert(strs(distinct@).len() == distinct@.len());
    HotspotFilter { kept, excluded_tests_count: nt, excluded_vendored_count: nv, excluded_count: distinct.len() }
}

// ───────────────────────── coverage ─────────────────────────

/// A file's stable key: `{repo_uid}:{file_path}:FILE`.
pub fn file_stable_key(repo_uid: &str, file_path: &str) -> (r: String)
    ensures
        r@ == repo_uid@ + ":"@ + file_path@ + ":FILE"@,
{
    let mut m: Vec<char> = Vec::new();
    push_str(&mut m, repo_uid);
    push_str(&mut m, ":");
    push_str(&mut m, file_path);
    push_str(&mut m, ":FILE");
    string_of(&m)
}

/// The measurement identity `{snapshot_uid}:{target_stable_key}:{kind}`.
pub open spec fn measurement_identity(snapshot_uid: Seq<char>, target: Seq<char>, kind: Seq<char>) -> Seq<char> {
    snapshot_uid + ":"@ + target + ":"@ + kind
}

/// A measurement uid: `msr:` and the first 32 hex digits of the SHA-256 of
/// the measurement identity (the first 36 characters of `msr:{digest:x}`).
pub open spec fn measurement_uid_spec(snapshot_uid: Seq<char>, target: Seq<char>, kind: Seq<char>) -> Seq<char> {
    ("msr:"@ + hex_lower(sha256_digest(encode_utf8(measurement_identity(snapshot_uid, target, kind))))).subrange(0, 36)
}

pub fn measurement_uid(snapshot_uid: &str, target_stable_key: &str, kind: &str) -> (r: String)
    ensures
        r@ == measurement_uid_spec(snapshot_uid@, target_stable_key@, kind@),
{
    let mut id: Vec<char> = Vec::new();
    push_str(&mut id, snapshot_uid);
    push_str(&mut id, ":");
    push_str(&mut id, target_stable_key);
    push_str(&mut id, ":");
    push_str(&mut id, kind);
    let ids = string_of(&id);
    let bytes = ids.as_str().as_bytes();
    let mut data: Vec<u8> = Vec::new();
    let mut k: usize = 0;
    while k < bytes.len()
        invariant
            k <= bytes.len(),
            data@ == bytes@.subrange(0, k as int),
        decreases bytes.len() - k,
    {
        data.push(bytes[k]);
        k = k + 1;
    }
    assert(bytes@.subrange(0, bytes.len() as int) == bytes@);
    let digest = sha256(&data);
    let hex = hex_encode(&digest);
    proof {
        lemma_hex_lower_len(digest@);
    }
    let mut out = chars_of("msr:");
    push_str(&mut out, hex.as_str());
    proof {
        reveal_strlit("msr:");
        assert(out@.len() == 68);
    }
    let cut = slice_chars(&out, 0, 36);
    string_of(&cut)
}

/// The file path of a coverage measurement's target key: the key with the
/// `{repo_uid}:` prefix and the `:FILE` suffix stripped; `None` for a key of
/// another shape.
pub open spec fn coverage_file_spec(key: Seq<char>, repo_uid: Seq<char>) -> Option<Seq<char>> {
    let pre = repo_uid + ":"@;
    if has_prefix(key, pre) {
        let rest = key.subrange(pre.len() as int, key.len() as int);
        if has_suffix(rest, ":FILE"@) {
            Some(rest.subrange(0, rest.len() - ":FILE"@.len()))
        } else {
            None
        }
    } else {
        None
    }
}

pub fn coverage_file(target_stable_key: &str, repo_uid: &str) -> (r: Option<String>)
    ensures
        crate::http_surface_union::opt_chars(r) == coverage_file_spec(target_stable_key@, repo_uid@),
{
    let k = chars_of(target_stable_key);
    let mut pre = chars_of(repo_uid);
    push_str(&mut pre, ":");
    if !vec_has_prefix(&k, &pre) {
        return None;
    }
    let rest = slice_chars(&k, pre.len(), k.len());
    let suf = chars_of(":FILE");
    if !vec_has_suffix(&rest, &suf) {
        return None;
    }
    Some(string_of(&slice_chars(&rest, 0, rest.len() - suf.len())))
}

/// The first `n` entries (a report's sample).
pub fn sample(v: &Vec<String>, n: usize) -> (r: Vec<String>)
    ensures
        strs(r@) == if v.len() <= n {
            strs(v@)
        } else {
            strs(v@).subrange(0, n as int)
        },
{
    let m = if v.len() <= n { v.len() } else { n };
    let mut out: Vec<String> = Vec::new();
    let mut i: usize = 0;
    while i < m
        invariant
            m <= v.len(),
            i <= m,
            strs(out@) == strs(v@).subrange(0, i as int),
        decreases m - i,
    {
        let ghost prev = out@;
        out.push(owned(v[i].as_str()));
        proof {
            assert(strs(out@) =~= strs(prev).push(v@[i as int]@));
            assert(strs(v@).subrange(0, i + 1) =~= strs(v@).subrange(0, i as int).push(v@[i as int]@));
        }
        i = i + 1;
    }
    assert(strs(v@).subrange(0, v.len() as int) == strs(v@));
    out
}

// ───────────────────────── dead causes ─────────────────────────

/// What `str::to_lowercase` returns for a string (full Unicode case mapping).
pub uninterp spec fn str_to_lowercase(s: Seq<char>) -> Seq<char>;

/// Calls `str::to_lowercase`. Claimed: the result is the named lower-case
/// mapping of exactly this string, and on an all-ASCII string it maps each
/// ASCII upper-case letter to its lower-case letter and keeps every other
/// character; beyond ASCII the mapping is left unstated.
#[verifier::external_body]
fn to_lowercase(s: &str) -> (r: String)
    ensures
        r@ == str_to_lowercase(s@),
        is_ascii_chars(s@) ==> r@ == ascii_lower(s@),
{
    s.to_lowercase()
}

/// The snapshot's languages, lowercased, ascending without repeats.
pub open spec fn language_set(raw: Seq<Seq<char>>) -> Seq<Seq<char>> {
    sort_distinct(raw.map_values(|l: Seq<char>| str_to_lowercase(l)))
}

/// Lowercases the stored language labels into the snapshot's language set.
pub fn language_set_of(raw: &Vec<String>) -> (r: Vec<String>)
    ensures
        strs(r@) == language_set(strs(raw@)),
{
    let mut lower: Vec<String> = Vec::new();
    let mut i: usize = 0;
    while i < raw.len()
        invariant
            i <= raw.len(),
            strs(lower@) == strs(raw@).subrange(0, i as int).map_values(|l: Seq<char>| str_to_lowercase(l)),
        decreases raw.len() - i,
    {
        let l = to_lowercase(raw[i].as_str());
        let ghost prev = lower@;
        lower.push(l);
        proof {
            assert(strs(lower@) =~= strs(prev).push(l@));
            assert(strs(raw@).subrange(0, i + 1).map_values(|l: Seq<char>| str_to_lowercase(l)) =~= strs(raw@).subrange(0, i as int).map_values(|l: Seq<char>| str_to_lowercase(l)).push(str_to_lowercase(raw@[i as int]@)));
        }
        i = i + 1;
    }
    assert(strs(raw@).subrange(0, raw.len() as int) == strs(raw@));
    sort_distinct_strings(&lower)
}

/// The facts behind the dead-code refusal's root causes, from the reader's
/// own snapshot.
pub struct DeadCausesFacts {
    /// The snapshot's language set (lowercased, ascending).
    pub languages: Vec<String>,
    pub detectors: Vec<DetectorReport>,
    pub total_inferences: u64,
    /// The zero-inference explanation; only when there are no inferences.
    pub framework_empty: Option<EmptyState>,
    /// The no-detector gap; only when there are inferences.
    pub uncovered_note: Option<String>,
    pub coverage_present: bool,
    pub coverage_count: u64,
    pub entrypoints_present: bool,
    pub entrypoint_count: u64,
}

pub open spec fn opt_empty(o: Option<EmptyState>) -> Option<EmptyView> {
    match o {
        Some(e) => Some(e@),
        None => None,
    }
}

/// Composes the dead-cause facts from the kinds of the snapshot's inference
/// rows, its stored language labels, and the coverage-measurement and
/// entrypoint-declaration counts. The empty-state line and the no-detector
/// note are mutually exclusive: the first only with no inferences, the second
/// only with some.
pub fn dead_causes_facts(row_kinds: &Vec<String>, raw_languages: &Vec<String>, coverage_count: u64, entrypoint_count: u64) -> (r: DeadCausesFacts)
    ensures
        strs(r.languages@) == language_set(strs(raw_languages@)),
        detectors_match(r.detectors@, strs(r.languages@), strs(row_kinds@)),
        r.total_inferences == row_kinds.len(),
        opt_empty(r.framework_empty) == if row_kinds.len() == 0 {
            Some(empty_state_spec(strs(r.languages@)))
        } else {
            None
        },
        crate::http_surface_union::opt_chars(r.uncovered_note) == if row_kinds.len() > 0 {
            no_detector_note_spec(uncovered_spec(strs(r.languages@)))
        } else {
            None
        },
        r.coverage_present == (coverage_count > 0),
        r.coverage_count == coverage_count,
        r.entrypoints_present == (entrypoint_count > 0),
        r.entrypoint_count == entrypoint_count,
{
    let languages = language_set_of(raw_languages);
    proof {
        lemma_sort_distinct_sorted(strs(raw_languages@).map_values(|l: Seq<char>| str_to_lowercase(l)));
    }
    let detectors = build_detectors(&languages, row_kinds);
    let total = row_kinds.len() as u64;
    let framework_empty = if total == 0 { Some(empty_state(&languages)) } else { None };
    let uncovered_note = if total > 0 {
        let uncovered = uncovered_languages(&languages);
        note_for(&uncovered)
    } else {
        None
    };
    DeadCausesFacts {
        languages,
        detectors,
        total_inferences: total,
        framework_empty,
        uncovered_note,
        coverage_present: coverage_count > 0,
        coverage_count,
        entrypoints_present: entrypoint_count > 0,
        entrypoint_count,
    }
}

// ───────────────────────── request errors ─────────────────────────

/// The error class of a failed request.
#[derive(Debug, Clone, Copy, PartialEq, Eq, Structural)]
pub enum RequestErrorKind {
    InvalidRequest,
    InternalError,
}

/// An assessment failure is the caller's (`InvalidRequest`) when its message
/// names the baseline or an invalid policy; otherwise it is internal.
pub fn assess_error_kind(message: &str) -> (r: RequestErrorKind)
    ensures
        r == if contains_seq(message@, "baseline"@) || contains_seq(message@, "InvalidPolicy"@) {
            RequestErrorKind::InvalidRequest
        } else {
            RequestErrorKind::InternalError
        },
{
    if str_contains(message, "baseline") || str_contains(message, "InvalidPolicy") {
        RequestErrorKind::InvalidRequest
    } else {
        RequestErrorKind::InternalError
    }
}

/// The reply to a repo path or alias the registry does not know.
pub fn repo_not_indexed_message(path: &str) -> (r: String)
    ensures
        r@ == "repo not indexed: "@ + path@ + " (run: rmap index "@ + path@ + ")"@,
{
    let mut m: Vec<char> = Vec::new();
    push_str(&mut m, "repo not indexed: ");
    push_str(&mut m, path);
    push_str(&mut m, " (run: rmap index ");
    push_str(&mut m, path);
    push_str(&mut m, ")");
    string_of(&m)
}

/// The reply to a report path that is not a file.
pub fn coverage_report_not_found(report_path: &str) -> (r: String)
    ensures
        r@ == "coverage report not found: "@ + report_path@,
{
    let mut m: Vec<char> = Vec::new();
    push_str(&mut m, "coverage report not found: ");
    push_str(&mut m, report_path);
    string_of(&m)
}

} // verus!
