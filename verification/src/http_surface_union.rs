//! Read-time union of the two HTTP surface families.
//!
//! Two families independently record HTTP surfaces: the boundary-interaction
//! store (`channel_kind='http'`) and the legacy `project_surfaces` store (its
//! `http_provider`/`http_consumer` kinds). This module reconciles them at read
//! time under an explicit dedup identity `(upper-cased method, normalized route
//! template, source file)`: rows of the same identity and direction render once
//! (the richer record wins, missing labels are back-filled, provenance is the
//! union of families); rows of the same identity with conflicting directions
//! render once per direction, each labeled; rows with a dynamic route are never
//! merged. Pure: no storage, no I/O.
use vstd::prelude::*;
use vstd::string::*;

use crate::text::{
    chars_of, ends_with_char, join_with, owned, push_chars, split_on, starts_with_char, string_of,
    trim_chars, trim_end_char, trim_end_char_chars, trim_ws, seq_lt, chars_lt, chars_eq,
    lemma_seq_lt_irreflexive, lemma_seq_lt_asym, lemma_seq_lt_total, lemma_seq_lt_trans, push_str, join_chars, str_lt,
    is_ws, trim_start_ws, trim_end_ws, lemma_split_on_nonempty, ascii_upper, is_ascii_chars,
};
use crate::sorted::{chars_views, ins_distinct, insert_distinct, sort_distinct, strings_to_chars, lemma_sort_distinct, strictly_sorted};

verus! {

// ───────────────────────── model ─────────────────────────

/// Which storage family an input surface came from.
#[derive(Debug, Clone, Copy, PartialEq, Eq, Structural)]
pub enum HttpSurfaceFamily {
    /// `boundary_interaction_surfaces` (`channel_kind='http'`).
    Boundary,
    /// `project_surfaces` (`http_provider`/`http_consumer` kinds).
    Project,
}

impl HttpSurfaceFamily {
    pub open spec fn label_spec(self) -> Seq<char> {
        match self {
            HttpSurfaceFamily::Boundary => "boundary"@,
            HttpSurfaceFamily::Project => "project_surfaces"@,
        }
    }

    pub open spec fn richness_spec(self) -> u8 {
        match self {
            HttpSurfaceFamily::Boundary => 1,
            HttpSurfaceFamily::Project => 0,
        }
    }

    /// The provenance label of the family.
    pub fn label(self) -> (r: &'static str)
        ensures
            r@ == self.label_spec(),
    {
        match self {
            HttpSurfaceFamily::Boundary => "boundary",
            HttpSurfaceFamily::Project => "project_surfaces",
        }
    }

    /// Richness rank for "prefer the richer record": boundary rows carry
    /// `is_test` and the unknown-route reason, so they win ties.
    pub fn richness(self) -> (r: u8)
        ensures
            r == self.richness_spec(),
    {
        match self {
            HttpSurfaceFamily::Boundary => 1,
            HttpSurfaceFamily::Project => 0,
        }
    }
}

/// One HTTP surface normalized from either family, before union.
#[derive(Debug, Clone)]
pub struct HttpSurfaceInput {
    pub direction: String,
    pub http_method: String,
    /// `None` = dynamic/unreadable URL — never fabricated, never merged.
    pub route: Option<String>,
    pub source_file: String,
    /// The surface's start line, where recorded.
    pub line: Option<u64>,
    pub is_test: Option<bool>,
    pub framework: Option<String>,
    pub route_unknown_reason: Option<String>,
    pub family: HttpSurfaceFamily,
}

/// A unified HTTP surface after read-time union + dedup.
#[derive(Debug, Clone)]
pub struct UnifiedHttpSurface {
    pub direction: String,
    pub http_method: String,
    pub route: Option<String>,
    pub source_file: String,
    pub line: Option<u64>,
    pub is_test: Option<bool>,
    pub framework: Option<String>,
    pub route_unknown_reason: Option<String>,
    /// Owning module; `None` = ownership unavailable (rendered as the explicit unknown).
    pub module: Option<String>,
    /// Families that contributed this row, sorted.
    pub provenance: Vec<String>,
    /// Set when this identity also appears with a conflicting direction.
    pub conflict: Option<String>,
}

pub open spec fn opt_chars(o: Option<String>) -> Option<Seq<char>> {
    match o {
        Some(s) => Some(s@),
        None => None,
    }
}

/// The mathematical content of an [`HttpSurfaceInput`].
pub struct InputView {
    pub direction: Seq<char>,
    pub http_method: Seq<char>,
    pub route: Option<Seq<char>>,
    pub source_file: Seq<char>,
    pub line: Option<u64>,
    pub is_test: Option<bool>,
    pub framework: Option<Seq<char>>,
    pub route_unknown_reason: Option<Seq<char>>,
    pub family: HttpSurfaceFamily,
}

/// The mathematical content of an [`UnifiedHttpSurface`].
pub struct UnifiedView {
    pub direction: Seq<char>,
    pub http_method: Seq<char>,
    pub route: Option<Seq<char>>,
    pub source_file: Seq<char>,
    pub line: Option<u64>,
    pub is_test: Option<bool>,
    pub framework: Option<Seq<char>>,
    pub route_unknown_reason: Option<Seq<char>>,
    pub module: Option<Seq<char>>,
    pub provenance: Seq<Seq<char>>,
    pub conflict: Option<Seq<char>>,
}

impl View for HttpSurfaceInput {
    type V = InputView;

    open spec fn view(&self) -> InputView {
        InputView {
            direction: self.direction@,
            http_method: self.http_method@,
            route: opt_chars(self.route),
            source_file: self.source_file@,
            line: self.line,
            is_test: self.is_test,
            framework: opt_chars(self.framework),
            route_unknown_reason: opt_chars(self.route_unknown_reason),
            family: self.family,
        }
    }
}

impl View for UnifiedHttpSurface {
    type V = UnifiedView;

    open spec fn view(&self) -> UnifiedView {
        UnifiedView {
            direction: self.direction@,
            http_method: self.http_method@,
            route: opt_chars(self.route),
            source_file: self.source_file@,
            line: self.line,
            is_test: self.is_test,
            framework: opt_chars(self.framework),
            route_unknown_reason: opt_chars(self.route_unknown_reason),
            module: opt_chars(self.module),
            provenance: self.provenance@.map_values(|s: String| s@),
            conflict: opt_chars(self.conflict),
        }
    }
}

pub open spec fn inputs_view(s: Seq<HttpSurfaceInput>) -> Seq<InputView> {
    s.map_values(|x: HttpSurfaceInput| x@)
}

pub open spec fn rows_view(s: Seq<UnifiedHttpSurface>) -> Seq<UnifiedView> {
    s.map_values(|x: UnifiedHttpSurface| x@)
}

// ───────────────────────── route normalization ─────────────────────────

/// A route segment that names a parameter: `{id}`, `[slug]` or `:name`.
pub open spec fn is_param_segment(seg: Seq<char>) -> bool {
    (starts_with_char(seg, '{') && ends_with_char(seg, '}')) || (starts_with_char(seg, '[')
        && ends_with_char(seg, ']')) || starts_with_char(seg, ':')
}

pub open spec fn normalize_segment(seg: Seq<char>) -> Seq<char> {
    if is_param_segment(seg) {
        seq!['{', '}']
    } else {
        seg
    }
}

/// The route with surrounding whitespace and trailing slashes removed.
pub open spec fn route_core(route: Seq<char>) -> Seq<char> {
    trim_end_char(trim_ws(route), '/')
}

/// Parameter names made positional (`{}`), literal segments kept, trailing
/// slash dropped; an empty route is `/`.
pub open spec fn normalize_route_spec(route: Seq<char>) -> Seq<char> {
    let core = route_core(route);
    if core.len() == 0 {
        seq!['/']
    } else {
        join_with(split_on(core, '/').map_values(|seg: Seq<char>| normalize_segment(seg)), seq!['/'])
    }
}

fn normalize_segment_exec(seg: &Vec<char>) -> (r: Vec<char>)
    ensures
        r@ == normalize_segment(seg@),
{
    let n = seg.len();
    let is_param = (n > 0 && seg[0] == '{' && seg[n - 1] == '}') || (n > 0 && seg[0] == '['
        && seg[n - 1] == ']') || (n > 0 && seg[0] == ':');
    if is_param {
        let mut r: Vec<char> = Vec::new();
        r.push('{');
        r.push('}');
        r
    } else {
        let mut r: Vec<char> = Vec::new();
        push_chars(&mut r, seg);
        r
    }
}

/// The prefix of `join_with(m, sep)` that precedes `m.last()`.
pub open spec fn join_prefix(m: Seq<Seq<char>>, sep: Seq<char>) -> Seq<char> {
    if m.len() <= 1 {
        Seq::<char>::empty()
    } else {
        join_with(m.drop_last(), sep) + sep
    }
}

proof fn lemma_join_prefix(m: Seq<Seq<char>>, sep: Seq<char>)
    requires
        m.len() >= 1,
    ensures
        join_with(m, sep) == join_prefix(m, sep) + m.last(),
{
    if m.len() == 1 {
        assert(m.last() == m[0]);
        assert(Seq::<char>::empty() + m[0] == m[0]);
    }
}

/// Normalized route over characters.
pub fn normalize_route_chars(route: &Vec<char>) -> (r: Vec<char>)
    ensures
        r@ == normalize_route_spec(route@),
{
    let trimmed = trim_chars(route);
    let core = trim_end_char_chars(&trimmed, '/');
    if core.len() == 0 {
        let mut r: Vec<char> = Vec::new();
        r.push('/');
        return r;
    }
    let ghost sep = seq!['/'];
    let mut out: Vec<char> = Vec::new();
    let mut cur: Vec<char> = Vec::new();
    let mut i: usize = 0;
    proof {
        assert(core@.subrange(0, 0) =~= Seq::<char>::empty());
    }
    while i < core.len()
        invariant
            i <= core.len(),
            sep == seq!['/'],
            ({
                let p = split_on(core@.subrange(0, i as int), '/');
                &&& p.len() >= 1
                &&& cur@ == p.last()
                &&& out@ == join_prefix(p.map_values(|seg: Seq<char>| normalize_segment(seg)), sep)
            }),
        decreases core.len() - i,
    {
        let ghost pre = core@.subrange(0, i as int);
        let ghost post = core@.subrange(0, i + 1);
        let ghost p = split_on(pre, '/');
        let ghost mp = p.map_values(|seg: Seq<char>| normalize_segment(seg));
        proof {
            assert(post.drop_last() == pre);
            assert(post.last() == core@[i as int]);
        }
        let c = core[i];
        if c == '/' {
            let seg = normalize_segment_exec(&cur);
            push_chars(&mut out, &seg);
            out.push('/');
            cur = Vec::new();
            proof {
                let q = split_on(post, '/');
                assert(q == p.push(Seq::<char>::empty()));
                let mq = q.map_values(|seg: Seq<char>| normalize_segment(seg));
                assert(mq.drop_last() == mp);
                lemma_join_prefix(mp, sep);
                assert(mp.last() == normalize_segment(cur@) || true);
                assert(mp.last() == normalize_segment(p.last()));
                assert(cur@ =~= q.last());
            }
        } else {
            cur.push(c);
            proof {
                let q = split_on(post, '/');
                assert(q == p.update(p.len() - 1, p.last().push(c)));
                let mq = q.map_values(|seg: Seq<char>| normalize_segment(seg));
                assert(mq.drop_last() == mp.drop_last());
                assert(q.len() == p.len());
            }
        }
        i = i + 1;
    }
    let ghost p = split_on(core@, '/');
    let ghost mp = p.map_values(|seg: Seq<char>| normalize_segment(seg));
    proof {
        assert(core@.subrange(0, core.len() as int) == core@);
        lemma_join_prefix(mp, sep);
    }
    let last = normalize_segment_exec(&cur);
    push_chars(&mut out, &last);
    out
}

/// Normalize a route template so `{id}` and `{param}` (or `[slug]`, `:name`) at
/// the same position compare equal, while literal segments stay distinct.
/// Trailing slash dropped; empty → `/`.
pub fn normalize_route(route: &str) -> (r: String)
    ensures
        r@ == normalize_route_spec(route@),
{
    let v = chars_of(route);
    let n = normalize_route_chars(&v);
    string_of(&n)
}

// ───────────────────────── normalization laws ─────────────────────────

/// No character of `s` is whitespace.
pub open spec fn ws_free(s: Seq<char>) -> bool {
    forall|i: int| 0 <= i < s.len() ==> !is_ws(#[trigger] s[i])
}

proof fn lemma_trim_ws_free(s: Seq<char>)
    requires
        ws_free(s),
    ensures
        trim_ws(s) == s,
{
    if s.len() > 0 {
        assert(!is_ws(s[0]));
        assert(!is_ws(s[s.len() - 1]));
    }
    assert(trim_start_ws(s) == s);
    assert(trim_end_ws(s) == s);
}

proof fn lemma_trim_end_char_prefix(s: Seq<char>, c: char)
    ensures
        trim_end_char(s, c).len() <= s.len(),
        trim_end_char(s, c) == s.subrange(0, trim_end_char(s, c).len() as int),
        trim_end_char(s, c).len() == 0 || trim_end_char(s, c).last() != c,
    decreases s.len(),
{
    if s.len() > 0 && s.last() == c {
        let t = s.drop_last();
        lemma_trim_end_char_prefix(t, c);
        let r = trim_end_char(t, c);
        assert(t.subrange(0, r.len() as int) == s.subrange(0, r.len() as int));
    } else {
        assert(s.subrange(0, s.len() as int) == s);
    }
}

proof fn lemma_split_parts(s: Seq<char>, sep: char)
    ensures
        forall|j: int, i: int|
            0 <= j < split_on(s, sep).len() && 0 <= i < split_on(s, sep)[j].len() ==> #[trigger] split_on(
                s,
                sep,
            )[j][i] != sep && s.contains(split_on(s, sep)[j][i]),
        s.len() > 0 && s.last() != sep ==> split_on(s, sep).last().len() > 0 && split_on(s, sep).last().last()
            == s.last(),
    decreases s.len(),
{
    lemma_split_on_nonempty(s, sep);
    if s.len() > 0 {
        let t = s.drop_last();
        lemma_split_parts(t, sep);
        lemma_split_on_nonempty(t, sep);
        let r = split_on(t, sep);
        let q = split_on(s, sep);
        assert forall|j: int, i: int| 0 <= j < q.len() && 0 <= i < q[j].len() implies #[trigger] q[j][i] != sep
            && s.contains(q[j][i]) by {
            if s.last() == sep {
                assert(q[j][i] == r[j][i]);
                let k = choose|k: int| 0 <= k < t.len() && t[k] == r[j][i];
                assert(s[k] == t[k]);
            } else if j < r.len() - 1 || i < r[j].len() {
                assert(q[j][i] == r[j][i]);
                let k = choose|k: int| 0 <= k < t.len() && t[k] == r[j][i];
                assert(s[k] == t[k]);
            } else {
                assert(q[j][i] == s.last());
                assert(s[s.len() - 1] == s.last());
            }
        }
    }
}

proof fn lemma_split_append_free(x: Seq<char>, b: Seq<char>, sep: char)
    requires
        forall|i: int| 0 <= i < b.len() ==> b[i] != sep,
    ensures
        split_on(x + b, sep) == split_on(x, sep).update(
            split_on(x, sep).len() - 1,
            split_on(x, sep).last() + b,
        ),
    decreases b.len(),
{
    lemma_split_on_nonempty(x, sep);
    let sx = split_on(x, sep);
    if b.len() == 0 {
        assert(x + b == x);
        assert(sx.last() + b == sx.last());
        assert(sx.update(sx.len() - 1, sx.last()) =~= sx);
    } else {
        let b2 = b.drop_last();
        lemma_split_append_free(x, b2, sep);
        assert((x + b).drop_last() == x + b2);
        assert((x + b).last() == b.last());
        assert(b[b.len() - 1] == b.last());
        assert(sx.last() + b2 + seq![b.last()] == sx.last() + b);
        assert((sx.last() + b2).push(b.last()) == sx.last() + b);
        assert(split_on(x + b, sep) =~= sx.update(sx.len() - 1, sx.last() + b));
    }
}

proof fn lemma_split_join(parts: Seq<Seq<char>>, sep: char)
    requires
        parts.len() >= 1,
        forall|j: int, i: int| 0 <= j < parts.len() && 0 <= i < parts[j].len() ==> #[trigger] parts[j][i] != sep,
    ensures
        split_on(join_with(parts, seq![sep]), sep) == parts,
    decreases parts.len(),
{
    let e = Seq::<char>::empty();
    if parts.len() == 1 {
        lemma_split_append_free(e, parts[0], sep);
        assert(e + parts[0] == parts[0]);
        assert(split_on(e, sep) == seq![e]);
        assert(seq![e].update(0, e + parts[0]) =~= parts);
    } else {
        let t = parts.drop_last();
        let last = parts.last();
        assert forall|j: int, i: int| 0 <= j < t.len() && 0 <= i < t[j].len() implies #[trigger] t[j][i] != sep by {
            assert(t[j] == parts[j]);
        }
        lemma_split_join(t, sep);
        let jt = join_with(t, seq![sep]);
        assert((jt + seq![sep]).drop_last() == jt);
        assert((jt + seq![sep]).last() == sep);
        assert(split_on(jt + seq![sep], sep) == t.push(e));
        assert forall|i: int| 0 <= i < last.len() implies last[i] != sep by {
            assert(parts[parts.len() - 1] == last);
        }
        lemma_split_append_free(jt + seq![sep], last, sep);
        assert(e + last == last);
        assert(t.push(e).update(t.len() as int, e + last) =~= parts);
    }
}

proof fn lemma_join_ws_free(parts: Seq<Seq<char>>, sep: Seq<char>)
    requires
        ws_free(sep),
        forall|j: int| 0 <= j < parts.len() ==> ws_free(#[trigger] parts[j]),
    ensures
        ws_free(join_with(parts, sep)),
    decreases parts.len(),
{
    if parts.len() > 1 {
        let t = parts.drop_last();
        assert forall|j: int| 0 <= j < t.len() implies ws_free(#[trigger] t[j]) by {
            assert(t[j] == parts[j]);
        }
        lemma_join_ws_free(t, sep);
        let a = join_with(t, sep);
        let l = parts.last();
        assert(ws_free(parts[parts.len() - 1]));
        assert forall|i: int| 0 <= i < (a + sep + l).len() implies !is_ws(#[trigger] (a + sep + l)[i]) by {
            if i < a.len() {
                assert((a + sep + l)[i] == a[i]);
            } else if i < a.len() + sep.len() {
                assert((a + sep + l)[i] == sep[i - a.len()]);
            } else {
                assert((a + sep + l)[i] == l[i - a.len() - sep.len()]);
            }
        }
    } else if parts.len() == 1 {
        assert(ws_free(parts[0]));
    }
}

/// Law: route normalization is idempotent, ignores one more trailing slash,
/// and renders a route that is empty after its trailing slashes as `/` (for
/// a route without whitespace, where no trimming is involved).
pub proof fn lemma_normalize_route(route: Seq<char>)
    requires
        ws_free(route),
    ensures
        normalize_route_spec(normalize_route_spec(route)) == normalize_route_spec(route),
        normalize_route_spec(route + seq!['/']) == normalize_route_spec(route),
        trim_end_char(route, '/').len() == 0 ==> normalize_route_spec(route) == seq!['/'],
{
    let slash = seq!['/'];
    assert(!is_ws('/'));
    assert(ws_free(slash));
    lemma_trim_ws_free(route);
    let rs = route + slash;
    assert forall|i: int| 0 <= i < rs.len() implies !is_ws(#[trigger] rs[i]) by {
        if i < route.len() {
            assert(rs[i] == route[i]);
        } else {
            assert(rs[i] == '/');
        }
    }
    lemma_trim_ws_free(rs);
    assert(rs.drop_last() == route);
    assert(rs.last() == '/');
    assert(trim_end_char(rs, '/') == trim_end_char(route, '/'));
    let core = trim_end_char(route, '/');
    lemma_trim_end_char_prefix(route, '/');
    let n = normalize_route_spec(route);
    if core.len() == 0 {
        lemma_trim_ws_free(slash);
        assert(slash.drop_last() =~= Seq::<char>::empty());
        assert(trim_end_char(slash, '/') == trim_end_char(Seq::<char>::empty(), '/'));
    } else {
        let parts = split_on(core, '/');
        let np = parts.map_values(|seg: Seq<char>| normalize_segment(seg));
        lemma_split_parts(core, '/');
        lemma_split_on_nonempty(core, '/');
        assert forall|k: int| 0 <= k < core.len() implies !is_ws(#[trigger] core[k]) by {
            assert(core[k] == route[k]);
        }
        assert forall|j: int, i: int| 0 <= j < np.len() && 0 <= i < np[j].len() implies #[trigger] np[j][i] != '/'
            && !is_ws(np[j][i]) by {
            if is_param_segment(parts[j]) {
                assert(np[j] == seq!['{', '}']);
                assert(!is_ws('{') && !is_ws('}'));
            } else {
                assert(np[j][i] == parts[j][i]);
                assert(parts[j][i] != '/' && core.contains(parts[j][i]));
                let k = choose|k: int| 0 <= k < core.len() && core[k] == parts[j][i];
                assert(!is_ws(core[k]));
            }
        }
        assert forall|j: int| 0 <= j < np.len() implies ws_free(#[trigger] np[j]) by {
            assert forall|i: int| 0 <= i < np[j].len() implies !is_ws(#[trigger] np[j][i]) by {
                assert(np[j][i] != '/' && !is_ws(np[j][i]));
            }
        }
        lemma_join_ws_free(np, slash);
        assert(n == join_with(np, slash));
        lemma_trim_ws_free(n);
        lemma_join_prefix(np, slash);
        let lp = parts.last();
        assert(core.last() != '/');
        assert(lp.len() > 0 && lp.last() == core.last());
        assert(np.last() == normalize_segment(lp));
        assert(np.last().len() > 0 && np.last().last() != '/');
        assert(n.last() == np.last().last());
        assert(trim_end_char(n, '/') == n);
        lemma_split_join(np, '/');
        assert(np.map_values(|seg: Seq<char>| normalize_segment(seg)) =~= np);
    }
}

// ───────────────────────── identity ─────────────────────────

/// What `str::to_uppercase` returns for a string (full Unicode case mapping).
pub uninterp spec fn str_to_uppercase(s: Seq<char>) -> Seq<char>;

/// Calls `str::to_uppercase`. Claimed: the result is the named upper-case
/// mapping of exactly this string, and on an all-ASCII string it maps each
/// ASCII lower-case letter to its upper-case letter and keeps every other
/// character; beyond ASCII the mapping is left unstated.
#[verifier::external_body]
pub(crate) fn to_uppercase(s: &str) -> (r: String)
    ensures
        r@ == str_to_uppercase(s@),
        is_ascii_chars(s@) ==> r@ == ascii_upper(s@),
{
    s.to_uppercase()
}

/// The dedup identity: `(uppercased method, normalized route template, source file)`.
pub struct Identity {
    pub method: String,
    pub route: String,
    pub source_file: String,
}

impl View for Identity {
    type V = (Seq<char>, Seq<char>, Seq<char>);

    open spec fn view(&self) -> (Seq<char>, Seq<char>, Seq<char>) {
        (self.method@, self.route@, self.source_file@)
    }
}

/// Only rows with a concrete route have an identity; a dynamic route never merges.
pub open spec fn identity_spec(x: InputView) -> Option<(Seq<char>, Seq<char>, Seq<char>)> {
    match x.route {
        Some(r) => Some((str_to_uppercase(x.http_method), normalize_route_spec(r), x.source_file)),
        None => None,
    }
}

pub open spec fn opt_identity_view(o: Option<Identity>) -> Option<(Seq<char>, Seq<char>, Seq<char>)> {
    match o {
        Some(i) => Some(i@),
        None => None,
    }
}

/// The dedup identity of an input, if its route is concrete.
pub fn identity_of(input: &HttpSurfaceInput) -> (r: Option<Identity>)
    ensures
        opt_identity_view(r) == identity_spec(input@),
{
    match &input.route {
        Some(route) => Some(
            Identity {
                method: to_uppercase(input.http_method.as_str()),
                route: normalize_route(route.as_str()),
                source_file: input.source_file.clone(),
            },
        ),
        None => None,
    }
}

fn identity_eq(a: &Identity, b: &Identity) -> (r: bool)
    ensures
        r == (a@ == b@),
{
    a.method == b.method && a.route == b.route && a.source_file == b.source_file
}

fn opt_identity_eq(a: &Option<Identity>, b: &Option<Identity>) -> (r: bool)
    ensures
        r == (opt_identity_view(*a) == opt_identity_view(*b)),
{
    match (a, b) {
        (Some(x), Some(y)) => identity_eq(x, y),
        (None, None) => true,
        _ => false,
    }
}

// ───────────────────────── row construction ─────────────────────────

pub open spec fn to_unified_spec(x: InputView, conflict: Option<Seq<char>>) -> UnifiedView {
    UnifiedView {
        direction: x.direction,
        http_method: x.http_method,
        route: x.route,
        source_file: x.source_file,
        line: x.line,
        is_test: x.is_test,
        framework: x.framework,
        route_unknown_reason: x.route_unknown_reason,
        module: None,
        provenance: seq![x.family.label_spec()],
        conflict,
    }
}

fn clone_opt(o: &Option<String>) -> (r: Option<String>)
    ensures
        opt_chars(r) == opt_chars(*o),
{
    match o {
        Some(s) => Some(s.clone()),
        None => None,
    }
}

fn clone_input(x: &HttpSurfaceInput) -> (r: HttpSurfaceInput)
    ensures
        r@ == x@,
{
    HttpSurfaceInput {
        direction: x.direction.clone(),
        http_method: x.http_method.clone(),
        route: clone_opt(&x.route),
        source_file: x.source_file.clone(),
        line: x.line,
        is_test: x.is_test,
        framework: clone_opt(&x.framework),
        route_unknown_reason: clone_opt(&x.route_unknown_reason),
        family: x.family,
    }
}

/// The unified row for one input (no module yet, provenance = its own family).
pub fn to_unified(input: &HttpSurfaceInput, conflict: Option<String>) -> (r: UnifiedHttpSurface)
    ensures
        r@ == to_unified_spec(input@, opt_chars(conflict)),
{
    let mut provenance: Vec<String> = Vec::new();
    provenance.push(owned(input.family.label()));
    proof {
        assert(provenance@.map_values(|s: String| s@) =~= seq![input.family.label_spec()]);
    }
    UnifiedHttpSurface {
        direction: input.direction.clone(),
        http_method: input.http_method.clone(),
        route: clone_opt(&input.route),
        source_file: input.source_file.clone(),
        line: input.line,
        is_test: input.is_test,
        framework: clone_opt(&input.framework),
        route_unknown_reason: clone_opt(&input.route_unknown_reason),
        module: None,
        provenance,
        conflict,
    }
}

/// The richest record: the LAST element of maximal richness (the tie rule of
/// `Iterator::max_by_key`).
pub open spec fn richest(s: Seq<InputView>) -> InputView
    decreases s.len(),
{
    if s.len() <= 1 {
        s[0]
    } else {
        let r = richest(s.drop_last());
        if s.last().family.richness_spec() >= r.family.richness_spec() {
            s.last()
        } else {
            r
        }
    }
}

/// Index of the richest record.
fn richest_index(m: &Vec<HttpSurfaceInput>) -> (k: usize)
    requires
        m.len() > 0,
    ensures
        k < m.len(),
        m@[k as int]@ == richest(inputs_view(m@)),
{
    let ghost v = inputs_view(m@);
    let mut best: usize = 0;
    let mut i: usize = 1;
    assert(v.subrange(0, 1).len() == 1);
    while i < m.len()
        invariant
            1 <= i <= m.len(),
            best < i,
            v == inputs_view(m@),
            m@[best as int]@ == richest(v.subrange(0, i as int)),
        decreases m.len() - i,
    {
        proof {
            assert(v.subrange(0, i + 1).drop_last() == v.subrange(0, i as int));
            assert(v.subrange(0, i + 1).last() == m@[i as int]@);
        }
        if m[i].family.richness() >= m[best].family.richness() {
            best = i;
        }
        i = i + 1;
    }
    assert(v.subrange(0, m.len() as int) == v);
    best
}

/// The first `Some` of a sequence of options.
pub open spec fn first_some<T>(s: Seq<Option<T>>) -> Option<T>
    decreases s.len(),
{
    if s.len() == 0 {
        None
    } else if first_some(s.drop_last()) is Some {
        first_some(s.drop_last())
    } else {
        s.last()
    }
}

/// `a` if present, else back-filled from the first present value of `s`.
pub open spec fn backfill<T>(a: Option<T>, s: Seq<Option<T>>) -> Option<T> {
    if a is Some {
        a
    } else {
        first_some(s)
    }
}

/// Whether some record of `s` comes from family `f`.
pub open spec fn has_family(s: Seq<InputView>, f: HttpSurfaceFamily) -> bool
    decreases s.len(),
{
    s.len() > 0 && (s.last().family == f || has_family(s.drop_last(), f))
}

/// The sorted, deduplicated family labels of a group.
pub open spec fn provenance_of(s: Seq<InputView>) -> Seq<Seq<char>> {
    if has_family(s, HttpSurfaceFamily::Boundary) && has_family(s, HttpSurfaceFamily::Project) {
        seq!["boundary"@, "project_surfaces"@]
    } else if has_family(s, HttpSurfaceFamily::Boundary) {
        seq!["boundary"@]
    } else if has_family(s, HttpSurfaceFamily::Project) {
        seq!["project_surfaces"@]
    } else {
        Seq::<Seq<char>>::empty()
    }
}

/// A same-direction group rendered once: the richest record, with every
/// missing label back-filled from the group (in record order) and the union of
/// the families as provenance.
pub open spec fn merged(m: Seq<InputView>) -> UnifiedView {
    let r = richest(m);
    UnifiedView {
        direction: r.direction,
        http_method: r.http_method,
        route: backfill(r.route, m.map_values(|x: InputView| x.route)),
        source_file: r.source_file,
        line: backfill(r.line, m.map_values(|x: InputView| x.line)),
        is_test: backfill(r.is_test, m.map_values(|x: InputView| x.is_test)),
        framework: backfill(r.framework, m.map_values(|x: InputView| x.framework)),
        route_unknown_reason: backfill(
            r.route_unknown_reason,
            m.map_values(|x: InputView| x.route_unknown_reason),
        ),
        module: None,
        provenance: provenance_of(m),
        conflict: None,
    }
}

proof fn lemma_first_some<T>(s: Seq<Option<T>>, i: int)
    requires
        0 <= i < s.len(),
        s[i] is Some,
    ensures
        first_some(s) is Some,
    decreases s.len(),
{
    if i < s.len() - 1 {
        let t = s.drop_last();
        assert(t[i] == s[i]);
        lemma_first_some(t, i);
    }
}

proof fn lemma_has_family(s: Seq<InputView>, i: int)
    requires
        0 <= i < s.len(),
    ensures
        has_family(s, s[i].family),
    decreases s.len(),
{
    if i < s.len() - 1 {
        let t = s.drop_last();
        assert(t[i] == s[i]);
        lemma_has_family(t, i);
    }
}

proof fn lemma_first_some_from<T>(s: Seq<Option<T>>)
    ensures
        first_some(s) is Some ==> exists|i: int| 0 <= i < s.len() && #[trigger] s[i] is Some,
    decreases s.len(),
{
    if s.len() > 0 {
        let t = s.drop_last();
        lemma_first_some_from(t);
        if first_some(t) is Some {
            let i = choose|i: int| 0 <= i < t.len() && #[trigger] t[i] is Some;
            assert(s[i] == t[i]);
        } else if s.last() is Some {
            assert(s[s.len() - 1] is Some);
        }
    }
}

proof fn lemma_richest_prefers_boundary(s: Seq<InputView>)
    requires
        s.len() > 0,
    ensures
        has_family(s, HttpSurfaceFamily::Boundary) ==> richest(s).family == HttpSurfaceFamily::Boundary,
    decreases s.len(),
{
    let t = s.drop_last();
    if s.len() > 1 {
        lemma_richest_prefers_boundary(t);
        match s.last().family {
            HttpSurfaceFamily::Boundary => {
                assert(s.last().family.richness_spec() == 1);
            },
            HttpSurfaceFamily::Project => {
                if has_family(s, HttpSurfaceFamily::Boundary) {
                    assert(has_family(t, HttpSurfaceFamily::Boundary));
                    assert(richest(t).family.richness_spec() == 1);
                }
            },
        }
    } else {
        assert(t.len() == 0);
        assert(!has_family(t, HttpSurfaceFamily::Boundary));
        assert(s.last() == s[0]);
    }
}

proof fn lemma_has_family_from(s: Seq<InputView>, f: HttpSurfaceFamily)
    ensures
        has_family(s, f) ==> exists|i: int| 0 <= i < s.len() && (#[trigger] s[i]).family == f,
    decreases s.len(),
{
    if s.len() > 0 {
        let t = s.drop_last();
        lemma_has_family_from(t, f);
        if has_family(t, f) {
            let i = choose|i: int| 0 <= i < t.len() && (#[trigger] t[i]).family == f;
            assert(s[i] == t[i]);
        } else if s.last().family == f {
            assert(s[s.len() - 1].family == f);
        }
    }
}

/// Law: merging records of one identity and one direction loses no fact and
/// invents none. Each label is on the merged row iff some record has it
/// (back-filled when the richest record lacks it); the provenance is the
/// ascending, repeat-free list of exactly the records' families; the row is
/// a record of the group, a boundary record whenever the group has one.
pub proof fn lemma_merged_facts(m: Seq<InputView>)
    requires
        m.len() > 0,
    ensures
        merged(m).route is Some <==> exists|i: int| 0 <= i < m.len() && (#[trigger] m[i]).route is Some,
        merged(m).line is Some <==> exists|i: int| 0 <= i < m.len() && (#[trigger] m[i]).line is Some,
        merged(m).is_test is Some <==> exists|i: int| 0 <= i < m.len() && (#[trigger] m[i]).is_test is Some,
        merged(m).framework is Some <==> exists|i: int| 0 <= i < m.len() && (#[trigger] m[i]).framework is Some,
        merged(m).route_unknown_reason is Some <==> exists|i: int|
            0 <= i < m.len() && (#[trigger] m[i]).route_unknown_reason is Some,
        forall|i: int| 0 <= i < m.len() ==> merged(m).provenance.contains((#[trigger] m[i]).family.label_spec()),
        forall|l: Seq<char>|
            #[trigger] merged(m).provenance.contains(l) ==> exists|i: int|
                0 <= i < m.len() && (#[trigger] m[i]).family.label_spec() == l,
        strictly_sorted(merged(m).provenance),
        m.contains(richest(m)),
        merged(m).direction == richest(m).direction,
        merged(m).http_method == richest(m).http_method,
        merged(m).source_file == richest(m).source_file,
        has_family(m, HttpSurfaceFamily::Boundary) ==> richest(m).family == HttpSurfaceFamily::Boundary,
{
    lemma_richest_in(m);
    lemma_richest_prefers_boundary(m);
    let rr = richest(m);
    let kr = choose|k: int| 0 <= k < m.len() && m[k] == rr;
    let rs = m.map_values(|x: InputView| x.route);
    let ls = m.map_values(|x: InputView| x.line);
    let ts = m.map_values(|x: InputView| x.is_test);
    let fs = m.map_values(|x: InputView| x.framework);
    let us = m.map_values(|x: InputView| x.route_unknown_reason);
    lemma_first_some_from(m.map_values(|x: InputView| x.route));
    lemma_first_some_from(m.map_values(|x: InputView| x.line));
    lemma_first_some_from(m.map_values(|x: InputView| x.is_test));
    lemma_first_some_from(m.map_values(|x: InputView| x.framework));
    lemma_first_some_from(m.map_values(|x: InputView| x.route_unknown_reason));
    assert forall|i: int| 0 <= i < m.len() && (#[trigger] m[i]).route is Some implies merged(m).route is Some by {
        lemma_first_some(m.map_values(|x: InputView| x.route), i);
    }
    assert forall|i: int| 0 <= i < m.len() && (#[trigger] m[i]).line is Some implies merged(m).line is Some by {
        lemma_first_some(m.map_values(|x: InputView| x.line), i);
    }
    assert forall|i: int| 0 <= i < m.len() && (#[trigger] m[i]).is_test is Some implies merged(m).is_test is Some by {
        lemma_first_some(m.map_values(|x: InputView| x.is_test), i);
    }
    assert forall|i: int| 0 <= i < m.len() && (#[trigger] m[i]).framework is Some implies merged(m).framework is Some by {
        lemma_first_some(m.map_values(|x: InputView| x.framework), i);
    }
    assert forall|i: int| 0 <= i < m.len() && (#[trigger] m[i]).route_unknown_reason is Some implies merged(
        m,
    ).route_unknown_reason is Some by {
        lemma_first_some(m.map_values(|x: InputView| x.route_unknown_reason), i);
    }
    if merged(m).route is Some {
        if rr.route is Some {
            assert(m[kr].route is Some);
        } else {
            let i = choose|i: int| 0 <= i < m.len() && #[trigger] rs[i] is Some;
            assert(m[i].route is Some);
        }
    }
    if merged(m).line is Some {
        if rr.line is Some {
            assert(m[kr].line is Some);
        } else {
            let i = choose|i: int| 0 <= i < m.len() && #[trigger] ls[i] is Some;
            assert(m[i].line is Some);
        }
    }
    if merged(m).is_test is Some {
        if rr.is_test is Some {
            assert(m[kr].is_test is Some);
        } else {
            let i = choose|i: int| 0 <= i < m.len() && #[trigger] ts[i] is Some;
            assert(m[i].is_test is Some);
        }
    }
    if merged(m).framework is Some {
        if rr.framework is Some {
            assert(m[kr].framework is Some);
        } else {
            let i = choose|i: int| 0 <= i < m.len() && #[trigger] fs[i] is Some;
            assert(m[i].framework is Some);
        }
    }
    if merged(m).route_unknown_reason is Some {
        if rr.route_unknown_reason is Some {
            assert(m[kr].route_unknown_reason is Some);
        } else {
            let i = choose|i: int|
                0 <= i < m.len() && #[trigger] us[i] is Some;
            assert(m[i].route_unknown_reason is Some);
        }
    }
    let p = merged(m).provenance;
    reveal_strlit("boundary");
    reveal_strlit("project_surfaces");
    assert(seq_lt("boundary"@, "project_surfaces"@));
    assert forall|i: int| 0 <= i < m.len() implies p.contains((#[trigger] m[i]).family.label_spec()) by {
        lemma_has_family(m, i);
        match m[i].family {
            HttpSurfaceFamily::Boundary => {
                assert(p[0] == "boundary"@);
            },
            HttpSurfaceFamily::Project => {
                if has_family(m, HttpSurfaceFamily::Boundary) {
                    assert(p[1] == "project_surfaces"@);
                } else {
                    assert(p[0] == "project_surfaces"@);
                }
            },
        }
    }
    lemma_has_family_from(m, HttpSurfaceFamily::Boundary);
    lemma_has_family_from(m, HttpSurfaceFamily::Project);
    assert forall|l: Seq<char>| #[trigger] p.contains(l) implies exists|i: int|
        0 <= i < m.len() && (#[trigger] m[i]).family.label_spec() == l by {
        let j = choose|j: int| 0 <= j < p.len() && p[j] == l;
        if l == "boundary"@ {
            let i = choose|i: int| 0 <= i < m.len() && (#[trigger] m[i]).family == HttpSurfaceFamily::Boundary;
            assert(m[i].family.label_spec() == l);
        } else {
            let i = choose|i: int| 0 <= i < m.len() && (#[trigger] m[i]).family == HttpSurfaceFamily::Project;
            assert(m[i].family.label_spec() == l);
        }
    }
}

proof fn lemma_dir_members_all(m: Seq<InputView>, d: Seq<char>)
    requires
        forall|y: InputView| #[trigger] m.contains(y) ==> y.direction == d,
    ensures
        dir_members(m, d) == m,
    decreases m.len(),
{
    if m.len() > 0 {
        let t = m.drop_last();
        assert forall|y: InputView| #[trigger] t.contains(y) implies y.direction == d by {
            let k = choose|k: int| 0 <= k < t.len() && t[k] == y;
            assert(m[k] == y);
            assert(m.contains(y));
        }
        assert(m.contains(m[m.len() - 1]));
        lemma_dir_members_all(t, d);
        assert(m[m.len() - 1] == m.last());
        assert(m == t.push(m.last()));
    }
}

/// Law: every record of a dedup group is rendered by the merge of all the
/// group's records of its direction, so a conflict never costs a direction
/// any of its facts ([`lemma_merged_facts`]); the row is labeled iff the
/// group's directions conflict.
pub proof fn lemma_group_row_per_direction(m: Seq<InputView>, x: InputView)
    requires
        m.contains(x),
    ensures
        exists|r: UnifiedView|
            #[trigger] group_rows(m).contains(r) && r == (UnifiedView {
                conflict: r.conflict,
                ..merged(dir_members(m, x.direction))
            }) && (r.conflict is Some <==> sort_distinct(directions_of(m)).len() > 1),
{
    let ds = directions_of(m);
    let dirs = sort_distinct(ds);
    lemma_sort_distinct(ds);
    let kx = choose|k: int| 0 <= k < m.len() && m[k] == x;
    assert(ds[kx] == x.direction);
    assert(ds.contains(x.direction));
    assert(dirs.contains(x.direction));
    if dirs.len() <= 1 {
        assert forall|y: InputView| #[trigger] m.contains(y) implies y.direction == x.direction by {
            let k = choose|k: int| 0 <= k < m.len() && m[k] == y;
            assert(ds[k] == y.direction);
            assert(dirs.contains(y.direction));
            assert(dirs[0] == y.direction);
            assert(dirs[0] == x.direction);
        }
        lemma_dir_members_all(m, x.direction);
        let r = merged(m);
        assert(group_rows(m) == seq![r]);
        assert(group_rows(m)[0] == r);
        assert(group_rows(m).contains(r));
    } else {
        let k = choose|k: int| 0 <= k < dirs.len() && dirs[k] == x.direction;
        lemma_dir_members(m, x.direction, x);
        assert(dir_members(m, x.direction).len() > 0);
        lemma_conflict_rows_has(m, dirs, dirs.len(), k);
        let r = conflict_row(m, dirs, dirs[k]);
        assert(group_rows(m).contains(r));
    }
}

fn provenance_exec(m: &Vec<HttpSurfaceInput>) -> (r: Vec<String>)
    ensures
        r@.map_values(|s: String| s@) == provenance_of(inputs_view(m@)),
{
    let ghost v = inputs_view(m@);
    let mut hb = false;
    let mut hp = false;
    let mut i: usize = 0;
    while i < m.len()
        invariant
            i <= m.len(),
            v == inputs_view(m@),
            hb == has_family(v.subrange(0, i as int), HttpSurfaceFamily::Boundary),
            hp == has_family(v.subrange(0, i as int), HttpSurfaceFamily::Project),
        decreases m.len() - i,
    {
        proof {
            assert(v.subrange(0, i + 1).drop_last() == v.subrange(0, i as int));
            assert(v.subrange(0, i + 1).last() == m@[i as int]@);
        }
        match m[i].family {
            HttpSurfaceFamily::Boundary => {
                hb = true;
            },
            HttpSurfaceFamily::Project => {
                hp = true;
            },
        }
        i = i + 1;
    }
    assert(v.subrange(0, m.len() as int) == v);
    let mut r: Vec<String> = Vec::new();
    if hb {
        r.push(owned("boundary"));
    }
    if hp {
        r.push(owned("project_surfaces"));
    }
    proof {
        assert(r@.map_values(|s: String| s@) =~= provenance_of(v));
    }
    r
}

fn merged_exec(m: &Vec<HttpSurfaceInput>) -> (r: UnifiedHttpSurface)
    requires
        m.len() > 0,
    ensures
        r@ == merged(inputs_view(m@)),
{
    let ghost v = inputs_view(m@);
    let k = richest_index(m);
    let mut row = to_unified(&m[k], None);
    let mut i: usize = 0;
    while i < m.len()
        invariant
            i <= m.len(),
            k < m.len(),
            v == inputs_view(m@),
            m@[k as int]@ == richest(v),
            row.direction@ == m@[k as int].direction@,
            row.http_method@ == m@[k as int].http_method@,
            row.source_file@ == m@[k as int].source_file@,
            row.module is None,
            row.conflict is None,
            opt_chars(row.route) == backfill(
                opt_chars(m@[k as int].route),
                v.subrange(0, i as int).map_values(|x: InputView| x.route),
            ),
            row.line == backfill(m@[k as int].line, v.subrange(0, i as int).map_values(|x: InputView| x.line)),
            row.is_test == backfill(
                m@[k as int].is_test,
                v.subrange(0, i as int).map_values(|x: InputView| x.is_test),
            ),
            opt_chars(row.framework) == backfill(
                opt_chars(m@[k as int].framework),
                v.subrange(0, i as int).map_values(|x: InputView| x.framework),
            ),
            opt_chars(row.route_unknown_reason) == backfill(
                opt_chars(m@[k as int].route_unknown_reason),
                v.subrange(0, i as int).map_values(|x: InputView| x.route_unknown_reason),
            ),
        decreases m.len() - i,
    {
        let ghost pre = v.subrange(0, i as int);
        let ghost post = v.subrange(0, i + 1);
        proof {
            assert(post.drop_last() == pre);
            assert(post.last() == m@[i as int]@);
            assert(post.map_values(|x: InputView| x.route).drop_last() == pre.map_values(|x: InputView| x.route));
            assert(post.map_values(|x: InputView| x.line).drop_last() == pre.map_values(|x: InputView| x.line));
            assert(post.map_values(|x: InputView| x.is_test).drop_last() == pre.map_values(|x: InputView| x.is_test));
            assert(post.map_values(|x: InputView| x.framework).drop_last() == pre.map_values(|x: InputView| x.framework));
            assert(post.map_values(|x: InputView| x.route_unknown_reason).drop_last() == pre.map_values(|x: InputView| x.route_unknown_reason));
        }
        let other = &m[i];
        if row.is_test.is_none() {
            row.is_test = other.is_test;
        }
        if row.framework.is_none() {
            row.framework = clone_opt(&other.framework);
        }
        if row.route_unknown_reason.is_none() {
            row.route_unknown_reason = clone_opt(&other.route_unknown_reason);
        }
        if row.route.is_none() {
            row.route = clone_opt(&other.route);
        }
        if row.line.is_none() {
            row.line = other.line;
        }
        i = i + 1;
    }
    assert(v.subrange(0, m.len() as int) == v);
    row.provenance = provenance_exec(m);
    row
}

// ───────────────────────── groups ─────────────────────────

/// The members of `m` recorded with direction `d`, in order.
pub open spec fn dir_members(m: Seq<InputView>, d: Seq<char>) -> Seq<InputView>
    decreases m.len(),
{
    if m.len() == 0 {
        Seq::<InputView>::empty()
    } else {
        let r = dir_members(m.drop_last(), d);
        if m.last().direction == d {
            r.push(m.last())
        } else {
            r
        }
    }
}

/// `s` without the elements equal to `d`, in order.
pub open spec fn without(s: Seq<Seq<char>>, d: Seq<char>) -> Seq<Seq<char>>
    decreases s.len(),
{
    if s.len() == 0 {
        Seq::<Seq<char>>::empty()
    } else {
        let r = without(s.drop_last(), d);
        if s.last() == d {
            r
        } else {
            r.push(s.last())
        }
    }
}

/// The label a conflicting row carries: the other directions its identity was
/// recorded with, and the families involved.
pub open spec fn conflict_label(dirs: Seq<Seq<char>>, d: Seq<char>, m: Seq<InputView>) -> Seq<char> {
    "identity also recorded as "@ + join_with(without(dirs, d), ", "@) + " (families: "@
        + join_with(provenance_of(m), ", "@) + ")"@
}

/// The labeled row of direction `d` in a conflicting group: the records of
/// that direction merged as a same-direction group is (richest record,
/// back-filled labels, union of their families), carrying the conflict label.
pub open spec fn conflict_row(m: Seq<InputView>, dirs: Seq<Seq<char>>, d: Seq<char>) -> UnifiedView {
    UnifiedView { conflict: Some(conflict_label(dirs, d, m)), ..merged(dir_members(m, d)) }
}

/// One labeled row per direction, merged over that direction's records.
pub open spec fn conflict_rows(m: Seq<InputView>, dirs: Seq<Seq<char>>, n: nat) -> Seq<UnifiedView>
    decreases n,
{
    if n == 0 {
        Seq::<UnifiedView>::empty()
    } else {
        let d = dirs[n - 1];
        let dm = dir_members(m, d);
        conflict_rows(m, dirs, (n - 1) as nat) + (if dm.len() > 0 {
            seq![conflict_row(m, dirs, d)]
        } else {
            Seq::<UnifiedView>::empty()
        })
    }
}

pub open spec fn directions_of(m: Seq<InputView>) -> Seq<Seq<char>> {
    m.map_values(|x: InputView| x.direction)
}

/// The rows a dedup group renders: once when all its records share a
/// direction; once per direction, each labeled, when directions conflict.
pub open spec fn group_rows(m: Seq<InputView>) -> Seq<UnifiedView> {
    let dirs = sort_distinct(directions_of(m));
    if dirs.len() <= 1 {
        seq![merged(m)]
    } else {
        conflict_rows(m, dirs, dirs.len())
    }
}

fn sorted_directions(m: &Vec<HttpSurfaceInput>) -> (r: Vec<Vec<char>>)
    ensures
        chars_views(r@) == sort_distinct(directions_of(inputs_view(m@))),
{
    let ghost v = inputs_view(m@);
    let mut r: Vec<Vec<char>> = Vec::new();
    let mut i: usize = 0;
    while i < m.len()
        invariant
            i <= m.len(),
            v == inputs_view(m@),
            chars_views(r@) == sort_distinct(directions_of(v.subrange(0, i as int))),
        decreases m.len() - i,
    {
        proof {
            assert(directions_of(v.subrange(0, i + 1)).drop_last() == directions_of(v.subrange(0, i as int)));
            assert(directions_of(v.subrange(0, i + 1)).last() == m@[i as int].direction@);
        }
        let d = chars_of(m[i].direction.as_str());
        insert_distinct(&mut r, d);
        i = i + 1;
    }
    assert(v.subrange(0, m.len() as int) == v);
    r
}

fn members_with_direction(m: &Vec<HttpSurfaceInput>, d: &Vec<char>) -> (r: Vec<HttpSurfaceInput>)
    ensures
        inputs_view(r@) == dir_members(inputs_view(m@), d@),
{
    let ghost v = inputs_view(m@);
    let mut r: Vec<HttpSurfaceInput> = Vec::new();
    let mut i: usize = 0;
    while i < m.len()
        invariant
            i <= m.len(),
            v == inputs_view(m@),
            inputs_view(r@) == dir_members(v.subrange(0, i as int), d@),
        decreases m.len() - i,
    {
        proof {
            assert(v.subrange(0, i + 1).drop_last() == v.subrange(0, i as int));
            assert(v.subrange(0, i + 1).last() == m@[i as int]@);
        }
        let di = chars_of(m[i].direction.as_str());
        if chars_eq(&di, d) {
            r.push(clone_input(&m[i]));
            proof {
                assert(inputs_view(r@) =~= dir_members(v.subrange(0, i as int), d@).push(m@[i as int]@));
            }
        }
        i = i + 1;
    }
    assert(v.subrange(0, m.len() as int) == v);
    r
}

fn without_exec(s: &Vec<Vec<char>>, d: &Vec<char>) -> (r: Vec<Vec<char>>)
    ensures
        chars_views(r@) == without(chars_views(s@), d@),
{
    let ghost v = chars_views(s@);
    let mut r: Vec<Vec<char>> = Vec::new();
    let mut i: usize = 0;
    while i < s.len()
        invariant
            i <= s.len(),
            v == chars_views(s@),
            chars_views(r@) == without(v.subrange(0, i as int), d@),
        decreases s.len() - i,
    {
        proof {
            assert(v.subrange(0, i + 1).drop_last() == v.subrange(0, i as int));
            assert(v.subrange(0, i + 1).last() == s@[i as int]@);
        }
        if !chars_eq(&s[i], d) {
            let mut c: Vec<char> = Vec::new();
            push_chars(&mut c, &s[i]);
            r.push(c);
            proof {
                assert(chars_views(r@) =~= without(v.subrange(0, i as int), d@).push(s@[i as int]@));
            }
        }
        i = i + 1;
    }
    assert(v.subrange(0, s.len() as int) == v);
    r
}

fn conflict_label_exec(dirs: &Vec<Vec<char>>, d: &Vec<char>, m: &Vec<HttpSurfaceInput>) -> (r: String)
    ensures
        r@ == conflict_label(chars_views(dirs@), d@, inputs_view(m@)),
{
    let sep = chars_of(", ");
    let others = without_exec(dirs, d);
    let fams = strings_to_chars(&provenance_exec(m));
    let mut out = chars_of("identity also recorded as ");
    push_chars(&mut out, &join_chars(&others, &sep));
    push_str(&mut out, " (families: ");
    push_chars(&mut out, &join_chars(&fams, &sep));
    push_str(&mut out, ")");
    string_of(&out)
}

fn group_rows_exec(m: &Vec<HttpSurfaceInput>) -> (r: Vec<UnifiedHttpSurface>)
    requires
        m.len() > 0,
    ensures
        rows_view(r@) == group_rows(inputs_view(m@)),
{
    let ghost v = inputs_view(m@);
    let dirs = sorted_directions(m);
    let ghost dv = chars_views(dirs@);
    let mut r: Vec<UnifiedHttpSurface> = Vec::new();
    if dirs.len() <= 1 {
        r.push(merged_exec(m));
        proof {
            assert(rows_view(r@) =~= seq![merged(v)]);
        }
        return r;
    }
    let mut i: usize = 0;
    while i < dirs.len()
        invariant
            i <= dirs.len(),
            v == inputs_view(m@),
            dv == chars_views(dirs@),
            rows_view(r@) == conflict_rows(v, dv, i as nat),
        decreases dirs.len() - i,
    {
        let dm = members_with_direction(m, &dirs[i]);
        if dm.len() > 0 {
            let label = conflict_label_exec(&dirs, &dirs[i], m);
            let mut row = merged_exec(&dm);
            row.conflict = Some(label);
            r.push(row);
            proof {
                assert(rows_view(r@) =~= conflict_rows(v, dv, i as nat).push(row@));
            }
        } else {
            proof {
                assert(conflict_rows(v, dv, (i + 1) as nat) =~= conflict_rows(v, dv, i as nat));
            }
        }
        i = i + 1;
    }
    r
}

// ───────────────────────── module ownership ─────────────────────────

pub open spec fn pairs_view(s: Seq<(String, String)>) -> Seq<(Seq<char>, Seq<char>)> {
    s.map_values(|p: (String, String)| (p.0@, p.1@))
}

/// The map built by inserting the pairs in order (a later pair wins).
pub open spec fn pairs_map(s: Seq<(Seq<char>, Seq<char>)>) -> Map<Seq<char>, Seq<char>>
    decreases s.len(),
{
    if s.len() == 0 {
        Map::<Seq<char>, Seq<char>>::empty()
    } else {
        pairs_map(s.drop_last()).insert(s.last().0, s.last().1)
    }
}

pub open spec fn lookup_module(mm: Map<Seq<char>, Seq<char>>, f: Seq<char>) -> Option<Seq<char>> {
    if mm.contains_key(f) {
        Some(mm[f])
    } else {
        None
    }
}

proof fn lemma_pairs_map_skip(s: Seq<(Seq<char>, Seq<char>)>, f: Seq<char>, k: int)
    requires
        0 <= k <= s.len(),
        forall|i: int| k <= i < s.len() ==> (#[trigger] s[i]).0 != f,
    ensures
        lookup_module(pairs_map(s), f) == lookup_module(pairs_map(s.subrange(0, k)), f),
    decreases s.len() - k,
{
    if k == s.len() {
        assert(s.subrange(0, k) == s);
    } else {
        let t = s.drop_last();
        assert forall|i: int| k <= i < t.len() implies (#[trigger] t[i]).0 != f by {
            assert(t[i] == s[i]);
        }
        lemma_pairs_map_skip(t, f, k);
        assert(t.subrange(0, k) == s.subrange(0, k));
        assert(s.last().0 != f);
    }
}

fn lookup_pairs(pairs: &Vec<(String, String)>, f: &String) -> (r: Option<String>)
    ensures
        opt_chars(r) == lookup_module(pairs_map(pairs_view(pairs@)), f@),
{
    let ghost s = pairs_view(pairs@);
    let mut k: usize = pairs.len();
    while k > 0
        invariant
            k <= pairs.len(),
            s == pairs_view(pairs@),
            forall|i: int| k <= i < s.len() ==> (#[trigger] s[i]).0 != f@,
        decreases k,
    {
        if pairs[k - 1].0 == *f {
            proof {
                lemma_pairs_map_skip(s, f@, k as int);
                assert(s.subrange(0, k as int).drop_last() == s.subrange(0, k - 1));
                assert(s.subrange(0, k as int).last() == s[k - 1]);
            }
            return Some(pairs[k - 1].1.clone());
        }
        k = k - 1;
    }
    proof {
        lemma_pairs_map_skip(s, f@, 0);
        assert(s.subrange(0, 0) =~= Seq::<(Seq<char>, Seq<char>)>::empty());
    }
    None
}

pub open spec fn with_module(r: UnifiedView, mm: Map<Seq<char>, Seq<char>>) -> UnifiedView {
    UnifiedView { module: lookup_module(mm, r.source_file), ..r }
}

pub open spec fn attach_modules(rows: Seq<UnifiedView>, mm: Map<Seq<char>, Seq<char>>) -> Seq<UnifiedView> {
    rows.map_values(|r: UnifiedView| with_module(r, mm))
}

// ───────────────────────── ordering of rows ─────────────────────────

pub open spec fn opt_seq_lt(a: Option<Seq<char>>, b: Option<Seq<char>>) -> bool {
    match (a, b) {
        (None, Some(_)) => true,
        (Some(x), Some(y)) => seq_lt(x, y),
        _ => false,
    }
}

/// The rendering order: `(direction, http_method, route, source_file)`.
pub open spec fn row_lt(a: UnifiedView, b: UnifiedView) -> bool {
    seq_lt(a.direction, b.direction) || (a.direction == b.direction && (seq_lt(
        a.http_method,
        b.http_method,
    ) || (a.http_method == b.http_method && (opt_seq_lt(a.route, b.route) || (a.route == b.route
        && seq_lt(a.source_file, b.source_file))))))
}

fn opt_lt_exec(a: &Option<String>, b: &Option<String>) -> (r: bool)
    ensures
        r == opt_seq_lt(opt_chars(*a), opt_chars(*b)),
{
    match (a, b) {
        (None, Some(_)) => true,
        (Some(x), Some(y)) => str_lt(x.as_str(), y.as_str()),
        _ => false,
    }
}

fn opt_eq_exec(a: &Option<String>, b: &Option<String>) -> (r: bool)
    ensures
        r == (opt_chars(*a) == opt_chars(*b)),
{
    match (a, b) {
        (None, None) => true,
        (Some(x), Some(y)) => *x == *y,
        _ => false,
    }
}

fn row_lt_exec(a: &UnifiedHttpSurface, b: &UnifiedHttpSurface) -> (r: bool)
    ensures
        r == row_lt(a@, b@),
{
    if str_lt(a.direction.as_str(), b.direction.as_str()) {
        return true;
    }
    if a.direction != b.direction {
        return false;
    }
    if str_lt(a.http_method.as_str(), b.http_method.as_str()) {
        return true;
    }
    if a.http_method != b.http_method {
        return false;
    }
    if opt_lt_exec(&a.route, &b.route) {
        return true;
    }
    if !opt_eq_exec(&a.route, &b.route) {
        return false;
    }
    str_lt(a.source_file.as_str(), b.source_file.as_str())
}

/// Insert `x` after every element it does not precede (a stable insertion).
pub open spec fn ins_sorted(s: Seq<UnifiedView>, x: UnifiedView) -> Seq<UnifiedView>
    decreases s.len(),
{
    if s.len() == 0 || !row_lt(x, s.last()) {
        s.push(x)
    } else {
        ins_sorted(s.drop_last(), x).push(s.last())
    }
}

/// Stable sort by [`row_lt`].
pub open spec fn sort_rows(s: Seq<UnifiedView>) -> Seq<UnifiedView>
    decreases s.len(),
{
    if s.len() == 0 {
        Seq::<UnifiedView>::empty()
    } else {
        ins_sorted(sort_rows(s.drop_last()), s.last())
    }
}

proof fn lemma_ins_sorted_walk(s: Seq<UnifiedView>, x: UnifiedView, j: int)
    requires
        0 <= j <= s.len(),
        forall|k: int| j <= k < s.len() ==> row_lt(x, #[trigger] s[k]),
    ensures
        ins_sorted(s, x) == ins_sorted(s.subrange(0, j), x) + s.subrange(j, s.len() as int),
    decreases s.len() - j,
{
    if j == s.len() {
        assert(s.subrange(0, j) == s);
        assert(s.subrange(j, s.len() as int) =~= Seq::<UnifiedView>::empty());
    } else {
        let t = s.drop_last();
        assert(row_lt(x, s[s.len() - 1]));
        assert forall|k: int| j <= k < t.len() implies row_lt(x, #[trigger] t[k]) by {
            assert(t[k] == s[k]);
        }
        lemma_ins_sorted_walk(t, x, j);
        assert(t.subrange(0, j) == s.subrange(0, j));
        assert(s.subrange(j, s.len() as int) == t.subrange(j, t.len() as int).push(s.last()));
    }
}

fn insert_sorted(v: &mut Vec<UnifiedHttpSurface>, x: UnifiedHttpSurface)
    ensures
        rows_view(final(v)@) == ins_sorted(rows_view(old(v)@), x@),
{
    let ghost s = rows_view(v@);
    let mut j: usize = v.len();
    while j > 0 && row_lt_exec(&x, &v[j - 1])
        invariant
            j <= v.len(),
            s == rows_view(v@),
            forall|k: int| j <= k < s.len() ==> row_lt(x@, #[trigger] s[k]),
        decreases j,
    {
        j = j - 1;
    }
    proof {
        lemma_ins_sorted_walk(s, x@, j as int);
        if j > 0 {
            assert(s.subrange(0, j as int).last() == s[j - 1]);
        }
    }
    let ghost xv = x@;
    v.insert(j, x);
    proof {
        assert(rows_view(v@) =~= ins_sorted(s.subrange(0, j as int), xv) + s.subrange(j as int, s.len() as int));
    }
}

fn sort_rows_exec(v: Vec<UnifiedHttpSurface>) -> (r: Vec<UnifiedHttpSurface>)
    ensures
        rows_view(r@) == sort_rows(rows_view(v@)),
{
    let ghost orig = rows_view(v@);
    let mut rest = v;
    let total = rest.len();
    let mut sorted: Vec<UnifiedHttpSurface> = Vec::new();
    let mut k: usize = 0;
    while rest.len() > 0
        invariant
            k + rest.len() == orig.len(),
            orig.len() == total,
            rows_view(rest@) == orig.subrange(k as int, orig.len() as int),
            rows_view(sorted@) == sort_rows(orig.subrange(0, k as int)),
        decreases rest.len(),
    {
        let ghost before = rest@;
        let x = rest.remove(0);
        proof {
            assert(rows_view(before)[0] == before[0]@);
            assert(orig.subrange(k as int, orig.len() as int)[0] == orig[k as int]);
            assert(x@ == orig[k as int]);
            assert(rest@ == before.remove(0));
            assert forall|t: int| 0 <= t < rest.len() implies rows_view(rest@)[t] == orig.subrange(k + 1, orig.len() as int)[t] by {
                assert(rest@[t] == before[t + 1]);
                assert(rows_view(before)[t + 1] == orig.subrange(k as int, orig.len() as int)[t + 1]);
            }
            assert(rows_view(rest@) =~= orig.subrange(k + 1, orig.len() as int));
            assert(orig.subrange(0, k + 1).drop_last() == orig.subrange(0, k as int));
            assert(orig.subrange(0, k + 1).last() == orig[k as int]);
        }
        insert_sorted(&mut sorted, x);
        k = k + 1;
    }
    assert(orig.subrange(0, k as int) == orig);
    sorted
}

/// Rows in rendering order: no row precedes one placed before it.
pub open spec fn rows_sorted(s: Seq<UnifiedView>) -> bool {
    forall|i: int, j: int| 0 <= i < j < s.len() ==> !row_lt(#[trigger] s[j], #[trigger] s[i])
}

/// The part of a row that decides its place in the rendering order.
pub open spec fn row_key(r: UnifiedView) -> (Seq<char>, Seq<char>, Option<Seq<char>>, Seq<char>) {
    (r.direction, r.http_method, r.route, r.source_file)
}

proof fn lemma_opt_seq_lt_order(a: Option<Seq<char>>, b: Option<Seq<char>>, c: Option<Seq<char>>)
    ensures
        !(opt_seq_lt(a, b) && opt_seq_lt(b, a)),
        opt_seq_lt(a, b) && opt_seq_lt(b, c) ==> opt_seq_lt(a, c),
        a == b || opt_seq_lt(a, b) || opt_seq_lt(b, a),
{
    if let (Some(x), Some(y)) = (a, b) {
        lemma_seq_lt_asym(x, y);
        lemma_seq_lt_total(x, y);
        if let Some(z) = c {
            if seq_lt(x, y) && seq_lt(y, z) {
                lemma_seq_lt_trans(x, y, z);
            }
        }
    }
}

proof fn lemma_seq_lt_order(a: Seq<char>, b: Seq<char>, c: Seq<char>)
    ensures
        !(seq_lt(a, b) && seq_lt(b, a)),
        seq_lt(a, b) && seq_lt(b, c) ==> seq_lt(a, c),
        a == b || seq_lt(a, b) || seq_lt(b, a),
{
    lemma_seq_lt_asym(a, b);
    lemma_seq_lt_total(a, b);
    if seq_lt(a, b) && seq_lt(b, c) {
        lemma_seq_lt_trans(a, b, c);
    }
}

/// `row_lt` is a strict order, total up to equal keys, that looks at keys only.
proof fn lemma_row_lt_order(a: UnifiedView, b: UnifiedView, c: UnifiedView)
    ensures
        !(row_lt(a, b) && row_lt(b, a)),
        row_lt(a, b) && row_lt(b, c) ==> row_lt(a, c),
        row_key(a) == row_key(b) || row_lt(a, b) || row_lt(b, a),
        row_key(b) == row_key(c) ==> row_lt(a, b) == row_lt(a, c),
{
    lemma_seq_lt_order(a.direction, b.direction, c.direction);
    lemma_seq_lt_order(a.http_method, b.http_method, c.http_method);
    lemma_opt_seq_lt_order(a.route, b.route, c.route);
    lemma_seq_lt_order(a.source_file, b.source_file, c.source_file);
    lemma_seq_lt_order(a.direction, a.direction, a.direction);
    lemma_seq_lt_order(a.http_method, a.http_method, a.http_method);
    lemma_opt_seq_lt_order(a.route, a.route, a.route);
    lemma_seq_lt_order(a.source_file, a.source_file, a.source_file);
}

proof fn lemma_ins_sorted_rows(s: Seq<UnifiedView>, x: UnifiedView)
    requires
        rows_sorted(s),
    ensures
        rows_sorted(ins_sorted(s, x)),
        ins_sorted(s, x).to_multiset() == s.to_multiset().insert(x),
    decreases s.len(),
{
    broadcast use vstd::seq_lib::group_to_multiset_ensures;
    if s.len() == 0 || !row_lt(x, s.last()) {
        let r = s.push(x);
        assert forall|i: int, j: int| 0 <= i < j < r.len() implies !row_lt(#[trigger] r[j], #[trigger] r[i]) by {
            if j == s.len() {
                if i < s.len() - 1 {
                    assert(!row_lt(s[s.len() - 1], s[i]));
                    lemma_row_lt_order(x, s[i], s.last());
                    lemma_row_lt_order(s[i], s.last(), x);
                }
            } else {
                assert(r[i] == s[i] && r[j] == s[j]);
            }
        }
    } else {
        let t = s.drop_last();
        assert forall|i: int, j: int| 0 <= i < j < t.len() implies !row_lt(#[trigger] t[j], #[trigger] t[i]) by {
            assert(t[i] == s[i] && t[j] == s[j]);
        }
        lemma_ins_sorted_rows(t, x);
        let q = ins_sorted(t, x);
        let r = q.push(s.last());
        assert(s == t.push(s.last()));
        assert forall|i: int, j: int| 0 <= i < j < r.len() implies !row_lt(#[trigger] r[j], #[trigger] r[i]) by {
            if j == q.len() {
                let y = q[i];
                assert(r[i] == y);
                assert(q.to_multiset().count(y) > 0);
                if y == x {
                    lemma_row_lt_order(x, s.last(), x);
                } else {
                    assert(t.to_multiset().count(y) > 0);
                    assert(t.contains(y));
                    let k = choose|k: int| 0 <= k < t.len() && t[k] == y;
                    assert(s[k] == y);
                    assert(!row_lt(s[s.len() - 1], s[k]));
                }
            } else {
                assert(r[i] == q[i] && r[j] == q[j]);
            }
        }
    }
}

/// Law: `sort_rows` puts rows in rendering order and keeps every row, each as
/// often as it came.
pub proof fn lemma_sort_rows(s: Seq<UnifiedView>)
    ensures
        rows_sorted(sort_rows(s)),
        sort_rows(s).to_multiset() == s.to_multiset(),
    decreases s.len(),
{
    broadcast use vstd::seq_lib::group_to_multiset_ensures;
    if s.len() > 0 {
        lemma_sort_rows(s.drop_last());
        lemma_ins_sorted_rows(sort_rows(s.drop_last()), s.last());
        assert(s == s.drop_last().push(s.last()));
    }
}

// ───────────────────────── union ─────────────────────────

pub type IdentityView = (Seq<char>, Seq<char>, Seq<char>);

/// The records of `all` whose identity is `id`, in order.
pub open spec fn members(all: Seq<InputView>, id: IdentityView) -> Seq<InputView>
    decreases all.len(),
{
    if all.len() == 0 {
        Seq::<InputView>::empty()
    } else {
        let r = members(all.drop_last(), id);
        if identity_spec(all.last()) == Some(id) {
            r.push(all.last())
        } else {
            r
        }
    }
}

/// Record `i` is the first of its identity group.
pub open spec fn is_first_occurrence(all: Seq<InputView>, i: int) -> bool {
    identity_spec(all[i]) is Some && forall|j: int|
        0 <= j < i ==> identity_spec(all[j]) != identity_spec(all[i])
}

/// The rows of the identity groups first seen among the first `n` records.
pub open spec fn group_part(all: Seq<InputView>, n: nat) -> Seq<UnifiedView>
    decreases n,
{
    if n == 0 {
        Seq::<UnifiedView>::empty()
    } else {
        group_part(all, (n - 1) as nat) + (if is_first_occurrence(all, n - 1) {
            group_rows(members(all, identity_spec(all[n - 1])->0))
        } else {
            Seq::<UnifiedView>::empty()
        })
    }
}

/// One row per dynamic-route record, in order — never merged.
pub open spec fn dynamic_part(all: Seq<InputView>) -> Seq<UnifiedView>
    decreases all.len(),
{
    if all.len() == 0 {
        Seq::<UnifiedView>::empty()
    } else if identity_spec(all.last()) is None {
        dynamic_part(all.drop_last()).push(to_unified_spec(all.last(), None))
    } else {
        dynamic_part(all.drop_last())
    }
}

/// The union of `boundary` and `project` surfaces: group rows and dynamic rows,
/// each row tagged with its owning module, in rendering order.
pub open spec fn unify_spec(
    boundary: Seq<InputView>,
    project: Seq<InputView>,
    mm: Map<Seq<char>, Seq<char>>,
) -> Seq<UnifiedView> {
    let all = boundary + project;
    sort_rows(attach_modules(group_part(all, all.len()) + dynamic_part(all), mm))
}

fn set_module(row: UnifiedHttpSurface, pairs: &Vec<(String, String)>) -> (r: UnifiedHttpSurface)
    ensures
        r@ == with_module(row@, pairs_map(pairs_view(pairs@))),
{
    let module = lookup_pairs(pairs, &row.source_file);
    UnifiedHttpSurface { module, ..row }
}

fn push_rows(
    out: &mut Vec<UnifiedHttpSurface>,
    rows: Vec<UnifiedHttpSurface>,
    pairs: &Vec<(String, String)>,
)
    ensures
        rows_view(final(out)@) == rows_view(old(out)@) + attach_modules(
            rows_view(rows@),
            pairs_map(pairs_view(pairs@)),
        ),
{
    let ghost mm = pairs_map(pairs_view(pairs@));
    let ghost start = rows_view(out@);
    let ghost orig = rows_view(rows@);
    let mut rest = rows;
    let total = rest.len();
    let mut k: usize = 0;
    while rest.len() > 0
        invariant
            k + rest.len() == orig.len(),
            orig.len() == total,
            mm == pairs_map(pairs_view(pairs@)),
            rows_view(rest@) == orig.subrange(k as int, orig.len() as int),
            rows_view(out@) == start + attach_modules(orig.subrange(0, k as int), mm),
        decreases rest.len(),
    {
        let ghost before = rest@;
        let x = rest.remove(0);
        proof {
            assert(rows_view(before)[0] == before[0]@);
            assert(orig.subrange(k as int, orig.len() as int)[0] == orig[k as int]);
            assert(x@ == orig[k as int]);
            assert(rest@ == before.remove(0));
            assert forall|t: int| 0 <= t < rest.len() implies rows_view(rest@)[t] == orig.subrange(k + 1, orig.len() as int)[t] by {
                assert(rest@[t] == before[t + 1]);
                assert(rows_view(before)[t + 1] == orig.subrange(k as int, orig.len() as int)[t + 1]);
            }
            assert(rows_view(rest@) =~= orig.subrange(k + 1, orig.len() as int));
        }
        let y = set_module(x, pairs);
        let ghost prev = rows_view(out@);
        out.push(y);
        proof {
            assert(rows_view(out@) =~= prev.push(y@));
            assert(attach_modules(orig.subrange(0, k + 1), mm) =~= attach_modules(orig.subrange(0, k as int), mm).push(with_module(orig[k as int], mm)));
        }
        k = k + 1;
    }
    assert(orig.subrange(0, k as int) == orig);
}

fn collect_members(
    all: &Vec<HttpSurfaceInput>,
    ids: &Vec<Option<Identity>>,
    i: usize,
) -> (r: Vec<HttpSurfaceInput>)
    requires
        all.len() == ids.len(),
        i < all.len(),
        ids@[i as int] is Some,
        forall|k: int| 0 <= k < all.len() ==> opt_identity_view(#[trigger] ids@[k]) == identity_spec(all@[k]@),
    ensures
        r.len() > 0,
        inputs_view(r@) == members(inputs_view(all@), identity_spec(all@[i as int]@)->0),
{
    let ghost v = inputs_view(all@);
    let ghost id = identity_spec(all@[i as int]@)->0;
    let mut r: Vec<HttpSurfaceInput> = Vec::new();
    let mut k: usize = 0;
    while k < all.len()
        invariant
            k <= all.len(),
            all.len() == ids.len(),
            i < all.len(),
            v == inputs_view(all@),
            identity_spec(all@[i as int]@) == Some(id),
            opt_identity_view(ids@[i as int]) == Some(id),
            forall|kk: int| 0 <= kk < all.len() ==> opt_identity_view(#[trigger] ids@[kk]) == identity_spec(all@[kk]@),
            inputs_view(r@) == members(v.subrange(0, k as int), id),
            k > i ==> r.len() > 0,
        decreases all.len() - k,
    {
        proof {
            assert(v.subrange(0, k + 1).drop_last() == v.subrange(0, k as int));
            assert(v.subrange(0, k + 1).last() == all@[k as int]@);
        }
        if opt_identity_eq(&ids[k], &ids[i]) {
            let ghost prev = inputs_view(r@);
            r.push(clone_input(&all[k]));
            proof {
                assert(inputs_view(r@) =~= prev.push(all@[k as int]@));
            }
        }
        k = k + 1;
    }
    assert(v.subrange(0, all.len() as int) == v);
    r
}

fn is_first(ids: &Vec<Option<Identity>>, i: usize) -> (r: bool)
    requires
        i < ids.len(),
    ensures
        r == (ids@[i as int] is Some && forall|j: int|
            0 <= j < i ==> opt_identity_view(ids@[j]) != opt_identity_view(ids@[i as int])),
{
    if ids[i].is_none() {
        return false;
    }
    let mut j: usize = 0;
    while j < i
        invariant
            j <= i < ids.len(),
            forall|jj: int| 0 <= jj < j ==> opt_identity_view(ids@[jj]) != opt_identity_view(ids@[i as int]),
        decreases i - j,
    {
        if opt_identity_eq(&ids[j], &ids[i]) {
            return false;
        }
        j = j + 1;
    }
    true
}

fn group_pass(
    all: &Vec<HttpSurfaceInput>,
    ids: &Vec<Option<Identity>>,
    pairs: &Vec<(String, String)>,
) -> (out: Vec<UnifiedHttpSurface>)
    requires
        all.len() == ids.len(),
        forall|k: int| 0 <= k < all.len() ==> opt_identity_view(#[trigger] ids@[k]) == identity_spec(all@[k]@),
    ensures
        rows_view(out@) == attach_modules(
            group_part(inputs_view(all@), all.len() as nat),
            pairs_map(pairs_view(pairs@)),
        ),
{
    let ghost v = inputs_view(all@);
    let ghost mm = pairs_map(pairs_view(pairs@));
    let n = all.len();
    let mut out: Vec<UnifiedHttpSurface> = Vec::new();
    let mut i: usize = 0;
    while i < n
        invariant
            n == all.len(),
            n == ids.len(),
            i <= n,
            v == inputs_view(all@),
            mm == pairs_map(pairs_view(pairs@)),
            forall|k: int| 0 <= k < n ==> opt_identity_view(#[trigger] ids@[k]) == identity_spec(all@[k]@),
            rows_view(out@) == attach_modules(group_part(v, i as nat), mm),
        decreases n - i,
    {
        let first = is_first(&ids, i);
        proof {
            assert(opt_identity_view(ids@[i as int]) == identity_spec(v[i as int]));
            if first {
                assert forall|j: int| 0 <= j < i implies identity_spec(v[j]) != identity_spec(v[i as int]) by {
                    assert(opt_identity_view(ids@[j]) == identity_spec(all@[j]@));
                }
            } else if ids@[i as int] is Some {
                let j = choose|j: int| 0 <= j < i && opt_identity_view(ids@[j]) == opt_identity_view(ids@[i as int]);
                assert(opt_identity_view(ids@[j]) == identity_spec(all@[j]@));
                assert(identity_spec(v[j]) == identity_spec(v[i as int]));
            }
            assert(is_first_occurrence(v, i as int) == first);
        }
        if first {
            let m = collect_members(all, ids, i);
            let rows = group_rows_exec(&m);
            push_rows(&mut out, rows, pairs);
        }
        proof {
            let next = group_part(v, (i + 1) as nat);
            assert(attach_modules(next, mm) =~= attach_modules(group_part(v, i as nat), mm) + attach_modules(
                if first { group_rows(members(v, identity_spec(v[i as int])->0)) } else { Seq::<UnifiedView>::empty() },
                mm,
            ));
        }
        i = i + 1;
    }
    out
}

fn dynamic_pass(
    all: &Vec<HttpSurfaceInput>,
    ids: &Vec<Option<Identity>>,
    pairs: &Vec<(String, String)>,
    out: &mut Vec<UnifiedHttpSurface>,
)
    requires
        all.len() == ids.len(),
        forall|k: int| 0 <= k < all.len() ==> opt_identity_view(#[trigger] ids@[k]) == identity_spec(all@[k]@),
    ensures
        rows_view(final(out)@) == rows_view(old(out)@) + attach_modules(
            dynamic_part(inputs_view(all@)),
            pairs_map(pairs_view(pairs@)),
        ),
{
    let ghost v = inputs_view(all@);
    let ghost mm = pairs_map(pairs_view(pairs@));
    let ghost start = rows_view(out@);
    let n = all.len();
    let mut i: usize = 0;
    while i < n
        invariant
            n == all.len(),
            n == ids.len(),
            i <= n,
            v == inputs_view(all@),
            mm == pairs_map(pairs_view(pairs@)),
            forall|k: int| 0 <= k < n ==> opt_identity_view(#[trigger] ids@[k]) == identity_spec(all@[k]@),
            rows_view(out@) == start + attach_modules(dynamic_part(v.subrange(0, i as int)), mm),
        decreases n - i,
    {
        proof {
            assert(v.subrange(0, i + 1).drop_last() == v.subrange(0, i as int));
            assert(v.subrange(0, i + 1).last() == all@[i as int]@);
            assert(opt_identity_view(ids@[i as int]) == identity_spec(all@[i as int]@));
        }
        if ids[i].is_none() {
            let row = to_unified(&all[i], None);
            let row = set_module(row, pairs);
            let ghost prev = rows_view(out@);
            out.push(row);
            proof {
                assert(rows_view(out@) =~= prev.push(row@));
                assert(attach_modules(dynamic_part(v.subrange(0, i + 1)), mm) =~= attach_modules(dynamic_part(v.subrange(0, i as int)), mm).push(row@));
            }
        }
        i = i + 1;
    }
    assert(v.subrange(0, n as int) == v);
}

/// Reconcile the two families into one deduped list. `module_by_file`
/// supplies the owning module per source file, as (file, module) entries
/// (a later entry for a file overrides an earlier one); a file without an
/// entry leaves `module = None`.
pub fn unify(
    boundary: Vec<HttpSurfaceInput>,
    project: Vec<HttpSurfaceInput>,
    module_by_file: &Vec<(String, String)>,
) -> (r: Vec<UnifiedHttpSurface>)
    ensures
        rows_view(r@) == unify_spec(
            inputs_view(boundary@),
            inputs_view(project@),
            pairs_map(pairs_view(module_by_file@)),
        ),
{
    let ghost bv = inputs_view(boundary@);
    let ghost pv = inputs_view(project@);
    let mut all = boundary;
    let mut project = project;
    all.append(&mut project);
    let ghost v = inputs_view(all@);
    proof {
        assert(v =~= bv + pv);
    }
    let pairs = module_by_file;
    let ghost mm = pairs_map(pairs_view(pairs@));
    let n = all.len();
    let mut ids: Vec<Option<Identity>> = Vec::new();
    let mut i: usize = 0;
    while i < n
        invariant
            n == all.len(),
            i <= n,
            ids.len() == i,
            forall|k: int| 0 <= k < i ==> opt_identity_view(#[trigger] ids@[k]) == identity_spec(all@[k]@),
        decreases n - i,
    {
        ids.push(identity_of(&all[i]));
        i = i + 1;
    }
    let mut out = group_pass(&all, &ids, pairs);
    dynamic_pass(&all, &ids, pairs, &mut out);
    proof {
        assert(attach_modules(group_part(v, n as nat) + dynamic_part(v), mm) =~= attach_modules(group_part(v, n as nat), mm) + attach_modules(dynamic_part(v), mm));
    }
    sort_rows_exec(out)
}

// ───────────────────────── nothing dropped ─────────────────────────

/// The dedup identity a rendered row carries (`None` for a dynamic route).
pub open spec fn row_identity(r: UnifiedView) -> Option<IdentityView> {
    match r.route {
        Some(rt) => Some((str_to_uppercase(r.http_method), normalize_route_spec(rt), r.source_file)),
        None => None,
    }
}

proof fn lemma_richest_in(s: Seq<InputView>)
    requires
        s.len() > 0,
    ensures
        s.contains(richest(s)),
    decreases s.len(),
{
    if s.len() > 1 {
        lemma_richest_in(s.drop_last());
        let r = richest(s.drop_last());
        let k = choose|k: int| 0 <= k < s.drop_last().len() && s.drop_last()[k] == r;
        assert(s[k] == r);
        assert(s[s.len() - 1] == s.last());
    } else {
        assert(s[0] == richest(s));
    }
}

proof fn lemma_members(all: Seq<InputView>, id: IdentityView, x: InputView)
    ensures
        forall|y: InputView| #[trigger] members(all, id).contains(y) ==> all.contains(y) && identity_spec(y) == Some(id),
        all.contains(x) && identity_spec(x) == Some(id) ==> members(all, id).contains(x),
    decreases all.len(),
{
    if all.len() > 0 {
        let t = all.drop_last();
        lemma_members(t, id, x);
        let p = members(t, id);
        assert forall|y: InputView| #[trigger] members(all, id).contains(y) implies all.contains(y) && identity_spec(y) == Some(id) by {
            let k = choose|k: int| 0 <= k < members(all, id).len() && members(all, id)[k] == y;
            if k < p.len() {
                assert(p[k] == y);
                assert(p.contains(y));
                let j = choose|j: int| 0 <= j < t.len() && t[j] == y;
                assert(all[j] == y);
            } else {
                assert(y == all.last());
                assert(all[all.len() - 1] == y);
            }
        }
        if all.contains(x) && identity_spec(x) == Some(id) {
            let k = choose|k: int| 0 <= k < all.len() && all[k] == x;
            if k == all.len() - 1 {
                assert(members(all, id) == p.push(x));
                assert(members(all, id)[p.len() as int] == x);
            } else {
                assert(t[k] == x);
                let j = choose|j: int| 0 <= j < p.len() && p[j] == x;
                assert(members(all, id)[j] == x);
            }
        }
    }
}

proof fn lemma_dir_members(m: Seq<InputView>, d: Seq<char>, x: InputView)
    ensures
        forall|y: InputView| #[trigger] dir_members(m, d).contains(y) ==> m.contains(y) && y.direction == d,
        m.contains(x) && x.direction == d ==> dir_members(m, d).contains(x),
    decreases m.len(),
{
    if m.len() > 0 {
        let t = m.drop_last();
        lemma_dir_members(t, d, x);
        let p = dir_members(t, d);
        assert forall|y: InputView| #[trigger] dir_members(m, d).contains(y) implies m.contains(y) && y.direction == d by {
            let k = choose|k: int| 0 <= k < dir_members(m, d).len() && dir_members(m, d)[k] == y;
            if k < p.len() {
                assert(p[k] == y);
                assert(p.contains(y));
                let j = choose|j: int| 0 <= j < t.len() && t[j] == y;
                assert(m[j] == y);
            } else {
                assert(y == m.last());
                assert(m[m.len() - 1] == y);
            }
        }
        if m.contains(x) && x.direction == d {
            let k = choose|k: int| 0 <= k < m.len() && m[k] == x;
            if k == m.len() - 1 {
                assert(dir_members(m, d) == p.push(x));
                assert(dir_members(m, d)[p.len() as int] == x);
            } else {
                assert(t[k] == x);
                let j = choose|j: int| 0 <= j < p.len() && p[j] == x;
                assert(dir_members(m, d)[j] == x);
            }
        }
    }
}

proof fn lemma_conflict_rows_has(m: Seq<InputView>, dirs: Seq<Seq<char>>, n: nat, k: int)
    requires
        0 <= k < n <= dirs.len(),
        dir_members(m, dirs[k]).len() > 0,
    ensures
        conflict_rows(m, dirs, n).contains(
            conflict_row(m, dirs, dirs[k]),
        ),
    decreases n,
{
    let row = conflict_row(m, dirs, dirs[k]);
    let prev = conflict_rows(m, dirs, (n - 1) as nat);
    if k == n - 1 {
        assert(conflict_rows(m, dirs, n) == prev + seq![row]);
        assert(conflict_rows(m, dirs, n)[prev.len() as int] == row);
    } else {
        lemma_conflict_rows_has(m, dirs, (n - 1) as nat, k);
        let j = choose|j: int| 0 <= j < prev.len() && prev[j] == row;
        assert(conflict_rows(m, dirs, n)[j] == row);
    }
}

proof fn lemma_group_rows_has(m: Seq<InputView>, id: IdentityView, x: InputView)
    requires
        m.contains(x),
        forall|y: InputView| #[trigger] m.contains(y) ==> identity_spec(y) == Some(id),
    ensures
        exists|r: UnifiedView|
            #[trigger] group_rows(m).contains(r) && r.direction == x.direction && row_identity(r) == Some(id),
{
    let ds = directions_of(m);
    let dirs = sort_distinct(ds);
    lemma_sort_distinct(ds);
    let kx = choose|k: int| 0 <= k < m.len() && m[k] == x;
    assert(ds[kx] == x.direction);
    assert(ds.contains(x.direction));
    assert(dirs.contains(x.direction));
    if dirs.len() <= 1 {
        lemma_richest_in(m);
        let rr = richest(m);
        let kr = choose|k: int| 0 <= k < m.len() && m[k] == rr;
        assert(ds[kr] == rr.direction);
        assert(ds.contains(rr.direction));
        assert(dirs.contains(rr.direction));
        assert(identity_spec(rr) == Some(id));
        let r = merged(m);
        assert(group_rows(m) == seq![r]);
        assert(group_rows(m)[0] == r);
        assert(group_rows(m).contains(r));
        assert(r.direction == x.direction);
        assert(row_identity(r) == Some(id));
    } else {
        let k = choose|k: int| 0 <= k < dirs.len() && dirs[k] == x.direction;
        lemma_dir_members(m, x.direction, x);
        let dm = dir_members(m, x.direction);
        assert(dm.contains(x));
        lemma_richest_in(dm);
        let rr = richest(dm);
        assert(dm.contains(rr));
        assert(m.contains(rr) && rr.direction == x.direction);
        assert(identity_spec(rr) == Some(id));
        lemma_conflict_rows_has(m, dirs, dirs.len(), k);
        let r = conflict_row(m, dirs, dirs[k]);
        assert(group_rows(m).contains(r));
        assert(row_identity(r) == Some(id));
    }
}

proof fn lemma_first_occurrence(all: Seq<InputView>, i: int)
    requires
        0 <= i < all.len(),
        identity_spec(all[i]) is Some,
    ensures
        exists|f: int|
            0 <= f <= i && #[trigger] is_first_occurrence(all, f) && identity_spec(all[f]) == identity_spec(all[i]),
    decreases i,
{
    if !is_first_occurrence(all, i) {
        let j = choose|j: int| 0 <= j < i && identity_spec(all[j]) == identity_spec(all[i]);
        lemma_first_occurrence(all, j);
    }
}

proof fn lemma_group_part_has(all: Seq<InputView>, f: int, n: nat, r: UnifiedView)
    requires
        0 <= f < n <= all.len(),
        is_first_occurrence(all, f),
        group_rows(members(all, identity_spec(all[f])->0)).contains(r),
    ensures
        group_part(all, n).contains(r),
    decreases n,
{
    let prev = group_part(all, (n - 1) as nat);
    if f == n - 1 {
        let g = group_rows(members(all, identity_spec(all[f])->0));
        assert(group_part(all, n) == prev + g);
        let j = choose|j: int| 0 <= j < g.len() && g[j] == r;
        assert(group_part(all, n)[prev.len() + j] == r);
    } else {
        lemma_group_part_has(all, f, (n - 1) as nat, r);
        let j = choose|j: int| 0 <= j < prev.len() && prev[j] == r;
        assert(group_part(all, n)[j] == r);
    }
}

proof fn lemma_dynamic_part_has(all: Seq<InputView>, x: InputView)
    requires
        all.contains(x),
        identity_spec(x) is None,
    ensures
        dynamic_part(all).contains(to_unified_spec(x, None)),
    decreases all.len(),
{
    let t = all.drop_last();
    let row = to_unified_spec(x, None);
    if all.last() == x {
        assert(dynamic_part(all) == dynamic_part(t).push(row));
        assert(dynamic_part(all)[dynamic_part(t).len() as int] == row);
    } else {
        let k = choose|k: int| 0 <= k < all.len() && all[k] == x;
        assert(k < all.len() - 1);
        assert(t[k] == x);
        lemma_dynamic_part_has(t, x);
        let p = dynamic_part(t);
        let j = choose|j: int| 0 <= j < p.len() && p[j] == row;
        assert(dynamic_part(all)[j] == row);
    }
}

/// A row of the unsorted union that renders `x`.
proof fn lemma_unsorted_row(all: Seq<InputView>, x: InputView) -> (r: UnifiedView)
    requires
        all.contains(x),
    ensures
        (group_part(all, all.len()) + dynamic_part(all)).contains(r),
        r.direction == x.direction,
        row_identity(r) == identity_spec(x),
        identity_spec(x) is None ==> r == to_unified_spec(x, None),
{
    let gp = group_part(all, all.len());
    let dp = dynamic_part(all);
    let pre = gp + dp;
    let i = choose|i: int| 0 <= i < all.len() && all[i] == x;
    if identity_spec(x) is None {
        let r = to_unified_spec(x, None);
        lemma_dynamic_part_has(all, x);
        let j = choose|j: int| 0 <= j < dp.len() && dp[j] == r;
        assert(pre[gp.len() + j] == r);
        r
    } else {
        let id = identity_spec(x)->0;
        lemma_first_occurrence(all, i);
        let f = choose|f: int|
            0 <= f <= i && #[trigger] is_first_occurrence(all, f) && identity_spec(all[f]) == identity_spec(all[i]);
        let m = members(all, id);
        lemma_members(all, id, x);
        assert forall|y: InputView| #[trigger] m.contains(y) implies identity_spec(y) == Some(id) by {}
        lemma_group_rows_has(m, id, x);
        let r = choose|r: UnifiedView|
            #[trigger] group_rows(m).contains(r) && r.direction == x.direction && row_identity(r) == Some(id);
        lemma_group_part_has(all, f, all.len(), r);
        let j = choose|j: int| 0 <= j < gp.len() && gp[j] == r;
        assert(pre[j] == r);
        r
    }
}

/// Law: no record is silently dropped. Every input surface is rendered by a
/// row with its direction and its dedup identity, and a surface with a
/// dynamic route is rendered as itself, tagged with its owning module.
pub proof fn lemma_unify_keeps_every_record(
    boundary: Seq<InputView>,
    project: Seq<InputView>,
    mm: Map<Seq<char>, Seq<char>>,
    x: InputView,
)
    requires
        (boundary + project).contains(x),
    ensures
        exists|r: UnifiedView|
            #[trigger] unify_spec(boundary, project, mm).contains(r) && r.direction == x.direction
                && row_identity(r) == identity_spec(x) && (identity_spec(x) is None ==> r == with_module(
                to_unified_spec(x, None),
                mm,
            )),
{
    broadcast use vstd::seq_lib::group_to_multiset_ensures;
    let all = boundary + project;
    let pre = group_part(all, all.len()) + dynamic_part(all);
    let r0 = lemma_unsorted_row(all, x);
    let j = choose|j: int| 0 <= j < pre.len() && pre[j] == r0;
    let att = attach_modules(pre, mm);
    let r = with_module(r0, mm);
    assert(att[j] == r);
    assert(att.contains(r));
    lemma_sort_rows(att);
    assert(att.to_multiset().count(r) > 0);
    assert(sort_rows(att).to_multiset().count(r) > 0);
    assert(unify_spec(boundary, project, mm) == sort_rows(att));
    assert(unify_spec(boundary, project, mm).contains(r));
}

/// Law: the union is in rendering order, and holds exactly the group rows and
/// dynamic rows, each tagged with its module.
pub proof fn lemma_unify_sorted(boundary: Seq<InputView>, project: Seq<InputView>, mm: Map<Seq<char>, Seq<char>>)
    ensures
        rows_sorted(unify_spec(boundary, project, mm)),
        unify_spec(boundary, project, mm).to_multiset() == attach_modules(
            group_part(boundary + project, (boundary + project).len()) + dynamic_part(boundary + project),
            mm,
        ).to_multiset(),
{
    let all = boundary + project;
    lemma_sort_rows(attach_modules(group_part(all, all.len()) + dynamic_part(all), mm));
}

// ───────────────────────── once per direction ─────────────────────────

/// How many of `rows` carry identity `id` and direction `d`.
pub open spec fn rows_with(rows: Seq<UnifiedView>, id: IdentityView, d: Seq<char>) -> nat
    decreases rows.len(),
{
    if rows.len() == 0 {
        0
    } else {
        rows_with(rows.drop_last(), id, d) + if row_identity(rows.last()) == Some(id)
            && rows.last().direction == d {
            1nat
        } else {
            0nat
        }
    }
}

/// Some record of `all` has identity `id` and direction `d`.
pub open spec fn recorded(all: Seq<InputView>, id: IdentityView, d: Seq<char>) -> bool {
    exists|x: InputView| #[trigger] all.contains(x) && identity_spec(x) == Some(id) && x.direction == d
}

/// Some record among the first `n` of `all` is the first of identity `id`.
pub open spec fn first_seen(all: Seq<InputView>, n: nat, id: IdentityView) -> bool {
    exists|f: int| 0 <= f < n && #[trigger] is_first_occurrence(all, f) && identity_spec(all[f]) == Some(id)
}

proof fn lemma_rows_with_push(s: Seq<UnifiedView>, r: UnifiedView, id: IdentityView, d: Seq<char>)
    ensures
        rows_with(s.push(r), id, d) == rows_with(s, id, d) + if row_identity(r) == Some(id) && r.direction == d {
            1nat
        } else {
            0nat
        },
{
    assert(s.push(r).drop_last() == s);
    assert(s.push(r).last() == r);
}

proof fn lemma_rows_with_one(r: UnifiedView, id: IdentityView, d: Seq<char>)
    ensures
        rows_with(seq![r], id, d) == if row_identity(r) == Some(id) && r.direction == d {
            1nat
        } else {
            0nat
        },
{
    assert(seq![r] == Seq::<UnifiedView>::empty().push(r));
    lemma_rows_with_push(Seq::<UnifiedView>::empty(), r, id, d);
    assert(rows_with(Seq::<UnifiedView>::empty(), id, d) == 0);
}

proof fn lemma_rows_with_concat(a: Seq<UnifiedView>, b: Seq<UnifiedView>, id: IdentityView, d: Seq<char>)
    ensures
        rows_with(a + b, id, d) == rows_with(a, id, d) + rows_with(b, id, d),
    decreases b.len(),
{
    if b.len() == 0 {
        assert(a + b == a);
    } else {
        lemma_rows_with_concat(a, b.drop_last(), id, d);
        assert((a + b).drop_last() == a + b.drop_last());
        assert((a + b).last() == b.last());
    }
}

proof fn lemma_rows_with_attach(s: Seq<UnifiedView>, mm: Map<Seq<char>, Seq<char>>, id: IdentityView, d: Seq<char>)
    ensures
        rows_with(attach_modules(s, mm), id, d) == rows_with(s, id, d),
    decreases s.len(),
{
    if s.len() > 0 {
        lemma_rows_with_attach(s.drop_last(), mm, id, d);
        assert(attach_modules(s, mm).drop_last() == attach_modules(s.drop_last(), mm));
        assert(attach_modules(s, mm).last() == with_module(s.last(), mm));
    }
}

proof fn lemma_rows_with_remove(s: Seq<UnifiedView>, k: int, id: IdentityView, d: Seq<char>)
    requires
        0 <= k < s.len(),
    ensures
        rows_with(s, id, d) == rows_with(s.remove(k), id, d) + if row_identity(s[k]) == Some(id)
            && s[k].direction == d {
            1nat
        } else {
            0nat
        },
{
    let a = s.subrange(0, k);
    let one = seq![s[k]];
    let b = s.subrange(k + 1, s.len() as int);
    assert(s =~= a + one + b);
    assert(s.remove(k) =~= a + b);
    lemma_rows_with_concat(a + one, b, id, d);
    lemma_rows_with_concat(a, one, id, d);
    lemma_rows_with_concat(a, b, id, d);
    lemma_rows_with_one(s[k], id, d);
}

proof fn lemma_rows_with_multiset(a: Seq<UnifiedView>, b: Seq<UnifiedView>, id: IdentityView, d: Seq<char>)
    requires
        a.to_multiset() == b.to_multiset(),
    ensures
        rows_with(a, id, d) == rows_with(b, id, d),
    decreases a.len(),
{
    broadcast use vstd::seq_lib::group_to_multiset_ensures;
    if a.len() == 0 {
        a.to_multiset_ensures();
        b.to_multiset_ensures();
        assert(b.len() == 0);
    } else {
        let x = a.last();
        assert(a.to_multiset().count(x) > 0);
        assert(b.contains(x));
        let k = choose|k: int| 0 <= k < b.len() && b[k] == x;
        let a2 = a.drop_last();
        let b2 = b.remove(k);
        assert(a.remove(a.len() - 1) == a2);
        assert(a2.to_multiset() == a.to_multiset().remove(x));
        assert(b2.to_multiset() == b.to_multiset().remove(x));
        lemma_rows_with_multiset(a2, b2, id, d);
        lemma_rows_with_remove(b, k, id, d);
    }
}

proof fn lemma_rows_with_dynamic(all: Seq<InputView>, id: IdentityView, d: Seq<char>)
    ensures
        rows_with(dynamic_part(all), id, d) == 0,
    decreases all.len(),
{
    if all.len() > 0 {
        let t = all.drop_last();
        lemma_rows_with_dynamic(t, id, d);
        if identity_spec(all.last()) is None {
            let row = to_unified_spec(all.last(), None);
            assert(row_identity(row) is None);
            lemma_rows_with_push(dynamic_part(t), row, id, d);
        }
    }
}

proof fn lemma_rows_with_conflict(
    m: Seq<InputView>,
    dirs: Seq<Seq<char>>,
    n: nat,
    id: IdentityView,
    id2: IdentityView,
    d: Seq<char>,
)
    requires
        n <= dirs.len(),
        strictly_sorted(dirs),
        forall|k: int| 0 <= k < dirs.len() ==> dir_members(m, #[trigger] dirs[k]).len() > 0,
        forall|y: InputView| #[trigger] m.contains(y) ==> identity_spec(y) == Some(id),
    ensures
        rows_with(conflict_rows(m, dirs, n), id2, d) == if id2 == id && dirs.subrange(0, n as int).contains(d) {
            1nat
        } else {
            0nat
        },
    decreases n,
{
    if n > 0 {
        lemma_rows_with_conflict(m, dirs, (n - 1) as nat, id, id2, d);
        let dk = dirs[n - 1];
        let dm = dir_members(m, dk);
        assert(dm.len() > 0);
        lemma_dir_members(m, dk, dm[0]);
        lemma_richest_in(dm);
        let rr = richest(dm);
        assert(dm.contains(rr));
        assert(m.contains(rr) && rr.direction == dk);
        let row = conflict_row(m, dirs, dk);
        assert(row_identity(row) == Some(id));
        let prev = conflict_rows(m, dirs, (n - 1) as nat);
        assert(conflict_rows(m, dirs, n) == prev + seq![row]);
        lemma_rows_with_concat(prev, seq![row], id2, d);
        lemma_rows_with_one(row, id2, d);
        let pre = dirs.subrange(0, n - 1);
        let cur = dirs.subrange(0, n as int);
        assert(cur == pre.push(dk));
        assert(!pre.contains(dk)) by {
            if pre.contains(dk) {
                let j = choose|j: int| 0 <= j < pre.len() && pre[j] == dk;
                assert(seq_lt(dirs[j], dirs[n - 1]));
                lemma_seq_lt_irreflexive(dk);
            }
        }
        assert(cur.contains(d) <==> (pre.contains(d) || d == dk)) by {
            if cur.contains(d) {
                let j = choose|j: int| 0 <= j < cur.len() && cur[j] == d;
                if j < pre.len() {
                    assert(pre[j] == d);
                }
            }
            if pre.contains(d) {
                let j = choose|j: int| 0 <= j < pre.len() && pre[j] == d;
                assert(cur[j] == d);
            }
            if d == dk {
                assert(cur[n - 1] == d);
            }
        }
    }
}

proof fn lemma_rows_with_group(m: Seq<InputView>, id: IdentityView, id2: IdentityView, d: Seq<char>)
    requires
        m.len() > 0,
        forall|y: InputView| #[trigger] m.contains(y) ==> identity_spec(y) == Some(id),
    ensures
        rows_with(group_rows(m), id2, d) == if id2 == id && directions_of(m).contains(d) {
            1nat
        } else {
            0nat
        },
{
    let ds = directions_of(m);
    let dirs = sort_distinct(ds);
    lemma_sort_distinct(ds);
    lemma_richest_in(m);
    let rr = richest(m);
    let kr = choose|k: int| 0 <= k < m.len() && m[k] == rr;
    assert(ds[kr] == rr.direction);
    assert(ds.contains(rr.direction));
    assert(dirs.contains(rr.direction));
    if dirs.len() <= 1 {
        let r = merged(m);
        assert(identity_spec(rr) == Some(id));
        assert(row_identity(r) == Some(id));
        assert(group_rows(m) == seq![r]);
        lemma_rows_with_one(r, id2, d);
        assert(dirs[0] == rr.direction);
        assert(ds.contains(d) <==> d == rr.direction) by {
            if ds.contains(d) {
                assert(dirs.contains(d));
                assert(dirs[0] == d);
            }
        }
    } else {
        assert forall|k: int| 0 <= k < dirs.len() implies dir_members(m, #[trigger] dirs[k]).len() > 0 by {
            assert(dirs.contains(dirs[k]));
            assert(ds.contains(dirs[k]));
            let j = choose|j: int| 0 <= j < ds.len() && ds[j] == dirs[k];
            assert(m.contains(m[j]));
            lemma_dir_members(m, dirs[k], m[j]);
            assert(dir_members(m, dirs[k]).contains(m[j]));
        }
        lemma_rows_with_conflict(m, dirs, dirs.len(), id, id2, d);
        assert(dirs.subrange(0, dirs.len() as int) == dirs);
    }
}

proof fn lemma_rows_with_group_part(all: Seq<InputView>, n: nat, id: IdentityView, d: Seq<char>)
    requires
        n <= all.len(),
    ensures
        rows_with(group_part(all, n), id, d) == if first_seen(all, n, id) && directions_of(members(all, id)).contains(
            d,
        ) {
            1nat
        } else {
            0nat
        },
    decreases n,
{
    if n > 0 {
        let i = n - 1;
        lemma_rows_with_group_part(all, (n - 1) as nat, id, d);
        let prev = group_part(all, (n - 1) as nat);
        if is_first_occurrence(all, i) {
            let idi = identity_spec(all[i])->0;
            let m = members(all, idi);
            assert(all.contains(all[i]));
            lemma_members(all, idi, all[i]);
            assert(m.contains(all[i]));
            assert forall|y: InputView| #[trigger] m.contains(y) implies identity_spec(y) == Some(idi) by {}
            lemma_rows_with_group(m, idi, id, d);
            assert(group_part(all, n) == prev + group_rows(m));
            lemma_rows_with_concat(prev, group_rows(m), id, d);
            if idi == id {
                assert(first_seen(all, n, id));
                assert(!first_seen(all, (n - 1) as nat, id)) by {
                    if first_seen(all, (n - 1) as nat, id) {
                        let f = choose|f: int|
                            0 <= f < n - 1 && #[trigger] is_first_occurrence(all, f) && identity_spec(all[f]) == Some(id);
                        assert(identity_spec(all[f]) != identity_spec(all[i]));
                    }
                }
            } else {
                assert(first_seen(all, n, id) == first_seen(all, (n - 1) as nat, id)) by {
                    if first_seen(all, n, id) {
                        let f = choose|f: int|
                            0 <= f < n && #[trigger] is_first_occurrence(all, f) && identity_spec(all[f]) == Some(id);
                        assert(f != i);
                    }
                }
            }
        } else {
            assert(group_part(all, n) == prev + Seq::<UnifiedView>::empty());
            assert(prev + Seq::<UnifiedView>::empty() == prev);
            assert(first_seen(all, n, id) == first_seen(all, (n - 1) as nat, id)) by {
                if first_seen(all, n, id) {
                    let f = choose|f: int|
                        0 <= f < n && #[trigger] is_first_occurrence(all, f) && identity_spec(all[f]) == Some(id);
                    assert(f != i);
                }
            }
        }
    }
}

/// Law: the union renders each (identity, direction) once. For a dedup
/// identity and a direction, the union holds exactly one row carrying both
/// when some record of either family was recorded with them (a same-direction
/// identity present in both families renders once; a conflicting identity
/// renders once per direction), and none otherwise (no row is invented).
pub proof fn lemma_unify_once_per_direction(
    boundary: Seq<InputView>,
    project: Seq<InputView>,
    mm: Map<Seq<char>, Seq<char>>,
    id: IdentityView,
    d: Seq<char>,
)
    ensures
        rows_with(unify_spec(boundary, project, mm), id, d) == if recorded(boundary + project, id, d) {
            1nat
        } else {
            0nat
        },
{
    let all = boundary + project;
    let gp = group_part(all, all.len());
    let dp = dynamic_part(all);
    let att = attach_modules(gp + dp, mm);
    lemma_sort_rows(att);
    lemma_rows_with_multiset(sort_rows(att), att, id, d);
    lemma_rows_with_attach(gp + dp, mm, id, d);
    lemma_rows_with_concat(gp, dp, id, d);
    lemma_rows_with_dynamic(all, id, d);
    lemma_rows_with_group_part(all, all.len(), id, d);
    let ms = members(all, id);
    assert((first_seen(all, all.len(), id) && directions_of(ms).contains(d)) == recorded(all, id, d)) by {
        if first_seen(all, all.len(), id) && directions_of(ms).contains(d) {
            let j = choose|j: int| 0 <= j < directions_of(ms).len() && directions_of(ms)[j] == d;
            let y = ms[j];
            assert(ms.contains(y));
            lemma_members(all, id, y);
            assert(all.contains(y) && identity_spec(y) == Some(id) && y.direction == d);
        }
        if recorded(all, id, d) {
            let x = choose|x: InputView| #[trigger] all.contains(x) && identity_spec(x) == Some(id) && x.direction == d;
            let i = choose|i: int| 0 <= i < all.len() && all[i] == x;
            lemma_first_occurrence(all, i);
            let f = choose|f: int|
                0 <= f <= i && #[trigger] is_first_occurrence(all, f) && identity_spec(all[f]) == identity_spec(all[i]);
            assert(first_seen(all, all.len(), id));
            lemma_members(all, id, x);
            assert(ms.contains(x));
            let k = choose|k: int| 0 <= k < ms.len() && ms[k] == x;
            assert(directions_of(ms)[k] == d);
        }
    }
}

// ───────────────────────── counts ─────────────────────────

/// Number of rows of `rows` with direction `d`.
pub open spec fn count_direction(rows: Seq<UnifiedView>, d: Seq<char>) -> nat
    decreases rows.len(),
{
    if rows.len() == 0 {
        0
    } else {
        count_direction(rows.drop_last(), d) + if rows.last().direction == d { 1nat } else { 0nat }
    }
}

proof fn lemma_count_direction_le(rows: Seq<UnifiedView>, d: Seq<char>)
    ensures
        count_direction(rows, d) <= rows.len(),
    decreases rows.len(),
{
    if rows.len() > 0 {
        lemma_count_direction_le(rows.drop_last(), d);
    }
}

fn count_dir_exec(rows: &[UnifiedHttpSurface], d: &str) -> (r: usize)
    ensures
        r == count_direction(rows@.map_values(|x: UnifiedHttpSurface| x@), d@),
{
    let ghost v = rows@.map_values(|x: UnifiedHttpSurface| x@);
    let dv = owned(d);
    let mut c: usize = 0;
    let mut i: usize = 0;
    while i < rows.len()
        invariant
            i <= rows.len(),
            dv@ == d@,
            v == rows@.map_values(|x: UnifiedHttpSurface| x@),
            c == count_direction(v.subrange(0, i as int), d@),
        decreases rows.len() - i,
    {
        proof {
            assert(v.subrange(0, i + 1).drop_last() == v.subrange(0, i as int));
            assert(v.subrange(0, i + 1).last() == rows@[i as int]@);
            lemma_count_direction_le(v.subrange(0, i as int), d@);
        }
        if rows[i].direction == dv {
            c = c + 1;
        }
        i = i + 1;
    }
    assert(v.subrange(0, rows.len() as int) == v);
    c
}

/// Provider/consumer counts over the unified rows — the single source of
/// truth every HTTP surface headline prints.
pub fn counts(rows: &[UnifiedHttpSurface]) -> (r: (usize, usize))
    ensures
        r.0 == count_direction(rows@.map_values(|x: UnifiedHttpSurface| x@), "provider"@),
        r.1 == count_direction(rows@.map_values(|x: UnifiedHttpSurface| x@), "consumer"@),
{
    let providers = count_dir_exec(rows, "provider");
    let consumers = count_dir_exec(rows, "consumer");
    (providers, consumers)
}

/// Provider/consumer counts partitioned by the stored `is_test` fact.
/// Test-fixture rows (`Some(true)`) are excluded from `providers`/`consumers`
/// and tallied in `test_fixture_excluded`; unknown rows (`None`) stay counted
/// and are also tallied in `test_status_unknown`.
pub struct HttpSurfacePartition {
    pub providers: usize,
    pub consumers: usize,
    pub test_fixture_excluded: usize,
    pub test_status_unknown: usize,
}

/// `(providers, consumers, test_fixture_excluded, test_status_unknown)`.
pub open spec fn partition_counts(rows: Seq<UnifiedView>) -> (nat, nat, nat, nat)
    decreases rows.len(),
{
    if rows.len() == 0 {
        (0, 0, 0, 0)
    } else {
        let p = partition_counts(rows.drop_last());
        let r = rows.last();
        if r.is_test == Some(true) {
            (p.0, p.1, p.2 + 1, p.3)
        } else {
            let unknown: nat = if r.is_test is None { 1 } else { 0 };
            let prov: nat = if r.direction == "provider"@ { 1 } else { 0 };
            let cons: nat = if r.direction == "consumer"@ { 1 } else { 0 };
            (p.0 + prov, p.1 + cons, p.2, p.3 + unknown)
        }
    }
}

proof fn lemma_partition_counts_le(rows: Seq<UnifiedView>)
    ensures
        ({
            let p = partition_counts(rows);
            &&& p.0 <= rows.len()
            &&& p.1 <= rows.len()
            &&& p.2 <= rows.len()
            &&& p.3 <= rows.len()
        }),
    decreases rows.len(),
{
    if rows.len() > 0 {
        lemma_partition_counts_le(rows.drop_last());
    }
}

/// Law: a test-fixture row is never counted as a provider or consumer, and a
/// row of unknown test status is never excluded: the fixtures, the providers
/// and the consumers together are at most the rows, and so are the fixtures
/// and the unknown rows together.
pub proof fn lemma_partition_accounting(rows: Seq<UnifiedView>)
    ensures
        partition_counts(rows).0 + partition_counts(rows).1 + partition_counts(rows).2 <= rows.len(),
        partition_counts(rows).2 + partition_counts(rows).3 <= rows.len(),
    decreases rows.len(),
{
    if rows.len() > 0 {
        lemma_partition_accounting(rows.drop_last());
        reveal_strlit("provider");
        reveal_strlit("consumer");
        assert("provider"@[0] != "consumer"@[0]);
    }
}

pub fn counts_partitioned(rows: &[UnifiedHttpSurface]) -> (r: HttpSurfacePartition)
    ensures
        (r.providers as nat, r.consumers as nat, r.test_fixture_excluded as nat, r.test_status_unknown as nat)
            == partition_counts(rows@.map_values(|x: UnifiedHttpSurface| x@)),
{
    let ghost v = rows@.map_values(|x: UnifiedHttpSurface| x@);
    let provider = owned("provider");
    let consumer = owned("consumer");
    proof {
        reveal_strlit("provider");
        reveal_strlit("consumer");
        assert("provider"@[0] != "consumer"@[0]);
    }
    let mut providers: usize = 0;
    let mut consumers: usize = 0;
    let mut test_fixture_excluded: usize = 0;
    let mut test_status_unknown: usize = 0;
    let mut i: usize = 0;
    while i < rows.len()
        invariant
            i <= rows.len(),
            provider@ == "provider"@,
            consumer@ == "consumer"@,
            provider@ != consumer@,
            v == rows@.map_values(|x: UnifiedHttpSurface| x@),
            (providers as nat, consumers as nat, test_fixture_excluded as nat, test_status_unknown as nat)
                == partition_counts(v.subrange(0, i as int)),
        decreases rows.len() - i,
    {
        proof {
            assert(v.subrange(0, i + 1).drop_last() == v.subrange(0, i as int));
            assert(v.subrange(0, i + 1).last() == rows@[i as int]@);
            lemma_partition_counts_le(v.subrange(0, i as int));
        }
        let r = &rows[i];
        if r.is_test == Some(true) {
            test_fixture_excluded = test_fixture_excluded + 1;
        } else {
            if r.is_test.is_none() {
                test_status_unknown = test_status_unknown + 1;
            }
            if r.direction == provider {
                providers = providers + 1;
            } else if r.direction == consumer {
                consumers = consumers + 1;
            }
        }
        i = i + 1;
    }
    assert(v.subrange(0, rows.len() as int) == v);
    HttpSurfacePartition { providers, consumers, test_fixture_excluded, test_status_unknown }
}

} // verus!
