//! LiveGraph serving and comparison: the engine selector, the labelled
//! fallback reasons, the `Auto` decision, the key / path / import comparison
//! reports, and the no-loss certificates with their fingerprint.
//!
//! The resident LiveGraph, the SQLite reads and the JSON rendering are the
//! application's; this module holds the decisions they are fed into.
use crate::sorted::{
    lemma_map_values_multiset, lemma_sort_distinct, lemma_sort_seq_order_free, sort_distinct, sort_distinct_strings, sort_seq,
    sort_strings,
};
use crate::text::{
    chars_of, decimal, find_first, first_of, has_suffix, join_strings, join_with, owned, push_str,
    replace_char, replace_char_chars, slice_chars, split_chars, split_on, starts_with_char, str_eq,
    string_of, strs, vec_has_suffix,
};
use vstd::prelude::*;
use vstd::string::*;

verus! {

// ───────────────────────── engine and fallback labels ─────────────────────────

/// Engine selector. `Auto` serves the LiveGraph when its answer is complete
/// and falls back to SQLite otherwise, with the fallback labelled.
#[derive(Debug, Clone, Copy, PartialEq, Eq, Structural)]
pub enum Engine {
    /// LiveGraph when complete, else labelled SQLite fallback (the default).
    Auto,
    /// Force the SQLite path.
    Sqlite,
    /// Force the LiveGraph (still falls back when the partition is unavailable).
    LiveGraph,
    /// SQLite answer plus a LiveGraph compare report.
    Compare,
}

pub open spec fn opt_view(s: Option<&str>) -> Option<Seq<char>> {
    match s {
        Some(x) => Some(x@),
        None => None,
    }
}

impl Engine {
    pub open spec fn parse_spec(s: Option<Seq<char>>) -> Engine {
        match s {
            Some(x) => if x == "sqlite"@ {
                Engine::Sqlite
            } else if x == "livegraph"@ {
                Engine::LiveGraph
            } else if x == "compare"@ {
                Engine::Compare
            } else {
                Engine::Auto
            },
            None => Engine::Auto,
        }
    }

    /// Parses the `engine` parameter: `sqlite` / `livegraph` / `compare`
    /// select that engine; no parameter or anything else is `Auto`.
    pub fn parse(s: Option<&str>) -> (r: Engine)
        ensures
            r == Engine::parse_spec(opt_view(s)),
    {
        match s {
            Some(x) => if str_eq(x, "sqlite") {
                Engine::Sqlite
            } else if str_eq(x, "livegraph") {
                Engine::LiveGraph
            } else if str_eq(x, "compare") {
                Engine::Compare
            } else {
                Engine::Auto
            },
            None => Engine::Auto,
        }
    }
}

/// Why an `Auto` (or strict LiveGraph) answer fell back to SQLite.
#[derive(Debug, Clone, Copy, PartialEq, Eq, Structural)]
pub enum FallbackReason {
    /// No LiveGraph for this repo or target.
    LiveGraphUnavailable,
    /// The LiveGraph answered but not `Exact`.
    LiveGraphPartial,
    /// The LiveGraph answer is not `Fresh`.
    LiveGraphStale,
    /// The contributing languages are not all TypeScript-primary.
    LiveGraphUnsupportedLanguage,
    /// The answer could not be rendered into the response shape.
    LiveGraphRenderUnsupported,
    /// A rendered path node lacks display metadata.
    LiveGraphDisplayMetadataUnavailable,
    /// The LiveGraph engine errored.
    LiveGraphError,
    /// The per-call import compare found a SQLite import the LiveGraph lost.
    LiveGraphImportRegression,
    /// An ambiguous SQLite import that cannot be bucketed.
    LiveGraphImportUnknown,
    /// The module-cycle no-loss certificate is not GREEN.
    LiveGraphCycleDivergence,
    /// The stats no-loss certificate is not GREEN.
    LiveGraphStatsDivergence,
    /// The complexity no-loss certificate is not GREEN.
    LiveGraphComplexityDivergence,
    /// A callers / callees key compare diverged.
    LiveGraphCallgraphDivergence,
    /// The bounded orient serve was declined.
    LiveGraphBoundedServeDeclined,
}

impl FallbackReason {
    pub open spec fn as_str_spec(self) -> Seq<char> {
        match self {
            FallbackReason::LiveGraphUnavailable => "LiveGraphUnavailable"@,
            FallbackReason::LiveGraphPartial => "LiveGraphPartial"@,
            FallbackReason::LiveGraphStale => "LiveGraphStale"@,
            FallbackReason::LiveGraphUnsupportedLanguage => "LiveGraphUnsupportedLanguage"@,
            FallbackReason::LiveGraphRenderUnsupported => "LiveGraphRenderUnsupported"@,
            FallbackReason::LiveGraphDisplayMetadataUnavailable => "LiveGraphDisplayMetadataUnavailable"@,
            FallbackReason::LiveGraphError => "LiveGraphError"@,
            FallbackReason::LiveGraphImportRegression => "LiveGraphImportRegression"@,
            FallbackReason::LiveGraphImportUnknown => "LiveGraphImportUnknown"@,
            FallbackReason::LiveGraphCycleDivergence => "LiveGraphCycleDivergence"@,
            FallbackReason::LiveGraphStatsDivergence => "LiveGraphStatsDivergence"@,
            FallbackReason::LiveGraphComplexityDivergence => "LiveGraphComplexityDivergence"@,
            FallbackReason::LiveGraphCallgraphDivergence => "LiveGraphCallgraphDivergence"@,
            FallbackReason::LiveGraphBoundedServeDeclined => "LiveGraphBoundedServeDeclined"@,
        }
    }

    /// The stable string of the JSON `fallback_reason`: the variant's name.
    pub fn as_str(self) -> (r: &'static str)
        ensures
            r@ == self.as_str_spec(),
    {
        match self {
            FallbackReason::LiveGraphUnavailable => "LiveGraphUnavailable",
            FallbackReason::LiveGraphPartial => "LiveGraphPartial",
            FallbackReason::LiveGraphStale => "LiveGraphStale",
            FallbackReason::LiveGraphUnsupportedLanguage => "LiveGraphUnsupportedLanguage",
            FallbackReason::LiveGraphRenderUnsupported => "LiveGraphRenderUnsupported",
            FallbackReason::LiveGraphDisplayMetadataUnavailable => "LiveGraphDisplayMetadataUnavailable",
            FallbackReason::LiveGraphError => "LiveGraphError",
            FallbackReason::LiveGraphImportRegression => "LiveGraphImportRegression",
            FallbackReason::LiveGraphImportUnknown => "LiveGraphImportUnknown",
            FallbackReason::LiveGraphCycleDivergence => "LiveGraphCycleDivergence",
            FallbackReason::LiveGraphStatsDivergence => "LiveGraphStatsDivergence",
            FallbackReason::LiveGraphComplexityDivergence => "LiveGraphComplexityDivergence",
            FallbackReason::LiveGraphCallgraphDivergence => "LiveGraphCallgraphDivergence",
            FallbackReason::LiveGraphBoundedServeDeclined => "LiveGraphBoundedServeDeclined",
        }
    }
}

/// Law: each fallback reason renders as its own variant name, so distinct
/// reasons never share a string (a reader of `fallback_reason` can always
/// tell them apart).
pub proof fn lemma_fallback_reason_names_distinct()
    ensures
        forall|a: FallbackReason, b: FallbackReason| #[trigger] a.as_str_spec() == #[trigger] b.as_str_spec() ==> a == b,
{
    reveal_strlit("LiveGraphUnavailable");
    reveal_strlit("LiveGraphPartial");
    reveal_strlit("LiveGraphStale");
    reveal_strlit("LiveGraphUnsupportedLanguage");
    reveal_strlit("LiveGraphRenderUnsupported");
    reveal_strlit("LiveGraphDisplayMetadataUnavailable");
    reveal_strlit("LiveGraphError");
    reveal_strlit("LiveGraphImportRegression");
    reveal_strlit("LiveGraphImportUnknown");
    reveal_strlit("LiveGraphCycleDivergence");
    reveal_strlit("LiveGraphStatsDivergence");
    reveal_strlit("LiveGraphComplexityDivergence");
    reveal_strlit("LiveGraphCallgraphDivergence");
    reveal_strlit("LiveGraphBoundedServeDeclined");
    assert forall|a: FallbackReason, b: FallbackReason| #[trigger] a.as_str_spec() == #[trigger] b.as_str_spec() implies a == b by {
        let (sa, sb) = (a.as_str_spec(), b.as_str_spec());
        assert(sa.len() == sb.len());
        assert(sa[9] == sb[9]);
    }
}

// ───────────────────────── repo-relative prefixes ─────────────────────────

/// A segment that names no component: empty (a repeated separator) or `.`.
pub open spec fn skipped_segment(seg: Seq<char>) -> bool {
    seg.len() == 0 || seg == seq!['.']
}

/// The segments of a split that name components, in order.
pub open spec fn nonempty_parts(parts: Seq<Seq<char>>) -> Seq<Seq<char>>
    decreases parts.len(),
{
    if parts.len() == 0 {
        Seq::<Seq<char>>::empty()
    } else if skipped_segment(parts.last()) {
        nonempty_parts(parts.drop_last())
    } else {
        nonempty_parts(parts.drop_last()).push(parts.last())
    }
}

/// The components of a `/`-separated path, as `Path::components` yields
/// them: the root `/` when it is absolute, a leading `.` when a relative path
/// starts with one, then its segments other than empty ones and `.`.
pub open spec fn path_components(p: Seq<char>) -> Seq<Seq<char>> {
    let parts = split_on(p, '/');
    let body = nonempty_parts(parts);
    if starts_with_char(p, '/') {
        seq![seq!['/']] + body
    } else if parts.len() > 0 && parts[0] == seq!['.'] {
        seq![seq!['.']] + body
    } else {
        body
    }
}

/// Renders components back into a path.
pub open spec fn join_components(c: Seq<Seq<char>>) -> Seq<char> {
    if c.len() > 0 && c[0] == seq!['/'] {
        seq!['/'] + join_with(c.drop_first(), seq!['/'])
    } else {
        join_with(c, seq!['/'])
    }
}

/// `source_root` relative to `repo_path`, component by component, with `\`
/// rendered as `/`; empty when they are equal or when `source_root` is not
/// under `repo_path`.
pub open spec fn repo_relative_prefix_spec(repo_path: Seq<char>, source_root: Seq<char>) -> Seq<char> {
    let rc = path_components(repo_path);
    let sc = path_components(source_root);
    if rc.len() <= sc.len() && sc.subrange(0, rc.len() as int) == rc {
        replace_char(join_components(sc.subrange(rc.len() as int, sc.len() as int)), '\\', '/')
    } else {
        Seq::<char>::empty()
    }
}

pub(crate) fn components(p: &Vec<char>) -> (r: Vec<Vec<char>>)
    ensures
        r@.map_values(|c: Vec<char>| c@) == path_components(p@),
{
    let parts = split_chars(p, '/');
    let ghost pv = parts@.map_values(|c: Vec<char>| c@);
    let mut body: Vec<Vec<char>> = Vec::new();
    let mut i: usize = 0;
    while i < parts.len()
        invariant
            i <= parts.len(),
            pv == parts@.map_values(|c: Vec<char>| c@),
            body@.map_values(|c: Vec<char>| c@) == nonempty_parts(pv.subrange(0, i as int)),
        decreases parts.len() - i,
    {
        proof {
            let t = pv.subrange(0, i + 1);
            assert(t.drop_last() =~= pv.subrange(0, i as int));
            assert(t.last() == parts@[i as int]@);
        }
        if !(parts[i].len() == 0 || (parts[i].len() == 1 && parts[i][0] == '.')) {
            proof {
                assert(!skipped_segment(parts@[i as int]@)) by {
                    if parts@[i as int]@ == seq!['.'] {
                        assert(parts@[i as int]@[0] == '.');
                    }
                }
            }
            let ghost prev = body@;
            let mut c: Vec<char> = Vec::new();
            let mut k: usize = 0;
            while k < parts[i].len()
                invariant
                    i < parts.len(),
                    k <= parts@[i as int].len(),
                    c@ == parts@[i as int]@.subrange(0, k as int),
                decreases parts@[i as int].len() - k,
            {
                c.push(parts[i][k]);
                k = k + 1;
            }
            assert(c@ == parts@[i as int]@);
            body.push(c);
            assert(body@.map_values(|c: Vec<char>| c@) =~= prev.map_values(|c: Vec<char>| c@).push(
                parts@[i as int]@,
            ));
        } else {
            proof {
                if parts@[i as int]@.len() == 1 {
                    assert(parts@[i as int]@ =~= seq!['.']);
                }
            }
        }
        i = i + 1;
    }
    assert(pv.subrange(0, parts.len() as int) == pv);
    if p.len() > 0 && p[0] == '/' {
        let mut r: Vec<Vec<char>> = Vec::new();
        let mut root: Vec<char> = Vec::new();
        root.push('/');
        r.push(root);
        let ghost b = body@;
        let mut body = body;
        r.append(&mut body);
        assert(r@.map_values(|c: Vec<char>| c@) =~= seq![seq!['/']] + b.map_values(
            |c: Vec<char>| c@,
        ));
        r
    } else if parts.len() > 0 && parts[0].len() == 1 && parts[0][0] == '.' {
        assert(pv[0] =~= seq!['.']);
        let mut r: Vec<Vec<char>> = Vec::new();
        let mut cur: Vec<char> = Vec::new();
        cur.push('.');
        r.push(cur);
        let ghost b = body@;
        let mut body = body;
        r.append(&mut body);
        assert(r@.map_values(|c: Vec<char>| c@) =~= seq![seq!['.']] + b.map_values(
            |c: Vec<char>| c@,
        ));
        r
    } else {
        proof {
            if pv.len() > 0 && pv[0] == seq!['.'] {
                assert(parts@[0]@.len() == 1 && parts@[0]@[0] == '.');
            }
        }
        body
    }
}

/// A partition's repo-relative prefix: `source_root` relative to `repo_path`
/// (POSIX separators, no trailing slash). Empty when `source_root` is
/// `repo_path` itself or is not under it. Paths are compared component by
/// component on `/`; empty segments are ignored.
pub fn repo_relative_prefix(repo_path: &str, source_root: &str) -> (r: String)
    ensures
        r@ == repo_relative_prefix_spec(repo_path@, source_root@),
{
    let rc = components(&chars_of(repo_path));
    let sc = components(&chars_of(source_root));
    let ghost rv = rc@.map_values(|c: Vec<char>| c@);
    let ghost sv = sc@.map_values(|c: Vec<char>| c@);
    if rc.len() > sc.len() {
        return string_of(&Vec::new());
    }
    let mut i: usize = 0;
    while i < rc.len()
        invariant
            rc.len() <= sc.len(),
            i <= rc.len(),
            rv == rc@.map_values(|c: Vec<char>| c@),
            sv == sc@.map_values(|c: Vec<char>| c@),
            rv == path_components(repo_path@),
            sv == path_components(source_root@),
            sv.subrange(0, i as int) == rv.subrange(0, i as int),
        decreases rc.len() - i,
    {
        if !crate::text::chars_eq(&rc[i], &sc[i]) {
            assert(sv.subrange(0, rc.len() as int)[i as int] != rv[i as int]);
            return string_of(&Vec::new());
        }
        assert(sv.subrange(0, i + 1) =~= sv.subrange(0, i as int).push(sv[i as int]));
        assert(rv.subrange(0, i + 1) =~= rv.subrange(0, i as int).push(rv[i as int]));
        i = i + 1;
    }
    assert(rv.subrange(0, rc.len() as int) == rv);
    let mut rest: Vec<Vec<char>> = Vec::new();
    let mut k: usize = rc.len();
    while k < sc.len()
        invariant
            rc.len() <= k <= sc.len(),
            sv == sc@.map_values(|c: Vec<char>| c@),
            rest@.map_values(|c: Vec<char>| c@) == sv.subrange(rc.len() as int, k as int),
        decreases sc.len() - k,
    {
        let ghost prev = rest@;
        let mut c: Vec<char> = Vec::new();
        let mut j: usize = 0;
        while j < sc[k].len()
            invariant
                k < sc.len(),
                j <= sc@[k as int].len(),
                c@ == sc@[k as int]@.subrange(0, j as int),
            decreases sc@[k as int].len() - j,
        {
            c.push(sc[k][j]);
            j = j + 1;
        }
        assert(c@ == sc@[k as int]@);
        rest.push(c);
        proof {
            assert(rest@ == prev.push(c));
            assert(rest@.map_values(|c: Vec<char>| c@) =~= prev.map_values(|c: Vec<char>| c@).push(c@));
            assert(sv[k as int] == sc@[k as int]@);
            assert(sv.subrange(rc.len() as int, k + 1) =~= sv.subrange(rc.len() as int, k as int).push(sv[k as int]));
        }
        k = k + 1;
    }
    let ghost restv = rest@.map_values(|c: Vec<char>| c@);
    let sep = chars_of("/");
    proof {
        reveal_strlit("/");
        assert(sep@ =~= seq!['/']);
    }
    let mut out: Vec<char> = Vec::new();
    if rest.len() > 0 && rest[0].len() == 1 && rest[0][0] == '/' {
        let tail = rest.split_off(1);
        out.push('/');
        let joined = crate::text::join_chars(&tail, &sep);
        crate::text::push_chars(&mut out, &joined);
        proof {
            assert(restv[0] =~= seq!['/']);
            assert(tail@.map_values(|c: Vec<char>| c@) =~= restv.drop_first());
        }
    } else {
        let joined = crate::text::join_chars(&rest, &sep);
        out = joined;
        proof {
            if restv.len() > 0 && restv[0] == seq!['/'] {
                assert(restv[0].len() == 1);
            }
        }
    }
    let replaced = replace_char_chars(&out, '\\', '/');
    string_of(&replaced)
}

// ───────────────────────── LiveGraph answers ─────────────────────────

/// The trust class of a LiveGraph answer.
#[derive(Debug, Clone, Copy, PartialEq, Eq, Structural)]
pub enum AnswerClass {
    Exact,
    Partial,
    Unavailable,
}

impl AnswerClass {
    pub open spec fn name_spec(self) -> Seq<char> {
        match self {
            AnswerClass::Exact => "Exact"@,
            AnswerClass::Partial => "Partial"@,
            AnswerClass::Unavailable => "Unavailable"@,
        }
    }

    /// The class's name as the reports print it.
    pub fn name(self) -> (r: &'static str)
        ensures
            r@ == self.name_spec(),
    {
        match self {
            AnswerClass::Exact => "Exact",
            AnswerClass::Partial => "Partial",
            AnswerClass::Unavailable => "Unavailable",
        }
    }
}

/// The freshness of a LiveGraph answer.
#[derive(Debug, Clone, Copy, PartialEq, Eq, Structural)]
pub enum FreshnessState {
    Fresh,
    Stale,
    RefreshFailed,
    PrecisionPending,
}

/// A contributing language's support level, as far as the `Auto` decision
/// distinguishes it.
#[derive(Debug, Clone, Copy, PartialEq, Eq, Structural)]
pub enum LanguageSupport {
    TypeScriptPrimary,
    Other,
}

pub open spec fn ts_only_spec(langs: Seq<LanguageSupport>) -> bool {
    langs.len() > 0 && forall|i: int| 0 <= i < langs.len() ==> langs[i] == LanguageSupport::TypeScriptPrimary
}

/// The contributing languages are non-empty and all TypeScript-primary.
pub fn ts_only(langs: &Vec<LanguageSupport>) -> (r: bool)
    ensures
        r == ts_only_spec(langs@),
{
    if langs.len() == 0 {
        return false;
    }
    let mut i: usize = 0;
    while i < langs.len()
        invariant
            i <= langs.len(),
            forall|j: int| 0 <= j < i ==> langs@[j] == LanguageSupport::TypeScriptPrimary,
        decreases langs.len() - i,
    {
        if langs[i] != LanguageSupport::TypeScriptPrimary {
            return false;
        }
        i = i + 1;
    }
    true
}

/// A LiveGraph callers / callees answer reduced to what the `Auto` decision needs.
pub struct LgAuto {
    pub class: AnswerClass,
    pub freshness: FreshnessState,
    /// The contributing languages are non-empty and all TypeScript-primary.
    pub ts_only: bool,
    pub keys: Vec<String>,
}

/// The `Auto` decision: serve the LiveGraph keys only when the answer is
/// Exact, Fresh and TypeScript-only; freshness is checked before class, so a
/// stale answer reports `LiveGraphStale`.
pub open spec fn auto_outcome_spec(lg: Option<LgAuto>) -> Result<Seq<Seq<char>>, FallbackReason> {
    match lg {
        None => Err(FallbackReason::LiveGraphUnavailable),
        Some(a) => if a.freshness != FreshnessState::Fresh {
            Err(FallbackReason::LiveGraphStale)
        } else if a.class != AnswerClass::Exact {
            Err(FallbackReason::LiveGraphPartial)
        } else if !a.ts_only {
            Err(FallbackReason::LiveGraphUnsupportedLanguage)
        } else {
            Ok(strs(a.keys@))
        },
    }
}

pub open spec fn keys_result(r: Result<Vec<String>, FallbackReason>) -> Result<Seq<Seq<char>>, FallbackReason> {
    match r {
        Ok(k) => Ok(strs(k@)),
        Err(e) => Err(e),
    }
}

pub fn auto_outcome(lg: Option<LgAuto>) -> (r: Result<Vec<String>, FallbackReason>)
    ensures
        keys_result(r) == auto_outcome_spec(lg),
{
    match lg {
        None => Err(FallbackReason::LiveGraphUnavailable),
        Some(a) => if a.freshness != FreshnessState::Fresh {
            Err(FallbackReason::LiveGraphStale)
        } else if a.class != AnswerClass::Exact {
            Err(FallbackReason::LiveGraphPartial)
        } else if !a.ts_only {
            Err(FallbackReason::LiveGraphUnsupportedLanguage)
        } else {
            Ok(a.keys)
        },
    }
}

// ───────────────────────── key comparison ─────────────────────────

/// The elements of `s`, in order, that `other` does not hold.
pub open spec fn not_in(s: Seq<Seq<char>>, other: Seq<Seq<char>>) -> Seq<Seq<char>>
    decreases s.len(),
{
    if s.len() == 0 {
        Seq::<Seq<char>>::empty()
    } else if other.contains(s.last()) {
        not_in(s.drop_last(), other)
    } else {
        not_in(s.drop_last(), other).push(s.last())
    }
}

proof fn lemma_not_in_contains(s: Seq<Seq<char>>, other: Seq<Seq<char>>)
    ensures
        forall|y: Seq<char>| #[trigger] not_in(s, other).contains(y) <==> s.contains(y) && !other.contains(y),
    decreases s.len(),
{
    if s.len() > 0 {
        let t = s.drop_last();
        lemma_not_in_contains(t, other);
        assert forall|y: Seq<char>| #[trigger] not_in(s, other).contains(y) <==> s.contains(y) && !other.contains(y) by {
            let p = not_in(t, other);
            if not_in(s, other).contains(y) {
                let k = choose|k: int| 0 <= k < not_in(s, other).len() && not_in(s, other)[k] == y;
                if k < p.len() {
                    assert(p[k] == y);
                    assert(p.contains(y));
                    let j = choose|j: int| 0 <= j < t.len() && t[j] == y;
                    assert(s[j] == y);
                } else {
                    assert(y == s.last());
                    assert(s[s.len() - 1] == y);
                }
            }
            if s.contains(y) && !other.contains(y) {
                let k = choose|k: int| 0 <= k < s.len() && s[k] == y;
                if k == s.len() - 1 {
                    assert(not_in(s, other) == p.push(y));
                    assert(not_in(s, other)[p.len() as int] == y);
                } else {
                    assert(t[k] == y);
                    assert(p.contains(y));
                    let j = choose|j: int| 0 <= j < p.len() && p[j] == y;
                    if other.contains(s.last()) {
                        assert(not_in(s, other)[j] == y);
                    } else {
                        assert(not_in(s, other)[j] == y);
                    }
                }
            }
        }
    }
}

/// Law: a key comparison reports exactly the set differences. A key is
/// missing from LiveGraph iff SQLite has it and LiveGraph does not, extra iff
/// the reverse, never both; and both lists are empty iff the two sides hold
/// the same keys.
pub proof fn lemma_compare_is_set_difference(sqlite: Seq<Seq<char>>, live: Seq<Seq<char>>)
    ensures
        forall|y: Seq<char>|
            #[trigger] not_in(sort_distinct(sqlite), live).contains(y) <==> sqlite.contains(y) && !live.contains(y),
        forall|y: Seq<char>|
            #[trigger] not_in(sort_distinct(live), sqlite).contains(y) <==> live.contains(y) && !sqlite.contains(y),
        (not_in(sort_distinct(sqlite), live).len() == 0 && not_in(sort_distinct(live), sqlite).len() == 0) <==> (
        forall|y: Seq<char>| #[trigger] sqlite.contains(y) == live.contains(y)),
{
    lemma_sort_distinct(sqlite);
    lemma_sort_distinct(live);
    lemma_not_in_contains(sort_distinct(sqlite), live);
    lemma_not_in_contains(sort_distinct(live), sqlite);
    let miss = not_in(sort_distinct(sqlite), live);
    let extra = not_in(sort_distinct(live), sqlite);
    if miss.len() == 0 && extra.len() == 0 {
        assert forall|y: Seq<char>| #[trigger] sqlite.contains(y) == live.contains(y) by {
            if sqlite.contains(y) && !live.contains(y) {
                assert(sort_distinct(sqlite).contains(y));
                assert(miss.contains(y));
            }
            if live.contains(y) && !sqlite.contains(y) {
                assert(sort_distinct(live).contains(y));
                assert(extra.contains(y));
            }
        }
    }
    if forall|y: Seq<char>| #[trigger] sqlite.contains(y) == live.contains(y) {
        if miss.len() > 0 {
            assert(miss.contains(miss[0]));
            assert(sqlite.contains(miss[0]));
        }
        if extra.len() > 0 {
            assert(extra.contains(extra[0]));
            assert(live.contains(extra[0]));
        }
    }
}

pub fn not_in_exec(s: &Vec<String>, other: &Vec<String>) -> (r: Vec<String>)
    ensures
        strs(r@) == not_in(strs(s@), strs(other@)),
{
    let mut out: Vec<String> = Vec::new();
    let mut i: usize = 0;
    while i < s.len()
        invariant
            i <= s.len(),
            strs(out@) == not_in(strs(s@).subrange(0, i as int), strs(other@)),
        decreases s.len() - i,
    {
        proof {
            let t = strs(s@).subrange(0, i + 1);
            assert(t.drop_last() =~= strs(s@).subrange(0, i as int));
            assert(t.last() == s@[i as int]@);
        }
        if !crate::text::contains_str(other, s[i].as_str()) {
            let ghost prev = out@;
            out.push(owned(s[i].as_str()));
            assert(strs(out@) =~= strs(prev).push(s@[i as int]@));
        }
        i = i + 1;
    }
    assert(strs(s@).subrange(0, s.len() as int) == strs(s@));
    out
}

/// The classified comparison of a SQLite and a LiveGraph key set: the keys
/// each side lacks, in ascending order without repeats, plus counts and the
/// trust-class posture. `identity_mismatch` and `edge_basis_mismatch` are
/// reserved and empty.
pub struct CompareReport {
    pub symbol: String,
    pub kind: String,
    pub sqlite_count: usize,
    pub livegraph_count: usize,
    pub livegraph_class: String,
    pub missing_in_livegraph: Vec<String>,
    pub extra_in_livegraph: Vec<String>,
    pub identity_mismatch: Vec<String>,
    pub edge_basis_mismatch: Vec<String>,
    pub partition_unavailable: bool,
    pub trust_class_mismatch: Vec<String>,
}

/// What `compare_keys` reports.
pub open spec fn compare_keys_spec(
    r: CompareReport,
    symbol: Seq<char>,
    kind: Seq<char>,
    sqlite_keys: Seq<Seq<char>>,
    lg: Option<(AnswerClass, Seq<Seq<char>>)>,
) -> bool {
    &&& r.symbol@ == symbol
    &&& r.kind@ == kind
    &&& r.sqlite_count == sqlite_keys.len()
    &&& r.identity_mismatch@.len() == 0
    &&& r.edge_basis_mismatch@.len() == 0
    &&& match lg {
        None => {
            &&& r.livegraph_count == 0
            &&& r.livegraph_class@ == "Unavailable"@
            &&& r.missing_in_livegraph@.len() == 0
            &&& r.extra_in_livegraph@.len() == 0
            &&& r.partition_unavailable
            &&& r.trust_class_mismatch@.len() == 0
        },
        Some((class, lg_keys)) => {
            &&& r.livegraph_count == lg_keys.len()
            &&& r.livegraph_class@ == class.name_spec()
            &&& strs(r.missing_in_livegraph@) == not_in(sort_distinct(sqlite_keys), lg_keys)
            &&& strs(r.extra_in_livegraph@) == not_in(sort_distinct(lg_keys), sqlite_keys)
            &&& !r.partition_unavailable
            &&& strs(r.trust_class_mismatch@) == if class == AnswerClass::Exact {
                Seq::<Seq<char>>::empty()
            } else {
                seq!["livegraph_class="@ + class.name_spec()]
            }
        },
    }
}

pub open spec fn lg_keys_view(lg: Option<(AnswerClass, Vec<String>)>) -> Option<(AnswerClass, Seq<Seq<char>>)> {
    match lg {
        Some((c, k)) => Some((c, strs(k@))),
        None => None,
    }
}

/// Pure key-set comparison. `lg == None` means the LiveGraph could not answer
/// (no resident partition), which the report marks `partition_unavailable`.
pub fn compare_keys(
    symbol: &str,
    kind: &str,
    sqlite_keys: &Vec<String>,
    lg: Option<(AnswerClass, Vec<String>)>,
) -> (r: CompareReport)
    ensures
        compare_keys_spec(r, symbol@, kind@, strs(sqlite_keys@), lg_keys_view(lg)),
{
    match lg {
        None => CompareReport {
            symbol: owned(symbol),
            kind: owned(kind),
            sqlite_count: sqlite_keys.len(),
            livegraph_count: 0,
            livegraph_class: owned("Unavailable"),
            missing_in_livegraph: Vec::new(),
            extra_in_livegraph: Vec::new(),
            identity_mismatch: Vec::new(),
            edge_basis_mismatch: Vec::new(),
            partition_unavailable: true,
            trust_class_mismatch: Vec::new(),
        },
        Some((class, lg_keys)) => {
            let sql_set = sort_distinct_strings(sqlite_keys);
            let lg_set = sort_distinct_strings(&lg_keys);
            let missing = not_in_exec(&sql_set, &lg_keys);
            let extra = not_in_exec(&lg_set, sqlite_keys);
            let mut trust: Vec<String> = Vec::new();
            if class != AnswerClass::Exact {
                let mut m: Vec<char> = Vec::new();
                push_str(&mut m, "livegraph_class=");
                push_str(&mut m, class.name());
                trust.push(string_of(&m));
                assert(strs(trust@) =~= seq!["livegraph_class="@ + class.name_spec()]);
            } else {
                assert(strs(trust@) =~= Seq::<Seq<char>>::empty());
            }
            CompareReport {
                symbol: owned(symbol),
                kind: owned(kind),
                sqlite_count: sqlite_keys.len(),
                livegraph_count: lg_keys.len(),
                livegraph_class: owned(class.name()),
                missing_in_livegraph: missing,
                extra_in_livegraph: extra,
                identity_mismatch: Vec::new(),
                edge_basis_mismatch: Vec::new(),
                partition_unavailable: false,
                trust_class_mismatch: trust,
            }
        },
    }
}

// ───────────────────────── key display ─────────────────────────

/// The symbol name of a canonical key `repo:file#name:KIND:SUBTYPE`: the text
/// after the first `#` up to the next `:`; the whole key without a `#`.
pub open spec fn key_name_spec(key: Seq<char>) -> Seq<char> {
    match first_of(key, '#') {
        Some(h) => {
            let after = key.subrange(h + 1, key.len() as int);
            match first_of(after, ':') {
                Some(c) => after.subrange(0, c),
                None => after,
            }
        },
        None => key,
    }
}

pub fn key_name(key: &str) -> (r: String)
    ensures
        r@ == key_name_spec(key@),
{
    let k = chars_of(key);
    match find_first(&k, '#') {
        Some(h) => {
            let after = slice_chars(&k, h + 1, k.len());
            match find_first(&after, ':') {
                Some(c) => string_of(&slice_chars(&after, 0, c)),
                None => string_of(&after),
            }
        },
        None => string_of(&k),
    }
}

/// A file node key `{repo}:{path}:FILE` displayed as `{path}`: a trailing
/// `:FILE` is dropped, then everything up to the first `:`.
pub open spec fn file_display_spec(key: Seq<char>) -> Seq<char> {
    let no_file = if has_suffix(key, ":FILE"@) {
        key.subrange(0, key.len() - ":FILE"@.len())
    } else {
        key
    };
    match first_of(no_file, ':') {
        Some(i) => no_file.subrange(i + 1, no_file.len() as int),
        None => no_file,
    }
}

pub fn file_display(key: &str) -> (r: String)
    ensures
        r@ == file_display_spec(key@),
{
    let k = chars_of(key);
    let suf = chars_of(":FILE");
    let no_file = if vec_has_suffix(&k, &suf) {
        slice_chars(&k, 0, k.len() - suf.len())
    } else {
        k
    };
    match find_first(&no_file, ':') {
        Some(i) => string_of(&slice_chars(&no_file, i + 1, no_file.len())),
        None => string_of(&no_file),
    }
}

// ───────────────────────── path comparison ─────────────────────────

/// The classified comparison of a SQLite path and a LiveGraph path.
pub struct PathCompareReport {
    pub from: String,
    pub to: String,
    pub sqlite_found: bool,
    pub sqlite_path: Vec<String>,
    pub livegraph_found: bool,
    pub livegraph_class: String,
    pub livegraph_path: Vec<String>,
    pub partition_unavailable: bool,
    /// PathOnlyInSqlite / PathOnlyInLiveGraph / DifferentPath / LiveGraphPartial /
    /// PartitionUnavailable / TrustClassMismatch; empty when the backends agree.
    pub buckets: Vec<String>,
}

/// The buckets of a path comparison, in order: the class posture, then the
/// found / path agreement.
pub open spec fn path_buckets(
    class: AnswerClass,
    sqlite_found: bool,
    sqlite_path: Seq<Seq<char>>,
    lg_found: bool,
    lg_path: Seq<Seq<char>>,
) -> Seq<Seq<char>> {
    let a = if class == AnswerClass::Partial {
        seq!["LiveGraphPartial"@]
    } else if class != AnswerClass::Exact {
        seq!["TrustClassMismatch"@]
    } else {
        Seq::<Seq<char>>::empty()
    };
    let b = if sqlite_found && !lg_found {
        seq!["PathOnlyInSqlite"@]
    } else if !sqlite_found && lg_found {
        seq!["PathOnlyInLiveGraph"@]
    } else if sqlite_found && lg_found && sqlite_path != lg_path {
        seq!["DifferentPath"@]
    } else {
        Seq::<Seq<char>>::empty()
    };
    a + b
}

fn strings_eq(a: &Vec<String>, b: &Vec<String>) -> (r: bool)
    ensures
        r == (strs(a@) == strs(b@)),
{
    if a.len() != b.len() {
        assert(strs(a@).len() != strs(b@).len());
        return false;
    }
    let mut i: usize = 0;
    while i < a.len()
        invariant
            a.len() == b.len(),
            i <= a.len(),
            forall|j: int| 0 <= j < i ==> a@[j]@ == b@[j]@,
        decreases a.len() - i,
    {
        if !str_eq(a[i].as_str(), b[i].as_str()) {
            assert(strs(a@)[i as int] != strs(b@)[i as int]);
            return false;
        }
        i = i + 1;
    }
    assert(strs(a@) =~= strs(b@));
    true
}

pub open spec fn lg_path_view(lg: Option<(AnswerClass, FreshnessState, bool, Vec<String>)>) -> Option<(AnswerClass, bool, Seq<Seq<char>>)> {
    match lg {
        Some((c, _f, found, p)) => Some((c, found, strs(p@))),
        None => None,
    }
}

/// Compares a SQLite path answer with a LiveGraph one (`None`: no LiveGraph).
pub fn compare_path(
    from: &str,
    to: &str,
    sqlite_found: bool,
    sqlite_path: Vec<String>,
    lg: Option<(AnswerClass, FreshnessState, bool, Vec<String>)>,
) -> (r: PathCompareReport)
    ensures
        r.from@ == from@,
        r.to@ == to@,
        r.sqlite_found == sqlite_found,
        strs(r.sqlite_path@) == strs(sqlite_path@),
        match lg_path_view(lg) {
            None => {
                &&& !r.livegraph_found
                &&& r.livegraph_class@ == "Unavailable"@
                &&& r.livegraph_path@.len() == 0
                &&& r.partition_unavailable
                &&& strs(r.buckets@) == seq!["PartitionUnavailable"@]
            },
            Some((class, lg_found, lg_path)) => {
                &&& r.livegraph_found == lg_found
                &&& r.livegraph_class@ == class.name_spec()
                &&& strs(r.livegraph_path@) == lg_path
                &&& !r.partition_unavailable
                &&& strs(r.buckets@) == path_buckets(class, sqlite_found, strs(sqlite_path@), lg_found, lg_path)
            },
        },
{
    let mut buckets: Vec<String> = Vec::new();
    match lg {
        None => {
            buckets.push(owned("PartitionUnavailable"));
            assert(strs(buckets@) =~= seq!["PartitionUnavailable"@]);
            PathCompareReport {
                from: owned(from),
                to: owned(to),
                sqlite_found,
                sqlite_path,
                livegraph_found: false,
                livegraph_class: owned("Unavailable"),
                livegraph_path: Vec::new(),
                partition_unavailable: true,
                buckets,
            }
        },
        Some((class, _freshness, lg_found, lg_path)) => {
            if class == AnswerClass::Partial {
                buckets.push(owned("LiveGraphPartial"));
            } else if class != AnswerClass::Exact {
                buckets.push(owned("TrustClassMismatch"));
            }
            let ghost a = strs(buckets@);
            if sqlite_found && !lg_found {
                buckets.push(owned("PathOnlyInSqlite"));
            } else if !sqlite_found && lg_found {
                buckets.push(owned("PathOnlyInLiveGraph"));
            } else if sqlite_found && lg_found && !strings_eq(&sqlite_path, &lg_path) {
                buckets.push(owned("DifferentPath"));
            }
            assert(strs(buckets@) =~= path_buckets(class, sqlite_found, strs(sqlite_path@), lg_found, strs(lg_path@)));
            PathCompareReport {
                from: owned(from),
                to: owned(to),
                sqlite_found,
                sqlite_path,
                livegraph_found: lg_found,
                livegraph_class: owned(class.name()),
                livegraph_path: lg_path,
                partition_unavailable: false,
                buckets,
            }
        },
    }
}

// ───────────────────────── per-file import verdicts ─────────────────────────

pub open spec fn directional_status_spec(precondition_met: bool, has_missing: bool, has_extra: bool) -> Seq<char> {
    if !precondition_met {
        "FallbackPreconditionUnmet"@
    } else if has_missing {
        "Regression"@
    } else if has_extra {
        "NoLossLivegraphSuperset"@
    } else {
        "NoLossEquivalent"@
    }
}

/// Law: a file whose partition precondition is unmet always falls back to
/// SQLite, whatever the compare found; a no-loss status (equivalent or
/// LiveGraph superset) is given only with the precondition met and no SQLite
/// import missing from the LiveGraph; a regression only with the precondition
/// met and a SQLite import missing; equivalence only when nothing is extra.
pub proof fn lemma_directional_status_law(precondition_met: bool, has_missing: bool, has_extra: bool)
    ensures
        !precondition_met ==> directional_status_spec(precondition_met, has_missing, has_extra)
            == "FallbackPreconditionUnmet"@,
        directional_status_spec(precondition_met, has_missing, has_extra) == "FallbackPreconditionUnmet"@
            ==> !precondition_met,
        directional_status_spec(precondition_met, has_missing, has_extra) == "NoLossEquivalent"@
            ==> precondition_met && !has_missing && !has_extra,
        directional_status_spec(precondition_met, has_missing, has_extra) == "NoLossLivegraphSuperset"@
            ==> precondition_met && !has_missing && has_extra,
        directional_status_spec(precondition_met, has_missing, has_extra) == "Regression"@
            <==> precondition_met && has_missing,
{
    reveal_strlit("FallbackPreconditionUnmet");
    reveal_strlit("NoLossEquivalent");
    reveal_strlit("NoLossLivegraphSuperset");
    reveal_strlit("Regression");
    let fb = "FallbackPreconditionUnmet"@;
    let eq = "NoLossEquivalent"@;
    let sup = "NoLossLivegraphSuperset"@;
    let reg = "Regression"@;
    assert(fb != eq && fb != sup && fb != reg) by {
        assert(fb[0] != eq[0] && fb[0] != sup[0] && fb[0] != reg[0]);
    }
    assert(eq != sup) by {
        assert(eq.len() != sup.len());
    }
    assert(eq != reg && sup != reg) by {
        assert(eq[0] != reg[0] && sup[0] != reg[0]);
    }
}

/// The per-file directional status: an unmet precondition means the file
/// falls back to SQLite; with it met, a SQLite import the LiveGraph lacks is a
/// regression, extra LiveGraph edges alone are a superset, and otherwise the
/// two agree.
pub fn directional_status(precondition_met: bool, has_missing: bool, has_extra: bool) -> (r: &'static str)
    ensures
        r@ == directional_status_spec(precondition_met, has_missing, has_extra),
{
    if !precondition_met {
        "FallbackPreconditionUnmet"
    } else if has_missing {
        "Regression"
    } else if has_extra {
        "NoLossLivegraphSuperset"
    } else {
        "NoLossEquivalent"
    }
}

/// The resident partition status of a file: whether it is fresh, whether it
/// is TypeScript-primary, and whether the LiveGraph import precondition holds
/// for it (as the partition reports it).
#[derive(Clone, Copy)]
pub struct FilePartitionStatus {
    pub fresh: bool,
    pub ts_primary: bool,
    pub precondition_met: bool,
}

pub open spec fn precondition_fallback_reason_spec(precond: Option<FilePartitionStatus>) -> FallbackReason {
    match precond {
        None => FallbackReason::LiveGraphUnavailable,
        Some(s) => if !s.fresh {
            FallbackReason::LiveGraphStale
        } else if !s.ts_primary {
            FallbackReason::LiveGraphUnsupportedLanguage
        } else {
            FallbackReason::LiveGraphUnavailable
        },
    }
}

/// The fallback reason of an unmet import precondition: no resident
/// partition owns the file, or it is stale, or it is not TypeScript-primary.
pub fn precondition_fallback_reason(precond: Option<FilePartitionStatus>) -> (r: FallbackReason)
    ensures
        r == precondition_fallback_reason_spec(precond),
{
    match precond {
        None => FallbackReason::LiveGraphUnavailable,
        Some(s) => if !s.fresh {
            FallbackReason::LiveGraphStale
        } else if !s.ts_primary {
            FallbackReason::LiveGraphUnsupportedLanguage
        } else {
            FallbackReason::LiveGraphUnavailable
        },
    }
}

/// One SQLite import row: the importing file, the target, and the target's
/// kind, subtype and resolution.
pub struct ImportRow {
    pub source_file: String,
    pub target_file: String,
    pub kind: String,
    pub subtype: Option<String>,
    pub resolution: Option<String>,
}

pub struct ImportRowView {
    pub source_file: Seq<char>,
    pub target_file: Seq<char>,
    pub kind: Seq<char>,
    pub subtype: Option<Seq<char>>,
    pub resolution: Option<Seq<char>>,
}

pub open spec fn opt_string(o: Option<String>) -> Option<Seq<char>> {
    match o {
        Some(s) => Some(s@),
        None => None,
    }
}

impl View for ImportRow {
    type V = ImportRowView;

    open spec fn view(&self) -> ImportRowView {
        ImportRowView {
            source_file: self.source_file@,
            target_file: self.target_file@,
            kind: self.kind@,
            subtype: opt_string(self.subtype),
            resolution: opt_string(self.resolution),
        }
    }
}

pub open spec fn rows_view(rows: Seq<ImportRow>) -> Seq<ImportRowView> {
    rows.map_values(|r: ImportRow| r@)
}

/// A file-target import that is not external.
pub open spec fn is_local_file_import(r: ImportRowView) -> bool {
    r.kind == "FILE"@ && r.target_file.len() > 0 && r.subtype != Some("EXTERNAL"@)
}

/// A resolved-local import: a local file import resolved statically.
pub open spec fn is_resolved_local(r: ImportRowView) -> bool {
    is_local_file_import(r) && r.resolution == Some("static"@)
}

/// An unknown import: a local file import that is not resolved statically;
/// it could hide a loss.
pub open spec fn is_unknown_import(r: ImportRowView) -> bool {
    is_local_file_import(r) && r.resolution != Some("static"@)
}

fn opt_is(o: &Option<String>, lit: &str) -> (r: bool)
    ensures
        r == (opt_string(*o) == Some(lit@)),
{
    match o {
        Some(s) => str_eq(s.as_str(), lit),
        None => false,
    }
}

pub fn classify_import(r: &ImportRow) -> (c: (bool, bool))
    ensures
        c.0 == is_resolved_local(r@),
        c.1 == is_unknown_import(r@),
{
    let local = str_eq(r.kind.as_str(), "FILE") && r.target_file.as_str().unicode_len() > 0
        && !opt_is(&r.subtype, "EXTERNAL");
    let st = opt_is(&r.resolution, "static");
    (local && st, local && !st)
}

/// The targets of the resolved-local rows, in row order.
pub open spec fn resolved_targets(rows: Seq<ImportRowView>) -> Seq<Seq<char>>
    decreases rows.len(),
{
    if rows.len() == 0 {
        Seq::<Seq<char>>::empty()
    } else if is_resolved_local(rows.last()) {
        resolved_targets(rows.drop_last()).push(rows.last().target_file)
    } else {
        resolved_targets(rows.drop_last())
    }
}

pub open spec fn any_unknown(rows: Seq<ImportRowView>) -> bool {
    exists|i: int| 0 <= i < rows.len() && is_unknown_import(#[trigger] rows[i])
}

/// What the per-file `Auto` import answer states besides the listing it
/// serves: the fallback reason (`None`: the LiveGraph listing is served) and
/// the comparison summary.
pub struct ImportsAutoDecision {
    pub fallback_reason: Option<FallbackReason>,
    pub sqlite_resolved_local: usize,
    pub livegraph_edges: usize,
    pub missing_in_livegraph: usize,
    pub extra_livegraph_edges: usize,
}

pub open spec fn precondition_met_spec(precond: Option<FilePartitionStatus>) -> bool {
    match precond {
        Some(p) => p.precondition_met,
        None => false,
    }
}

/// The per-file `Auto` decision, compare-on-call: serve the LiveGraph edges
/// iff the precondition is met, no SQLite import is unknown and no
/// resolved-local SQLite target is missing from the LiveGraph edge targets.
pub open spec fn imports_auto_fallback(
    rows: Seq<ImportRowView>,
    edge_targets: Seq<Seq<char>>,
    precond: Option<FilePartitionStatus>,
) -> Option<FallbackReason> {
    if !precondition_met_spec(precond) {
        Some(precondition_fallback_reason_spec(precond))
    } else if any_unknown(rows) {
        Some(FallbackReason::LiveGraphImportUnknown)
    } else if not_in(sort_distinct(resolved_targets(rows)), edge_targets).len() > 0 {
        Some(FallbackReason::LiveGraphImportRegression)
    } else {
        None
    }
}

fn resolved_targets_exec(rows: &Vec<ImportRow>) -> (r: (Vec<String>, bool))
    ensures
        strs(r.0@) == resolved_targets(rows_view(rows@)),
        r.1 == any_unknown(rows_view(rows@)),
{
    let ghost rv = rows_view(rows@);
    let mut out: Vec<String> = Vec::new();
    let mut unknown = false;
    let mut i: usize = 0;
    while i < rows.len()
        invariant
            i <= rows.len(),
            rv == rows_view(rows@),
            strs(out@) == resolved_targets(rv.subrange(0, i as int)),
            unknown == exists|j: int| 0 <= j < i && is_unknown_import(#[trigger] rv[j]),
        decreases rows.len() - i,
    {
        proof {
            let t = rv.subrange(0, i + 1);
            assert(t.drop_last() =~= rv.subrange(0, i as int));
            assert(t.last() == rows@[i as int]@);
        }
        let (res, unk) = classify_import(&rows[i]);
        if res {
            let ghost prev = out@;
            out.push(owned(rows[i].target_file.as_str()));
            assert(strs(out@) =~= strs(prev).push(rows@[i as int]@.target_file));
        }
        if unk {
            unknown = true;
            assert(is_unknown_import(rv[i as int]));
        }
        i = i + 1;
    }
    assert(rv.subrange(0, rows.len() as int) == rv);
    (out, unknown)
}

/// The per-file `Auto` import decision over the file's SQLite import rows, the
/// file's LiveGraph edge targets, and its partition status.
pub fn imports_auto_decision(
    sqlite_imports: &Vec<ImportRow>,
    edge_targets: &Vec<String>,
    precond: Option<FilePartitionStatus>,
) -> (r: ImportsAutoDecision)
    ensures
        r.fallback_reason == imports_auto_fallback(rows_view(sqlite_imports@), strs(edge_targets@), precond),
        r.sqlite_resolved_local == sort_distinct(resolved_targets(rows_view(sqlite_imports@))).len(),
        r.livegraph_edges == edge_targets.len(),
        r.missing_in_livegraph == not_in(
            sort_distinct(resolved_targets(rows_view(sqlite_imports@))),
            strs(edge_targets@),
        ).len(),
        r.extra_livegraph_edges == not_in(
            sort_distinct(strs(edge_targets@)),
            resolved_targets(rows_view(sqlite_imports@)),
        ).len(),
{
    let (resolved, has_unknown) = resolved_targets_exec(sqlite_imports);
    let resolved_set = sort_distinct_strings(&resolved);
    let lg_set = sort_distinct_strings(edge_targets);
    let missing = not_in_exec(&resolved_set, edge_targets);
    let extra = not_in_exec(&lg_set, &resolved);
    let met = match precond {
        Some(p) => p.precondition_met,
        None => false,
    };
    let fallback_reason = if !met {
        Some(precondition_fallback_reason(precond))
    } else if has_unknown {
        Some(FallbackReason::LiveGraphImportUnknown)
    } else if missing.len() > 0 {
        Some(FallbackReason::LiveGraphImportRegression)
    } else {
        None
    };
    proof {
        assert(strs(missing@).len() == missing@.len());
        assert(strs(extra@).len() == extra@.len());
        assert(strs(resolved_set@).len() == resolved_set@.len());
    }
    ImportsAutoDecision {
        fallback_reason,
        sqlite_resolved_local: resolved_set.len(),
        livegraph_edges: edge_targets.len(),
        missing_in_livegraph: missing.len(),
        extra_livegraph_edges: extra.len(),
    }
}

// ───────────────────────── no-loss certificates ─────────────────────────

/// A resident LiveGraph partition, as far as the certificate fingerprint reads it.
pub struct LivePartition {
    pub id: String,
    pub epoch: u64,
    pub fresh: bool,
    pub ts: bool,
    pub source_inputs_hash: String,
    pub producer_fingerprint: String,
}

pub open spec fn flag_digit(b: bool) -> Seq<char> {
    if b {
        "1"@
    } else {
        "0"@
    }
}

/// One partition's part of the fingerprint:
/// `{id}@{epoch}:f{0|1}:ts{0|1}:{source_inputs_hash}:{producer_fingerprint}`.
pub open spec fn partition_part(p: LivePartition) -> Seq<char> {
    p.id@ + "@"@ + decimal(p.epoch as nat) + ":f"@ + flag_digit(p.fresh) + ":ts"@ + flag_digit(p.ts) + ":"@
        + p.source_inputs_hash@ + ":"@ + p.producer_fingerprint@
}

/// The SQLite-free certificate fingerprint:
/// `imp|snap:{snapshot_uid}|pol:{policy}|parts[{sorted parts joined by ","}]`.
pub open spec fn cert_fingerprint_spec(parts: Seq<LivePartition>, snapshot_uid: Seq<char>, policy: Seq<char>) -> Seq<char> {
    "imp|snap:"@ + snapshot_uid + "|pol:"@ + policy + "|parts["@ + join_with(
        sort_seq(parts.map_values(|p: LivePartition| partition_part(p))),
        ","@,
    ) + "]"@
}

/// Law: the fingerprint does not depend on the order in which the resident
/// partitions are listed.
pub proof fn lemma_fingerprint_order_free(
    a: Seq<LivePartition>,
    b: Seq<LivePartition>,
    snapshot_uid: Seq<char>,
    policy: Seq<char>,
)
    requires
        a.to_multiset() == b.to_multiset(),
    ensures
        cert_fingerprint_spec(a, snapshot_uid, policy) == cert_fingerprint_spec(b, snapshot_uid, policy),
{
    let f = |p: LivePartition| partition_part(p);
    lemma_map_values_multiset(a, b, f);
    lemma_sort_seq_order_free(a.map_values(f), b.map_values(f));
}

fn push_flag(m: &mut Vec<char>, b: bool)
    ensures
        final(m)@ == old(m)@ + flag_digit(b),
{
    if b {
        push_str(m, "1");
    } else {
        push_str(m, "0");
    }
}

fn partition_part_exec(p: &LivePartition) -> (r: String)
    ensures
        r@ == partition_part(*p),
{
    let mut m: Vec<char> = Vec::new();
    push_str(&mut m, p.id.as_str());
    push_str(&mut m, "@");
    let digits = crate::text::decimal_chars(p.epoch);
    crate::text::push_chars(&mut m, &digits);
    push_str(&mut m, ":f");
    push_flag(&mut m, p.fresh);
    push_str(&mut m, ":ts");
    push_flag(&mut m, p.ts);
    push_str(&mut m, ":");
    push_str(&mut m, p.source_inputs_hash.as_str());
    push_str(&mut m, ":");
    push_str(&mut m, p.producer_fingerprint.as_str());
    string_of(&m)
}

/// The fingerprint shared by the import, cycles and stats certificates: a
/// digest of the resident partitions (epoch, freshness, language, source
/// digest, producer), the SQLite snapshot, and the import-completeness policy
/// version. Any refresh, swap, re-index or policy bump changes it.
pub fn import_cert_fingerprint(partitions: &Vec<LivePartition>, snapshot_uid: &str, policy_version: &str) -> (r: String)
    ensures
        r@ == cert_fingerprint_spec(partitions@, snapshot_uid@, policy_version@),
{
    let ghost pv = partitions@.map_values(|p: LivePartition| partition_part(p));
    let mut parts: Vec<String> = Vec::new();
    let mut i: usize = 0;
    while i < partitions.len()
        invariant
            i <= partitions.len(),
            pv == partitions@.map_values(|p: LivePartition| partition_part(p)),
            strs(parts@) == pv.subrange(0, i as int),
        decreases partitions.len() - i,
    {
        let part = partition_part_exec(&partitions[i]);
        let ghost prev = parts@;
        parts.push(part);
        proof {
            assert(strs(parts@) =~= strs(prev).push(part@));
            assert(pv.subrange(0, i + 1) =~= pv.subrange(0, i as int).push(pv[i as int]));
        }
        i = i + 1;
    }
    assert(pv.subrange(0, partitions.len() as int) == pv);
    let sorted = sort_strings(&parts);
    let joined = join_strings(&sorted, ",");
    let mut m: Vec<char> = Vec::new();
    push_str(&mut m, "imp|snap:");
    push_str(&mut m, snapshot_uid);
    push_str(&mut m, "|pol:");
    push_str(&mut m, policy_version);
    push_str(&mut m, "|parts[");
    push_str(&mut m, joined.as_str());
    push_str(&mut m, "]");
    string_of(&m)
}

/// The in-memory repo-level import no-loss certificate: the repo-wide
/// compare verdict (`GREEN` / `YELLOW` / `RED`) and the fingerprint it was
/// computed at.
pub struct ImportNoLossCert {
    pub verdict: String,
    pub fingerprint: String,
}

/// The module-cycle no-loss certificate: the set-compare verdict, the
/// cycle-values verdict, and the fingerprint they were computed at.
pub struct CycleNoLossCert {
    pub verdict: String,
    pub values_verdict: String,
    pub fingerprint: String,
}

/// The stats no-loss certificate: the field-exact compare verdict and the
/// fingerprint it was computed at.
pub struct StatsNoLossCert {
    pub verdict: String,
    pub fingerprint: String,
}

/// A stored certificate, as the eligibility peek reads it: its fingerprint
/// and verdict.
pub open spec fn green_at(fingerprint: Seq<char>, verdict: Seq<char>, fp: Seq<char>) -> bool {
    fingerprint == fp && verdict == "GREEN"@
}

pub open spec fn cert_view(cert: Option<(&str, &str)>) -> Option<(Seq<char>, Seq<char>)> {
    match cert {
        Some((f, v)) => Some((f@, v@)),
        None => None,
    }
}

pub open spec fn opt_string_view(o: Option<String>) -> Option<Seq<char>> {
    match o {
        Some(s) => Some(s@),
        None => None,
    }
}

/// The eligibility peek: with a resident fingerprint, `Some` of it iff the
/// stored certificate is GREEN at exactly that fingerprint; no LiveGraph
/// resident (no fingerprint) gives `None`.
pub open spec fn peek_spec(cert: Option<(Seq<char>, Seq<char>)>, current_fp: Option<Seq<char>>) -> Option<Seq<char>> {
    match current_fp {
        None => None,
        Some(fp) => match cert {
            Some((f, v)) => if green_at(f, v, fp) {
                Some(fp)
            } else {
                None
            },
            None => None,
        },
    }
}

/// Law: an eligibility witness is exactly the resident fingerprint, backed by
/// a GREEN certificate computed at that fingerprint; a certificate computed at
/// any other fingerprint (as after a swap moves the resident state) never
/// yields one, and without a resident LiveGraph there is none.
pub proof fn lemma_witness_is_exact(cert: Option<(Seq<char>, Seq<char>)>, current_fp: Option<Seq<char>>)
    ensures
        peek_spec(cert, current_fp) is Some ==> current_fp is Some && peek_spec(cert, current_fp) == current_fp
            && cert == Some((current_fp->0, "GREEN"@)),
        (cert matches Some((f, _)) && current_fp matches Some(fp) && f != fp) ==> peek_spec(cert, current_fp) is None,
        current_fp is None ==> peek_spec(cert, current_fp) is None,
{
}

/// Peeks a stored certificate (fingerprint, verdict) at the resident
/// fingerprint (`None`: no LiveGraph resident).
pub fn cert_eligibility(cert: Option<(&str, &str)>, current_fp: Option<String>) -> (r: Option<String>)
    ensures
        opt_string_view(r) == peek_spec(cert_view(cert), opt_string_view(current_fp)),
{
    match current_fp {
        None => None,
        Some(fp) => match cert {
            Some((f, v)) => if str_eq(f, fp.as_str()) && str_eq(v, "GREEN") {
                Some(fp)
            } else {
                None
            },
            None => None,
        },
    }
}

/// A stored certificate is stale at `fp` unless it was computed at exactly `fp`.
pub fn cert_is_stale(cert: Option<(&str, &str)>, fp: &str) -> (r: bool)
    ensures
        r == match cert_view(cert) {
            Some((f, _v)) => f != fp@,
            None => true,
        },
{
    match cert {
        Some((f, _v)) => !str_eq(f, fp),
        None => true,
    }
}

impl ImportNoLossCert {
    /// The (fingerprint, verdict) the eligibility peek reads.
    pub fn key(&self) -> (r: (&str, &str))
        ensures
            r.0@ == self.fingerprint@,
            r.1@ == self.verdict@,
    {
        (self.fingerprint.as_str(), self.verdict.as_str())
    }
}

impl CycleNoLossCert {
    /// The (fingerprint, set-compare verdict) the eligibility peek reads.
    pub fn key(&self) -> (r: (&str, &str))
        ensures
            r.0@ == self.fingerprint@,
            r.1@ == self.verdict@,
    {
        (self.fingerprint.as_str(), self.verdict.as_str())
    }
}

impl StatsNoLossCert {
    /// The (fingerprint, verdict) the eligibility peek reads.
    pub fn key(&self) -> (r: (&str, &str))
        ensures
            r.0@ == self.fingerprint@,
            r.1@ == self.verdict@,
    {
        (self.fingerprint.as_str(), self.verdict.as_str())
    }
}

/// The serve gate under a captured request epoch: the resident fingerprint
/// exists and still equals the captured, green-validated one.
pub fn epoch_eligible(current_fp: &Option<String>, epoch_fp: &Option<String>) -> (r: bool)
    ensures
        r == (opt_string_view(*current_fp) is Some && opt_string_view(*current_fp) == opt_string_view(*epoch_fp)),
{
    match (current_fp, epoch_fp) {
        (Some(c), Some(e)) => str_eq(c.as_str(), e.as_str()),
        _ => false,
    }
}

/// Which backend a certificate-gated route serves.
#[derive(Debug, Clone, Copy, PartialEq, Eq, Structural)]
pub enum ServeChoice {
    /// The LiveGraph, without reading SQLite.
    LiveGraph,
    /// SQLite, labelled with why.
    Sqlite(FallbackReason),
}

/// The fastpath ladder of a certificate-gated route: an unmet precondition
/// serves SQLite with the precondition's reason; a met precondition serves
/// the LiveGraph when the epoch is eligible, else SQLite with the route's
/// divergence reason.
pub open spec fn fastpath_spec(
    precondition_met: bool,
    precondition_reason: FallbackReason,
    eligible: bool,
    divergence: FallbackReason,
) -> ServeChoice {
    if !precondition_met {
        ServeChoice::Sqlite(precondition_reason)
    } else if eligible {
        ServeChoice::LiveGraph
    } else {
        ServeChoice::Sqlite(divergence)
    }
}

pub fn fastpath_choice(
    precondition_met: bool,
    precondition_reason: FallbackReason,
    eligible: bool,
    divergence: FallbackReason,
) -> (r: ServeChoice)
    ensures
        r == fastpath_spec(precondition_met, precondition_reason, eligible, divergence),
{
    if !precondition_met {
        ServeChoice::Sqlite(precondition_reason)
    } else if eligible {
        ServeChoice::LiveGraph
    } else {
        ServeChoice::Sqlite(divergence)
    }
}

/// The `cycles` ladder: the module-cycle divergence reason when the
/// certificate does not license the LiveGraph.
pub fn cycles_fastpath_choice(precondition_met: bool, precondition_reason: FallbackReason, eligible: bool) -> (r: ServeChoice)
    ensures
        r == fastpath_spec(precondition_met, precondition_reason, eligible, FallbackReason::LiveGraphCycleDivergence),
{
    fastpath_choice(precondition_met, precondition_reason, eligible, FallbackReason::LiveGraphCycleDivergence)
}

/// The `stats` ladder: the stats divergence reason when the certificate does
/// not license the LiveGraph.
pub fn stats_fastpath_choice(precondition_met: bool, precondition_reason: FallbackReason, eligible: bool) -> (r: ServeChoice)
    ensures
        r == fastpath_spec(precondition_met, precondition_reason, eligible, FallbackReason::LiveGraphStatsDivergence),
{
    fastpath_choice(precondition_met, precondition_reason, eligible, FallbackReason::LiveGraphStatsDivergence)
}

/// The `imports` ladder: the certificate fastpath (no SQLite read) iff the
/// file's precondition is met and the epoch is eligible; otherwise the
/// per-call compare.
pub fn imports_use_fastpath(precond: Option<FilePartitionStatus>, eligible: bool) -> (r: bool)
    ensures
        r == (precondition_met_spec(precond) && eligible),
{
    let met = match precond {
        Some(p) => p.precondition_met,
        None => false,
    };
    met && eligible
}

/// The verdict a rebuilt certificate stores: the report's verdict, or `RED`
/// when the report carries none.
pub fn stored_verdict(report_verdict: Option<&str>) -> (r: String)
    ensures
        r@ == match opt_view(report_verdict) {
            Some(v) => v,
            None => "RED"@,
        },
{
    match report_verdict {
        Some(v) => owned(v),
        None => owned("RED"),
    }
}

// ───────────────────────── module-cycle comparison ─────────────────────────

/// One classed module-cycle divergence: the cycle as a canonical module-path
/// set and the divergence class.
pub struct ModuleDivergenceEntry {
    pub cycle: Vec<String>,
    pub divergence: String,
}

/// The structural module-cycle comparison report.
pub struct ModuleCycleCompareReport {
    /// SQLite module cycle count.
    pub sqlite_count: usize,
    /// LiveGraph derived module cycle count.
    pub livegraph_count: usize,
    /// The LiveGraph answer's trust class.
    pub livegraph_class: String,
    /// Cycles present in both.
    pub matched: usize,
    /// The LiveGraph has no extra cycle.
    pub livegraph_subset: bool,
    /// SQLite cycles the LiveGraph lacks.
    pub missing_in_livegraph: Vec<ModuleDivergenceEntry>,
    /// LiveGraph cycles SQLite lacks.
    pub extra_in_livegraph: Vec<ModuleDivergenceEntry>,
}

// ───────────────────────── per-file compare sidecar ─────────────────────────

/// The elements of `s`, in order, that `other` holds.
pub open spec fn also_in(s: Seq<Seq<char>>, other: Seq<Seq<char>>) -> Seq<Seq<char>>
    decreases s.len(),
{
    if s.len() == 0 {
        Seq::<Seq<char>>::empty()
    } else if other.contains(s.last()) {
        also_in(s.drop_last(), other).push(s.last())
    } else {
        also_in(s.drop_last(), other)
    }
}

/// The positions of the edges whose target SQLite lacks, in edge order.
pub open spec fn extra_positions(edge_targets: Seq<Seq<char>>, sqlite: Seq<Seq<char>>) -> Seq<int>
    decreases edge_targets.len(),
{
    if edge_targets.len() == 0 {
        Seq::<int>::empty()
    } else if sqlite.contains(edge_targets.last()) {
        extra_positions(edge_targets.drop_last(), sqlite)
    } else {
        extra_positions(edge_targets.drop_last(), sqlite).push(edge_targets.len() - 1)
    }
}

/// The per-file directional compare: the SQLite resolved-local targets the
/// LiveGraph matches and misses (ascending, no repeats), the positions of the
/// LiveGraph edges SQLite lacks, and the file's status.
pub struct ImportsCompareSidecar {
    pub status: &'static str,
    pub matched: Vec<String>,
    pub missing_in_livegraph: Vec<String>,
    pub extra_edges: Vec<usize>,
    pub sqlite_resolved_local_count: usize,
    pub livegraph_edge_count: usize,
}

pub fn imports_compare_sidecar(
    sqlite_resolved_targets: &Vec<String>,
    edge_targets: &Vec<String>,
    precond: Option<FilePartitionStatus>,
) -> (r: ImportsCompareSidecar)
    ensures
        strs(r.matched@) == also_in(sort_distinct(strs(sqlite_resolved_targets@)), strs(edge_targets@)),
        strs(r.missing_in_livegraph@) == not_in(sort_distinct(strs(sqlite_resolved_targets@)), strs(edge_targets@)),
        r.extra_edges@.map_values(|i: usize| i as int) == extra_positions(strs(edge_targets@), strs(sqlite_resolved_targets@)),
        r.sqlite_resolved_local_count == sort_distinct(strs(sqlite_resolved_targets@)).len(),
        r.livegraph_edge_count == edge_targets.len(),
        r.status@ == directional_status_spec(
            precondition_met_spec(precond),
            not_in(sort_distinct(strs(sqlite_resolved_targets@)), strs(edge_targets@)).len() > 0,
            extra_positions(strs(edge_targets@), strs(sqlite_resolved_targets@)).len() > 0,
        ),
        match precond {
            Some(p) => !p.precondition_met ==> r.status@ == "FallbackPreconditionUnmet"@,
            None => r.status@ == "FallbackPreconditionUnmet"@,
        },
{
    let sset = sort_distinct_strings(sqlite_resolved_targets);
    let mut matched: Vec<String> = Vec::new();
    let mut i: usize = 0;
    while i < sset.len()
        invariant
            i <= sset.len(),
            strs(matched@) == also_in(strs(sset@).subrange(0, i as int), strs(edge_targets@)),
        decreases sset.len() - i,
    {
        proof {
            let t = strs(sset@).subrange(0, i + 1);
            assert(t.drop_last() =~= strs(sset@).subrange(0, i as int));
            assert(t.last() == sset@[i as int]@);
        }
        if crate::text::contains_str(edge_targets, sset[i].as_str()) {
            let ghost prev = matched@;
            matched.push(owned(sset[i].as_str()));
            assert(strs(matched@) =~= strs(prev).push(sset@[i as int]@));
        }
        i = i + 1;
    }
    assert(strs(sset@).subrange(0, sset.len() as int) == strs(sset@));
    let missing = not_in_exec(&sset, edge_targets);
    let mut extra: Vec<usize> = Vec::new();
    let mut k: usize = 0;
    while k < edge_targets.len()
        invariant
            k <= edge_targets.len(),
            extra@.map_values(|i: usize| i as int) == extra_positions(strs(edge_targets@).subrange(0, k as int), strs(sqlite_resolved_targets@)),
        decreases edge_targets.len() - k,
    {
        proof {
            let t = strs(edge_targets@).subrange(0, k + 1);
            assert(t.drop_last() =~= strs(edge_targets@).subrange(0, k as int));
            assert(t.last() == edge_targets@[k as int]@);
        }
        if !crate::text::contains_str(sqlite_resolved_targets, edge_targets[k].as_str()) {
            let ghost prev = extra@;
            extra.push(k);
            assert(extra@.map_values(|i: usize| i as int) =~= prev.map_values(|i: usize| i as int).push(k as int));
        }
        k = k + 1;
    }
    assert(strs(edge_targets@).subrange(0, edge_targets.len() as int) == strs(edge_targets@));
    let met = match precond {
        Some(p) => p.precondition_met,
        None => false,
    };
    proof {
        assert(strs(missing@).len() == missing@.len());
        assert(extra@.map_values(|i: usize| i as int).len() == extra@.len());
        assert(strs(sset@).len() == sset@.len());
    }
    let status = directional_status(met, missing.len() > 0, extra.len() > 0);
    proof {
        lemma_directional_status_law(met, missing.len() > 0, extra.len() > 0);
    }
    ImportsCompareSidecar {
        status,
        matched,
        missing_in_livegraph: missing,
        extra_edges: extra,
        sqlite_resolved_local_count: sset.len(),
        livegraph_edge_count: edge_targets.len(),
    }
}

} // verus!
