//! The repo-wide import readiness aggregate: the per-file directional
//! verdict run over the union of SQLite and LiveGraph import-bearing files,
//! folded into metrics and a GREEN / YELLOW / RED verdict.
//!
//! A file whose LiveGraph precondition is unmet falls back (never a
//! regression); a met file missing a SQLite resolved-local target is a
//! regression; an unknown SQLite import (a local file import not resolved
//! statically) could hide a loss and forces RED.
use crate::livegraph_feed::{
    classify_import, is_resolved_local, is_unknown_import, not_in, not_in_exec, ImportRow,
    ImportRowView, FilePartitionStatus, rows_view,
};
use crate::sorted::{lemma_sort_distinct, sort_distinct, sort_distinct_strings, strictly_sorted, ins_distinct};
use crate::text::{owned, str_eq, strs};
use vstd::prelude::*;
use vstd::string::*;

verus! {

// ───────────────────────── inputs ─────────────────────────

/// A LiveGraph import observation of a source file: its class, and whether
/// it blocks the no-loss claim.
pub struct ImportObservation {
    pub source_file: String,
    pub class: String,
    pub blocking: bool,
}

pub struct ObsView {
    pub source_file: Seq<char>,
    pub class: Seq<char>,
    pub blocking: bool,
}

impl View for ImportObservation {
    type V = ObsView;

    open spec fn view(&self) -> ObsView {
        ObsView { source_file: self.source_file@, class: self.class@, blocking: self.blocking }
    }
}

pub open spec fn obs_view(o: Seq<ImportObservation>) -> Seq<ObsView> {
    o.map_values(|x: ImportObservation| x@)
}

pub open spec fn edges_view(e: Seq<(String, String)>) -> Seq<(Seq<char>, Seq<char>)> {
    e.map_values(|x: (String, String)| (x.0@, x.1@))
}

pub open spec fn statuses_view(m: Seq<(String, FilePartitionStatus)>) -> Seq<(Seq<char>, FilePartitionStatus)> {
    m.map_values(|x: (String, FilePartitionStatus)| (x.0@, x.1))
}

// ───────────────────────── counting by key ─────────────────────────

/// How many elements of `s` have key `f`.
pub open spec fn count_key<T>(s: Seq<T>, key: spec_fn(T) -> Seq<char>, f: Seq<char>) -> nat
    decreases s.len(),
{
    if s.len() == 0 {
        0
    } else {
        count_key(s.drop_last(), key, f) + if key(s.last()) == f {
            1nat
        } else {
            0nat
        }
    }
}

/// The sum, over the keys `fs`, of how many elements of `s` have each key.
pub open spec fn sum_key_counts<T>(fs: Seq<Seq<char>>, s: Seq<T>, key: spec_fn(T) -> Seq<char>) -> nat
    decreases fs.len(),
{
    if fs.len() == 0 {
        0
    } else {
        sum_key_counts(fs.drop_last(), s, key) + count_key(s, key, fs.last())
    }
}

pub open spec fn hits(fs: Seq<Seq<char>>, k: Seq<char>) -> nat
    decreases fs.len(),
{
    if fs.len() == 0 {
        0
    } else {
        hits(fs.drop_last(), k) + if fs.last() == k {
            1nat
        } else {
            0nat
        }
    }
}

proof fn lemma_sum_push<T>(fs: Seq<Seq<char>>, s: Seq<T>, x: T, key: spec_fn(T) -> Seq<char>)
    ensures
        sum_key_counts(fs, s.push(x), key) == sum_key_counts(fs, s, key) + hits(fs, key(x)),
    decreases fs.len(),
{
    assert(s.push(x).drop_last() =~= s);
    if fs.len() > 0 {
        lemma_sum_push(fs.drop_last(), s, x, key);
    }
}

proof fn lemma_hits_zero(fs: Seq<Seq<char>>, k: Seq<char>)
    requires
        forall|i: int| 0 <= i < fs.len() ==> fs[i] != k,
    ensures
        hits(fs, k) == 0,
    decreases fs.len(),
{
    if fs.len() > 0 {
        lemma_hits_zero(fs.drop_last(), k);
    }
}

proof fn lemma_hits_le_one(fs: Seq<Seq<char>>, k: Seq<char>)
    requires
        strictly_sorted(fs),
    ensures
        hits(fs, k) <= 1,
    decreases fs.len(),
{
    if fs.len() > 0 {
        let t = fs.drop_last();
        assert(strictly_sorted(t)) by {
            assert forall|i: int, j: int| 0 <= i < j < t.len() implies crate::text::seq_lt(#[trigger] t[i], #[trigger] t[j]) by {
                assert(t[i] == fs[i] && t[j] == fs[j]);
            }
        }
        if fs.last() == k {
            assert forall|i: int| 0 <= i < t.len() implies t[i] != k by {
                assert(crate::text::seq_lt(fs[i], fs[fs.len() - 1]));
                crate::text::lemma_seq_lt_irreflexive(k);
            }
            lemma_hits_zero(t, k);
        } else {
            lemma_hits_le_one(t, k);
        }
    }
}

/// Over distinct keys, the per-key counts add up to at most the number of
/// elements: every element is counted under one key at most.
proof fn lemma_sum_le<T>(fs: Seq<Seq<char>>, s: Seq<T>, key: spec_fn(T) -> Seq<char>)
    requires
        strictly_sorted(fs),
    ensures
        sum_key_counts(fs, s, key) <= s.len(),
    decreases s.len(),
{
    if s.len() == 0 {
        lemma_sum_empty(fs, s, key);
    } else {
        let t = s.drop_last();
        lemma_sum_le(fs, t, key);
        lemma_sum_push(fs, t, s.last(), key);
        lemma_hits_le_one(fs, key(s.last()));
        assert(t.push(s.last()) =~= s);
    }
}

proof fn lemma_sum_empty<T>(fs: Seq<Seq<char>>, s: Seq<T>, key: spec_fn(T) -> Seq<char>)
    requires
        s.len() == 0,
    ensures
        sum_key_counts(fs, s, key) == 0,
    decreases fs.len(),
{
    if fs.len() > 0 {
        lemma_sum_empty(fs.drop_last(), s, key);
    }
}

proof fn lemma_prefix_sorted(fs: Seq<Seq<char>>, n: int)
    requires
        strictly_sorted(fs),
        0 <= n <= fs.len(),
    ensures
        strictly_sorted(fs.subrange(0, n)),
{
    let t = fs.subrange(0, n);
    assert forall|i: int, j: int| 0 <= i < j < t.len() implies crate::text::seq_lt(#[trigger] t[i], #[trigger] t[j]) by {
        assert(t[i] == fs[i] && t[j] == fs[j]);
    }
}

proof fn lemma_not_in_len(s: Seq<Seq<char>>, o: Seq<Seq<char>>)
    ensures
        not_in(s, o).len() <= s.len(),
    decreases s.len(),
{
    if s.len() > 0 {
        lemma_not_in_len(s.drop_last(), o);
    }
}

proof fn lemma_ins_distinct_len(s: Seq<Seq<char>>, x: Seq<char>)
    ensures
        ins_distinct(s, x).len() <= s.len() + 1,
    decreases s.len(),
{
    if s.len() > 0 {
        lemma_ins_distinct_len(s.drop_last(), x);
    }
}

proof fn lemma_sort_distinct_len(s: Seq<Seq<char>>)
    ensures
        sort_distinct(s).len() <= s.len(),
    decreases s.len(),
{
    if s.len() > 0 {
        lemma_sort_distinct_len(s.drop_last());
        lemma_ins_distinct_len(sort_distinct(s.drop_last()), s.last());
    }
}

// ───────────────────────── per-file sets ─────────────────────────

/// The key of an import row: its source file.
pub open spec fn row_key() -> spec_fn(ImportRowView) -> Seq<char> {
    |r: ImportRowView| r.source_file
}

/// The key of a LiveGraph edge: its source file.
pub open spec fn edge_key() -> spec_fn((Seq<char>, Seq<char>)) -> Seq<char> {
    |e: (Seq<char>, Seq<char>)| e.0
}

/// The identity key on strings.
pub open spec fn text_key() -> spec_fn(Seq<char>) -> Seq<char> {
    |x: Seq<char>| x
}

/// The resolved-local targets of the rows importing from `f`, in row order.
pub open spec fn resolved_targets_from(rows: Seq<ImportRowView>, f: Seq<char>) -> Seq<Seq<char>>
    decreases rows.len(),
{
    if rows.len() == 0 {
        Seq::<Seq<char>>::empty()
    } else if rows.last().source_file == f && is_resolved_local(rows.last()) {
        resolved_targets_from(rows.drop_last(), f).push(rows.last().target_file)
    } else {
        resolved_targets_from(rows.drop_last(), f)
    }
}

/// The LiveGraph edge targets of `f`, in edge order.
pub open spec fn edge_targets_from(edges: Seq<(Seq<char>, Seq<char>)>, f: Seq<char>) -> Seq<Seq<char>>
    decreases edges.len(),
{
    if edges.len() == 0 {
        Seq::<Seq<char>>::empty()
    } else if edges.last().0 == f {
        edge_targets_from(edges.drop_last(), f).push(edges.last().1)
    } else {
        edge_targets_from(edges.drop_last(), f)
    }
}

proof fn lemma_resolved_from_le(rows: Seq<ImportRowView>, f: Seq<char>)
    ensures
        resolved_targets_from(rows, f).len() <= count_key(rows, row_key(), f),
    decreases rows.len(),
{
    if rows.len() > 0 {
        lemma_resolved_from_le(rows.drop_last(), f);
    }
}

proof fn lemma_edges_from_le(edges: Seq<(Seq<char>, Seq<char>)>, f: Seq<char>)
    ensures
        edge_targets_from(edges, f).len() == count_key(edges, edge_key(), f),
    decreases edges.len(),
{
    if edges.len() > 0 {
        lemma_edges_from_le(edges.drop_last(), f);
    }
}

/// The SQLite resolved-local target set of `f`.
pub open spec fn sqlite_set(rows: Seq<ImportRowView>, f: Seq<char>) -> Seq<Seq<char>> {
    sort_distinct(resolved_targets_from(rows, f))
}

/// The LiveGraph edge target set of `f`.
pub open spec fn lg_set(edges: Seq<(Seq<char>, Seq<char>)>, f: Seq<char>) -> Seq<Seq<char>> {
    sort_distinct(edge_targets_from(edges, f))
}

/// The SQLite targets of `f` the LiveGraph lacks, ascending.
pub open spec fn missing_of(rows: Seq<ImportRowView>, edges: Seq<(Seq<char>, Seq<char>)>, f: Seq<char>) -> Seq<Seq<char>> {
    not_in(sqlite_set(rows, f), lg_set(edges, f))
}

/// How many LiveGraph targets of `f` SQLite lacks.
pub open spec fn extra_of(rows: Seq<ImportRowView>, edges: Seq<(Seq<char>, Seq<char>)>, f: Seq<char>) -> nat {
    not_in(lg_set(edges, f), sqlite_set(rows, f)).len()
}

/// The status recorded for `f` (the first entry for it).
pub open spec fn status_of(m: Seq<(Seq<char>, FilePartitionStatus)>, f: Seq<char>) -> Option<FilePartitionStatus>
    decreases m.len(),
{
    if m.len() == 0 {
        None
    } else if m[0].0 == f {
        Some(m[0].1)
    } else {
        status_of(m.drop_first(), f)
    }
}

pub open spec fn met_of(m: Seq<(Seq<char>, FilePartitionStatus)>, f: Seq<char>) -> bool {
    match status_of(m, f) {
        Some(s) => s.precondition_met,
        None => false,
    }
}

// ───────────────────────── the per-file fold ─────────────────────────

/// The running totals of the per-file fold.
pub struct Tally {
    pub files_total: nat,
    pub met: nat,
    pub fallback: nat,
    pub regression: nat,
    pub missing_total: nat,
    pub extra_total: nat,
    pub regressions: Seq<(Seq<char>, Seq<Seq<char>>)>,
}

/// The fold over the compared files, in order.
pub open spec fn tally(
    files: Seq<Seq<char>>,
    rows: Seq<ImportRowView>,
    edges: Seq<(Seq<char>, Seq<char>)>,
    m: Seq<(Seq<char>, FilePartitionStatus)>,
) -> Tally
    decreases files.len(),
{
    if files.len() == 0 {
        Tally {
            files_total: 0,
            met: 0,
            fallback: 0,
            regression: 0,
            missing_total: 0,
            extra_total: 0,
            regressions: Seq::empty(),
        }
    } else {
        let t = tally(files.drop_last(), rows, edges, m);
        let f = files.last();
        let miss = missing_of(rows, edges, f);
        let x = extra_of(rows, edges, f);
        if !met_of(m, f) {
            Tally { files_total: t.files_total + 1, fallback: t.fallback + 1, extra_total: t.extra_total + x, ..t }
        } else if miss.len() > 0 {
            Tally {
                files_total: t.files_total + 1,
                met: t.met + 1,
                regression: t.regression + 1,
                missing_total: t.missing_total + miss.len(),
                extra_total: t.extra_total + x,
                regressions: t.regressions.push((f, miss)),
                ..t
            }
        } else {
            Tally { files_total: t.files_total + 1, met: t.met + 1, extra_total: t.extra_total + x, ..t }
        }
    }
}

proof fn lemma_tally_bounds(
    files: Seq<Seq<char>>,
    rows: Seq<ImportRowView>,
    edges: Seq<(Seq<char>, Seq<char>)>,
    m: Seq<(Seq<char>, FilePartitionStatus)>,
)
    ensures
        tally(files, rows, edges, m).files_total == files.len(),
        tally(files, rows, edges, m).met + tally(files, rows, edges, m).fallback == files.len(),
        tally(files, rows, edges, m).regression <= tally(files, rows, edges, m).met,
        tally(files, rows, edges, m).regressions.len() == tally(files, rows, edges, m).regression,
        tally(files, rows, edges, m).missing_total <= sum_key_counts(files, rows, row_key()),
        tally(files, rows, edges, m).extra_total <= sum_key_counts(files, edges, edge_key()),
    decreases files.len(),
{
    if files.len() > 0 {
        let f = files.last();
        lemma_tally_bounds(files.drop_last(), rows, edges, m);
        lemma_not_in_len(sqlite_set(rows, f), lg_set(edges, f));
        lemma_sort_distinct_len(resolved_targets_from(rows, f));
        lemma_resolved_from_le(rows, f);
        lemma_not_in_len(lg_set(edges, f), sqlite_set(rows, f));
        lemma_sort_distinct_len(edge_targets_from(edges, f));
        lemma_edges_from_le(edges, f);
    }
}

// ───────────────────────── unknowns and observations ─────────────────────────

pub open spec fn resolution_text(r: Option<Seq<char>>) -> Seq<char> {
    match r {
        Some(s) => s,
        None => Seq::<char>::empty(),
    }
}

/// The unknown rows as (source, target, resolution or empty), in row order.
pub open spec fn unknowns_of(rows: Seq<ImportRowView>) -> Seq<(Seq<char>, Seq<char>, Seq<char>)>
    decreases rows.len(),
{
    if rows.len() == 0 {
        Seq::empty()
    } else if is_unknown_import(rows.last()) {
        unknowns_of(rows.drop_last()).push(
            (rows.last().source_file, rows.last().target_file, resolution_text(rows.last().resolution)),
        )
    } else {
        unknowns_of(rows.drop_last())
    }
}

/// The classes of the blocking observations, in observation order.
pub open spec fn blocking_classes(o: Seq<ObsView>) -> Seq<Seq<char>>
    decreases o.len(),
{
    if o.len() == 0 {
        Seq::<Seq<char>>::empty()
    } else if o.last().blocking {
        blocking_classes(o.drop_last()).push(o.last().class)
    } else {
        blocking_classes(o.drop_last())
    }
}

/// Each blocking class, ascending, with its number of blocking observations.
pub open spec fn by_class(o: Seq<ObsView>) -> Seq<(Seq<char>, nat)> {
    let cs = blocking_classes(o);
    sort_distinct(cs).map_values(|c: Seq<char>| (c, count_key(cs, text_key(), c)))
}

// ───────────────────────── the report ─────────────────────────

#[derive(Debug, Clone, Copy, PartialEq, Eq, Structural)]
pub enum ReadinessVerdict {
    Green,
    Yellow,
    Red,
}

impl ReadinessVerdict {
    pub open spec fn as_str_spec(self) -> Seq<char> {
        match self {
            ReadinessVerdict::Green => "GREEN"@,
            ReadinessVerdict::Yellow => "YELLOW"@,
            ReadinessVerdict::Red => "RED"@,
        }
    }

    pub fn as_str(self) -> (r: &'static str)
        ensures
            r@ == self.as_str_spec(),
    {
        match self {
            ReadinessVerdict::Green => "GREEN",
            ReadinessVerdict::Yellow => "YELLOW",
            ReadinessVerdict::Red => "RED",
        }
    }
}

/// Law: each verdict has its own wire name.
pub proof fn lemma_verdict_names_distinct()
    ensures
        forall|a: ReadinessVerdict, b: ReadinessVerdict| #[trigger] a.as_str_spec() == #[trigger] b.as_str_spec() ==> a == b,
{
    reveal_strlit("GREEN");
    reveal_strlit("YELLOW");
    reveal_strlit("RED");
    assert forall|a: ReadinessVerdict, b: ReadinessVerdict| #[trigger] a.as_str_spec() == #[trigger] b.as_str_spec() implies a
        == b by {
        assert(a.as_str_spec().len() == b.as_str_spec().len());
        assert(a.as_str_spec()[0] == b.as_str_spec()[0]);
    }
}

/// The repo-wide readiness metrics and verdict. The fallback share is
/// `files_fallback_required / files_total` (0 for no files).
pub struct ReadinessReport {
    pub verdict: ReadinessVerdict,
    pub files_total: usize,
    pub files_precondition_met: usize,
    pub files_fallback_required: usize,
    pub files_regression: usize,
    pub missing_in_livegraph_total: usize,
    pub extra_livegraph_edges_total: usize,
    pub blocking_observation_total: usize,
    pub blocking_observation_by_class: Vec<(String, usize)>,
    pub unknown_total: usize,
    pub sqlite_import_bearing_files: usize,
    pub livegraph_import_bearing_files: usize,
    pub fallback_heavy: bool,
    pub regressions: Vec<(String, Vec<String>)>,
    pub unknowns: Vec<(String, String, String)>,
}

pub open spec fn sources_of(rows: Seq<ImportRowView>) -> Seq<Seq<char>> {
    rows.map_values(|r: ImportRowView| r.source_file)
}

pub open spec fn lg_sources_of(edges: Seq<(Seq<char>, Seq<char>)>, o: Seq<ObsView>) -> Seq<Seq<char>> {
    edges.map_values(|e: (Seq<char>, Seq<char>)| e.0) + o.map_values(|x: ObsView| x.source_file)
}

/// The compared files: the union of the SQLite and LiveGraph import-bearing
/// files, ascending.
pub open spec fn compared_files(
    rows: Seq<ImportRowView>,
    edges: Seq<(Seq<char>, Seq<char>)>,
    o: Seq<ObsView>,
) -> Seq<Seq<char>> {
    sort_distinct(sources_of(rows) + lg_sources_of(edges, o))
}

/// More than half of the compared files fall back.
pub open spec fn fallback_heavy_spec(fallback: nat, files_total: nat) -> bool {
    files_total > 0 && 2 * fallback > files_total
}

/// RED on any regression or unknown import; YELLOW when safe but
/// fallback-heavy or serving no file; else GREEN.
pub open spec fn verdict_spec(regression: nat, unknown: nat, heavy: bool, met: nat) -> ReadinessVerdict {
    if regression > 0 || unknown > 0 {
        ReadinessVerdict::Red
    } else if heavy || met == 0 {
        ReadinessVerdict::Yellow
    } else {
        ReadinessVerdict::Green
    }
}

pub open spec fn regressions_view(r: Seq<(String, Vec<String>)>) -> Seq<(Seq<char>, Seq<Seq<char>>)> {
    r.map_values(|x: (String, Vec<String>)| (x.0@, strs(x.1@)))
}

pub open spec fn unknowns_view(r: Seq<(String, String, String)>) -> Seq<(Seq<char>, Seq<char>, Seq<char>)> {
    r.map_values(|x: (String, String, String)| (x.0@, x.1@, x.2@))
}

pub open spec fn by_class_view(r: Seq<(String, usize)>) -> Seq<(Seq<char>, nat)> {
    r.map_values(|x: (String, usize)| (x.0@, x.1 as nat))
}

/// Everything the readiness report states, over the inputs' views.
pub open spec fn readiness_spec(
    r: ReadinessReport,
    rows: Seq<ImportRowView>,
    edges: Seq<(Seq<char>, Seq<char>)>,
    o: Seq<ObsView>,
    m: Seq<(Seq<char>, FilePartitionStatus)>,
) -> bool {
    let files = compared_files(rows, edges, o);
    let t = tally(files, rows, edges, m);
    let unknown = unknowns_of(rows).len();
    let heavy = fallback_heavy_spec(t.fallback, t.files_total);
    &&& r.files_total == t.files_total
    &&& r.files_precondition_met == t.met
    &&& r.files_fallback_required == t.fallback
    &&& r.files_regression == t.regression
    &&& r.missing_in_livegraph_total == t.missing_total
    &&& r.extra_livegraph_edges_total == t.extra_total
    &&& regressions_view(r.regressions@) == t.regressions
    &&& r.blocking_observation_total == blocking_classes(o).len()
    &&& by_class_view(r.blocking_observation_by_class@) == by_class(o)
    &&& r.unknown_total == unknown
    &&& unknowns_view(r.unknowns@) == unknowns_of(rows)
    &&& r.sqlite_import_bearing_files == sort_distinct(sources_of(rows)).len()
    &&& r.livegraph_import_bearing_files == sort_distinct(lg_sources_of(edges, o)).len()
    &&& r.fallback_heavy == heavy
    &&& r.verdict == verdict_spec(t.regression, unknown, heavy, t.met)
}

/// Law: every compared file is either served from LiveGraph (its
/// precondition met) or falls back, never both; a regression is found only
/// on a served file and is listed once; each missing edge is a SQLite import
/// row and each extra edge a LiveGraph edge, so neither total exceeds its
/// source; and GREEN means no regression, no unknown import, not
/// fallback-heavy, and at least one served file.
pub proof fn lemma_readiness_accounting(
    r: ReadinessReport,
    rows: Seq<ImportRowView>,
    edges: Seq<(Seq<char>, Seq<char>)>,
    o: Seq<ObsView>,
    m: Seq<(Seq<char>, FilePartitionStatus)>,
)
    requires
        readiness_spec(r, rows, edges, o, m),
    ensures
        r.files_total == compared_files(rows, edges, o).len(),
        r.files_precondition_met + r.files_fallback_required == r.files_total,
        r.files_regression <= r.files_precondition_met,
        r.regressions.len() == r.files_regression,
        r.missing_in_livegraph_total <= rows.len(),
        r.extra_livegraph_edges_total <= edges.len(),
        r.verdict == ReadinessVerdict::Green ==> r.files_regression == 0 && r.unknown_total == 0
            && !r.fallback_heavy && r.files_precondition_met > 0,
        r.verdict == ReadinessVerdict::Red <==> (r.files_regression > 0 || r.unknown_total > 0),
{
    let files = compared_files(rows, edges, o);
    lemma_tally_bounds(files, rows, edges, m);
    lemma_sort_distinct(sources_of(rows) + lg_sources_of(edges, o));
    lemma_sum_le(files, rows, row_key());
    lemma_sum_le(files, edges, edge_key());
    assert(regressions_view(r.regressions@).len() == r.regressions@.len());
}

/// For each file in turn, how many distinct LiveGraph edge targets SQLite
/// does not resolve, summed over the files.
pub open spec fn sum_extra(
    files: Seq<Seq<char>>,
    rows: Seq<ImportRowView>,
    edges: Seq<(Seq<char>, Seq<char>)>,
) -> nat
    decreases files.len(),
{
    if files.len() == 0 {
        0
    } else {
        sum_extra(files.drop_last(), rows, edges) + extra_of(rows, edges, files.last())
    }
}

/// For each file in turn, how many distinct LiveGraph edge targets it has,
/// summed over the files.
pub open spec fn sum_lg_targets(files: Seq<Seq<char>>, edges: Seq<(Seq<char>, Seq<char>)>) -> nat
    decreases files.len(),
{
    if files.len() == 0 {
        0
    } else {
        sum_lg_targets(files.drop_last(), edges) + lg_set(edges, files.last()).len()
    }
}

proof fn lemma_not_in_nothing(s: Seq<Seq<char>>)
    ensures
        not_in(s, Seq::<Seq<char>>::empty()) == s,
    decreases s.len(),
{
    if s.len() > 0 {
        lemma_not_in_nothing(s.drop_last());
        assert(s.drop_last().push(s.last()) =~= s);
    }
}

proof fn lemma_tally_extra(
    files: Seq<Seq<char>>,
    rows: Seq<ImportRowView>,
    edges: Seq<(Seq<char>, Seq<char>)>,
    m: Seq<(Seq<char>, FilePartitionStatus)>,
)
    ensures
        tally(files, rows, edges, m).extra_total == sum_extra(files, rows, edges),
        rows.len() == 0 ==> sum_extra(files, rows, edges) == sum_lg_targets(files, edges),
    decreases files.len(),
{
    if files.len() > 0 {
        lemma_tally_extra(files.drop_last(), rows, edges, m);
        if rows.len() == 0 {
            let f = files.last();
            assert(resolved_targets_from(rows, f) =~= Seq::<Seq<char>>::empty());
            assert(sqlite_set(rows, f) =~= Seq::<Seq<char>>::empty());
            lemma_not_in_nothing(lg_set(edges, f));
        }
    }
}

/// Law: the extra LiveGraph edges are counted for every compared file,
/// served or fallen back: the total is, summed over the compared files, the
/// number of distinct LiveGraph edge targets of each that SQLite does not
/// resolve; with no SQLite import rows it is, summed over the files, the
/// number of distinct LiveGraph edge targets of each.
pub proof fn lemma_extra_edges_every_file(
    r: ReadinessReport,
    rows: Seq<ImportRowView>,
    edges: Seq<(Seq<char>, Seq<char>)>,
    o: Seq<ObsView>,
    m: Seq<(Seq<char>, FilePartitionStatus)>,
)
    requires
        readiness_spec(r, rows, edges, o, m),
    ensures
        r.extra_livegraph_edges_total == sum_extra(compared_files(rows, edges, o), rows, edges),
        rows.len() == 0 ==> r.extra_livegraph_edges_total == sum_lg_targets(compared_files(rows, edges, o), edges),
{
    lemma_tally_extra(compared_files(rows, edges, o), rows, edges, m);
}

/// Law: the partition statuses decide which files are served, never how many
/// extra LiveGraph edges are reported: two reports over the same imports,
/// edges and observations give the same total whatever the statuses.
pub proof fn lemma_extra_edges_ignore_statuses(
    r1: ReadinessReport,
    r2: ReadinessReport,
    rows: Seq<ImportRowView>,
    edges: Seq<(Seq<char>, Seq<char>)>,
    o: Seq<ObsView>,
    m1: Seq<(Seq<char>, FilePartitionStatus)>,
    m2: Seq<(Seq<char>, FilePartitionStatus)>,
)
    requires
        readiness_spec(r1, rows, edges, o, m1),
        readiness_spec(r2, rows, edges, o, m2),
    ensures
        r1.extra_livegraph_edges_total == r2.extra_livegraph_edges_total,
{
    lemma_tally_extra(compared_files(rows, edges, o), rows, edges, m1);
    lemma_tally_extra(compared_files(rows, edges, o), rows, edges, m2);
}

// ───────────────────────── executable pieces ─────────────────────────

fn sources_exec(bulk: &Vec<ImportRow>) -> (r: Vec<String>)
    ensures
        strs(r@) == sources_of(rows_view(bulk@)),
{
    let mut out: Vec<String> = Vec::new();
    let mut i: usize = 0;
    while i < bulk.len()
        invariant
            i <= bulk.len(),
            strs(out@) == sources_of(rows_view(bulk@)).subrange(0, i as int),
        decreases bulk.len() - i,
    {
        let ghost prev = out@;
        out.push(owned(bulk[i].source_file.as_str()));
        proof {
            assert(strs(out@) =~= strs(prev).push(bulk@[i as int].source_file@));
            assert(sources_of(rows_view(bulk@)).subrange(0, i + 1) =~= sources_of(rows_view(bulk@)).subrange(0, i as int).push(bulk@[i as int].source_file@));
        }
        i = i + 1;
    }
    assert(sources_of(rows_view(bulk@)).subrange(0, bulk.len() as int) =~= sources_of(rows_view(bulk@)));
    out
}

fn lg_sources_exec(edges: &Vec<(String, String)>, obs: &Vec<ImportObservation>) -> (r: Vec<String>)
    ensures
        strs(r@) == lg_sources_of(edges_view(edges@), obs_view(obs@)),
{
    let ghost es = edges_view(edges@).map_values(|e: (Seq<char>, Seq<char>)| e.0);
    let ghost os = obs_view(obs@).map_values(|x: ObsView| x.source_file);
    let mut out: Vec<String> = Vec::new();
    let mut i: usize = 0;
    while i < edges.len()
        invariant
            i <= edges.len(),
            es == edges_view(edges@).map_values(|e: (Seq<char>, Seq<char>)| e.0),
            strs(out@) == es.subrange(0, i as int),
        decreases edges.len() - i,
    {
        let ghost prev = out@;
        out.push(owned(edges[i].0.as_str()));
        proof {
            assert(strs(out@) =~= strs(prev).push(edges@[i as int].0@));
            assert(es.subrange(0, i + 1) =~= es.subrange(0, i as int).push(edges@[i as int].0@));
        }
        i = i + 1;
    }
    assert(es.subrange(0, edges.len() as int) =~= es);
    let mut k: usize = 0;
    while k < obs.len()
        invariant
            k <= obs.len(),
            es == edges_view(edges@).map_values(|e: (Seq<char>, Seq<char>)| e.0),
            os == obs_view(obs@).map_values(|x: ObsView| x.source_file),
            strs(out@) == es + os.subrange(0, k as int),
        decreases obs.len() - k,
    {
        let ghost prev = out@;
        out.push(owned(obs[k].source_file.as_str()));
        proof {
            assert(strs(out@) =~= strs(prev).push(obs@[k as int].source_file@));
            assert(os.subrange(0, k + 1) =~= os.subrange(0, k as int).push(obs@[k as int].source_file@));
        }
        k = k + 1;
    }
    assert(os.subrange(0, obs.len() as int) =~= os);
    out
}

fn resolved_from_exec(bulk: &Vec<ImportRow>, f: &str) -> (r: Vec<String>)
    ensures
        strs(r@) == resolved_targets_from(rows_view(bulk@), f@),
{
    let ghost rv = rows_view(bulk@);
    let mut out: Vec<String> = Vec::new();
    let mut i: usize = 0;
    while i < bulk.len()
        invariant
            i <= bulk.len(),
            rv == rows_view(bulk@),
            strs(out@) == resolved_targets_from(rv.subrange(0, i as int), f@),
        decreases bulk.len() - i,
    {
        proof {
            let t = rv.subrange(0, i + 1);
            assert(t.drop_last() =~= rv.subrange(0, i as int));
            assert(t.last() == bulk@[i as int]@);
        }
        let (res, _unk) = classify_import(&bulk[i]);
        if res && str_eq(bulk[i].source_file.as_str(), f) {
            let ghost prev = out@;
            out.push(owned(bulk[i].target_file.as_str()));
            assert(strs(out@) =~= strs(prev).push(bulk@[i as int].target_file@));
        }
        i = i + 1;
    }
    assert(rv.subrange(0, bulk.len() as int) == rv);
    out
}

fn edges_from_exec(edges: &Vec<(String, String)>, f: &str) -> (r: Vec<String>)
    ensures
        strs(r@) == edge_targets_from(edges_view(edges@), f@),
{
    let ghost ev = edges_view(edges@);
    let mut out: Vec<String> = Vec::new();
    let mut i: usize = 0;
    while i < edges.len()
        invariant
            i <= edges.len(),
            ev == edges_view(edges@),
            strs(out@) == edge_targets_from(ev.subrange(0, i as int), f@),
        decreases edges.len() - i,
    {
        proof {
            let t = ev.subrange(0, i + 1);
            assert(t.drop_last() =~= ev.subrange(0, i as int));
            assert(t.last() == (edges@[i as int].0@, edges@[i as int].1@));
        }
        if str_eq(edges[i].0.as_str(), f) {
            let ghost prev = out@;
            out.push(owned(edges[i].1.as_str()));
            assert(strs(out@) =~= strs(prev).push(edges@[i as int].1@));
        }
        i = i + 1;
    }
    assert(ev.subrange(0, edges.len() as int) == ev);
    out
}

fn met_exec(m: &Vec<(String, FilePartitionStatus)>, f: &str) -> (r: bool)
    ensures
        r == met_of(statuses_view(m@), f@),
{
    let ghost mv = statuses_view(m@);
    let mut i: usize = 0;
    assert(mv.subrange(0, mv.len() as int) == mv);
    while i < m.len()
        invariant
            i <= m.len(),
            mv == statuses_view(m@),
            status_of(mv, f@) == status_of(mv.subrange(i as int, mv.len() as int), f@),
        decreases m.len() - i,
    {
        let ghost rest = mv.subrange(i as int, mv.len() as int);
        assert(rest[0] == (m@[i as int].0@, m@[i as int].1));
        if str_eq(m[i].0.as_str(), f) {
            return m[i].1.precondition_met;
        }
        assert(rest.drop_first() =~= mv.subrange(i + 1, mv.len() as int));
        i = i + 1;
    }
    false
}

fn unknowns_exec(bulk: &Vec<ImportRow>) -> (r: Vec<(String, String, String)>)
    ensures
        unknowns_view(r@) == unknowns_of(rows_view(bulk@)),
{
    let ghost rv = rows_view(bulk@);
    let mut out: Vec<(String, String, String)> = Vec::new();
    let mut i: usize = 0;
    while i < bulk.len()
        invariant
            i <= bulk.len(),
            rv == rows_view(bulk@),
            unknowns_view(out@) == unknowns_of(rv.subrange(0, i as int)),
        decreases bulk.len() - i,
    {
        proof {
            let t = rv.subrange(0, i + 1);
            assert(t.drop_last() =~= rv.subrange(0, i as int));
            assert(t.last() == bulk@[i as int]@);
        }
        let (_res, unk) = classify_import(&bulk[i]);
        if unk {
            let res_text = match &bulk[i].resolution {
                Some(r) => owned(r.as_str()),
                None => crate::text::string_of(&Vec::new()),
            };
            let ghost prev = out@;
            let entry = (owned(bulk[i].source_file.as_str()), owned(bulk[i].target_file.as_str()), res_text);
            out.push(entry);
            assert(unknowns_view(out@) =~= unknowns_view(prev).push((entry.0@, entry.1@, entry.2@)));
            assert(entry.2@ == resolution_text(rv[i as int].resolution));
        }
        i = i + 1;
    }
    assert(rv.subrange(0, bulk.len() as int) == rv);
    out
}

fn blocking_exec(obs: &Vec<ImportObservation>) -> (r: Vec<String>)
    ensures
        strs(r@) == blocking_classes(obs_view(obs@)),
        r.len() <= obs.len(),
{
    let ghost ov = obs_view(obs@);
    let mut out: Vec<String> = Vec::new();
    let mut i: usize = 0;
    while i < obs.len()
        invariant
            i <= obs.len(),
            out.len() <= i,
            ov == obs_view(obs@),
            strs(out@) == blocking_classes(ov.subrange(0, i as int)),
        decreases obs.len() - i,
    {
        proof {
            let t = ov.subrange(0, i + 1);
            assert(t.drop_last() =~= ov.subrange(0, i as int));
            assert(t.last() == obs@[i as int]@);
        }
        if obs[i].blocking {
            let ghost prev = out@;
            out.push(owned(obs[i].class.as_str()));
            assert(strs(out@) =~= strs(prev).push(obs@[i as int].class@));
        }
        i = i + 1;
    }
    assert(ov.subrange(0, obs.len() as int) == ov);
    out
}

fn count_text(v: &Vec<String>, c: &str) -> (r: usize)
    ensures
        r == count_key(strs(v@), text_key(), c@),
{
    let mut n: usize = 0;
    let mut i: usize = 0;
    while i < v.len()
        invariant
            i <= v.len(),
            n <= i,
            n == count_key(strs(v@).subrange(0, i as int), text_key(), c@),
        decreases v.len() - i,
    {
        proof {
            let t = strs(v@).subrange(0, i + 1);
            assert(t.drop_last() =~= strs(v@).subrange(0, i as int));
            assert(t.last() == v@[i as int]@);
        }
        if str_eq(v[i].as_str(), c) {
            n = n + 1;
        }
        i = i + 1;
    }
    assert(strs(v@).subrange(0, v.len() as int) == strs(v@));
    n
}

fn by_class_exec(classes: &Vec<String>) -> (r: Vec<(String, usize)>)
    ensures
        by_class_view(r@) == sort_distinct(strs(classes@)).map_values(
            |c: Seq<char>| (c, count_key(strs(classes@), text_key(), c)),
        ),
{
    let ghost cs = strs(classes@);
    let distinct = sort_distinct_strings(classes);
    let mut out: Vec<(String, usize)> = Vec::new();
    let mut i: usize = 0;
    while i < distinct.len()
        invariant
            i <= distinct.len(),
            cs == strs(classes@),
            strs(distinct@) == sort_distinct(cs),
            by_class_view(out@) == sort_distinct(cs).subrange(0, i as int).map_values(
                |c: Seq<char>| (c, count_key(cs, text_key(), c)),
            ),
        decreases distinct.len() - i,
    {
        let n = count_text(classes, distinct[i].as_str());
        let ghost prev = out@;
        out.push((owned(distinct[i].as_str()), n));
        proof {
            assert(sort_distinct(cs)[i as int] == distinct@[i as int]@);
            assert(by_class_view(out@) =~= by_class_view(prev).push((distinct@[i as int]@, n as nat)));
            assert(sort_distinct(cs).subrange(0, i + 1).map_values(
                |c: Seq<char>| (c, count_key(cs, text_key(), c)),
            ) =~= sort_distinct(cs).subrange(0, i as int).map_values(
                |c: Seq<char>| (c, count_key(cs, text_key(), c)),
            ).push((distinct@[i as int]@, count_key(cs, text_key(), distinct@[i as int]@))));
        }
        i = i + 1;
    }
    assert(sort_distinct(cs).subrange(0, distinct.len() as int) == sort_distinct(cs));
    out
}

/// The repo-wide readiness aggregate over the SQLite import rows, the
/// LiveGraph import edges (source, target) and observations, and the
/// resident file statuses.
pub fn aggregate_readiness(
    bulk: &Vec<ImportRow>,
    edges: &Vec<(String, String)>,
    observations: &Vec<ImportObservation>,
    statuses: &Vec<(String, FilePartitionStatus)>,
) -> (r: ReadinessReport)
    ensures
        readiness_spec(r, rows_view(bulk@), edges_view(edges@), obs_view(observations@), statuses_view(statuses@)),
{
    let ghost rv = rows_view(bulk@);
    let ghost ev = edges_view(edges@);
    let ghost ov = obs_view(observations@);
    let ghost mv = statuses_view(statuses@);
    let sqlite_sources = sources_exec(bulk);
    let lg_sources = lg_sources_exec(edges, observations);
    let sqlite_files = sort_distinct_strings(&sqlite_sources);
    let lg_files = sort_distinct_strings(&lg_sources);
    let mut all = sqlite_sources;
    let mut lg_copy = lg_sources;
    let ghost a0 = all@;
    let ghost l0 = lg_copy@;
    all.append(&mut lg_copy);
    assert(strs(all@) =~= strs(a0) + strs(l0));
    let files = sort_distinct_strings(&all);
    let ghost fv = strs(files@);
    proof {
        lemma_sort_distinct(strs(all@));
        assert(fv == compared_files(rv, ev, ov));
    }
    let mut files_total: usize = 0;
    let mut met: usize = 0;
    let mut fallback: usize = 0;
    let mut regression: usize = 0;
    let mut missing_total: usize = 0;
    let mut extra_total: usize = 0;
    let mut regressions: Vec<(String, Vec<String>)> = Vec::new();
    let n_edges = edges.len();
    let n_bulk = bulk.len();
    let mut i: usize = 0;
    while i < files.len()
        invariant
            i <= files.len(),
            n_edges == edges@.len(),
            n_bulk == bulk@.len(),
            fv == strs(files@),
            strictly_sorted(fv),
            rv == rows_view(bulk@),
            ev == edges_view(edges@),
            mv == statuses_view(statuses@),
            files_total == tally(fv.subrange(0, i as int), rv, ev, mv).files_total,
            met == tally(fv.subrange(0, i as int), rv, ev, mv).met,
            fallback == tally(fv.subrange(0, i as int), rv, ev, mv).fallback,
            regression == tally(fv.subrange(0, i as int), rv, ev, mv).regression,
            missing_total == tally(fv.subrange(0, i as int), rv, ev, mv).missing_total,
            extra_total == tally(fv.subrange(0, i as int), rv, ev, mv).extra_total,
            regressions_view(regressions@) == tally(fv.subrange(0, i as int), rv, ev, mv).regressions,
        decreases files.len() - i,
    {
        let f = files[i].as_str();
        let ghost pre = fv.subrange(0, i as int);
        let ghost post = fv.subrange(0, i + 1);
        proof {
            assert(post.drop_last() =~= pre);
            assert(post.last() == f@);
            lemma_prefix_sorted(fv, i + 1);
            lemma_tally_bounds(post, rv, ev, mv);
            lemma_sum_le(post, rv, row_key());
            lemma_sum_le(post, ev, edge_key());
        }
        let rt = resolved_from_exec(bulk, f);
        let st = sort_distinct_strings(&rt);
        let et = edges_from_exec(edges, f);
        let lt = sort_distinct_strings(&et);
        let miss = not_in_exec(&st, &lt);
        let extra = not_in_exec(&lt, &st);
        let is_met = met_exec(statuses, f);
        proof {
            assert(strs(miss@) == missing_of(rv, ev, f@));
            assert(miss@.len() == strs(miss@).len());
            assert(extra@.len() == strs(extra@).len());
            assert(extra_of(rv, ev, f@) == extra@.len());
            assert(ev.len() == edges@.len());
            assert(rv.len() == bulk@.len());
            let tp = tally(pre, rv, ev, mv);
            let tq = tally(post, rv, ev, mv);
            assert(tq.extra_total == tp.extra_total + extra_of(rv, ev, f@));
            assert(strictly_sorted(post));
            assert(tq.extra_total <= sum_key_counts(post, ev, edge_key()));
            assert(sum_key_counts(post, ev, edge_key()) <= ev.len());
            assert(tq.extra_total <= ev.len());
            assert(extra_total == tp.extra_total);
            assert(extra_total + extra@.len() <= ev.len());

            if met_of(mv, f@) && miss@.len() > 0 {
                assert(tq.missing_total == tp.missing_total + miss@.len());
            }
        }
        files_total = files_total + 1;
        extra_total = extra_total + extra.len();
        if !is_met {
            fallback = fallback + 1;
        } else if miss.len() > 0 {
            met = met + 1;
            regression = regression + 1;
            missing_total = missing_total + miss.len();
            let ghost prev = regressions@;
            let ghost mv_ = strs(miss@);
            regressions.push((owned(f), miss));
            assert(regressions_view(regressions@) =~= regressions_view(prev).push((f@, mv_)));
        } else {
            met = met + 1;
        }
        i = i + 1;
    }
    assert(fv.subrange(0, files.len() as int) == fv);
    proof {
        lemma_tally_bounds(fv, rv, ev, mv);
    }
    let unknowns = unknowns_exec(bulk);
    let blocking = blocking_exec(observations);
    let by_class = by_class_exec(&blocking);
    proof {
        assert(unknowns_view(unknowns@).len() == unknowns@.len());
        assert(strs(blocking@).len() == blocking@.len());
        assert(strs(sqlite_files@).len() == sqlite_files@.len());
        assert(strs(lg_files@).len() == lg_files@.len());
    }
    let unknown_total = unknowns.len();
    let heavy = files_total > 0 && fallback > files_total - fallback;
    let verdict = if regression > 0 || unknown_total > 0 {
        ReadinessVerdict::Red
    } else if heavy || met == 0 {
        ReadinessVerdict::Yellow
    } else {
        ReadinessVerdict::Green
    };
    ReadinessReport {
        verdict,
        files_total,
        files_precondition_met: met,
        files_fallback_required: fallback,
        files_regression: regression,
        missing_in_livegraph_total: missing_total,
        extra_livegraph_edges_total: extra_total,
        blocking_observation_total: blocking.len(),
        blocking_observation_by_class: by_class,
        unknown_total,
        sqlite_import_bearing_files: sqlite_files.len(),
        livegraph_import_bearing_files: lg_files.len(),
        fallback_heavy: heavy,
        regressions,
        unknowns,
    }
}

} // verus!
