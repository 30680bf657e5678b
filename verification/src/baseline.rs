//! User baseline marks. A mark is a provenance stamp by default; keeping
//! the snapshot's graph rows is the explicit `retain_rows` opt-in. Graph-row
//! comparability follows the mark's class, never whether rows still linger,
//! and the cost of a mark is stated in reader text.
//!
//! The storage reads and writes are the application's; the decisions and
//! the texts are here.
use crate::request::{retain_rows_value, ParamValue};
use crate::text::{decimal, decimal_chars, owned, push_chars, push_str, string_of};
use vstd::prelude::*;
use vstd::string::*;

verus! {

/// A snapshot's retention class.
#[derive(Debug, Clone, Copy, PartialEq, Eq, Structural)]
pub enum RetentionClass {
    Current,
    Parent,
    BaselineAuto,
    /// A row-retaining user baseline.
    BaselineUser,
    /// A provenance-stamp user baseline.
    BaselineStamp,
    Prunable,
    Unclassified,
    StaleEpoch,
}

impl RetentionClass {
    pub open spec fn mark_name_spec(self) -> Seq<char> {
        match self {
            RetentionClass::BaselineUser => "baseline_user"@,
            _ => "baseline_stamp"@,
        }
    }

    /// The class a baseline mark reports: `baseline_user` for a row-retaining
    /// mark, `baseline_stamp` otherwise.
    pub fn mark_name(self) -> (r: &'static str)
        ensures
            r@ == self.mark_name_spec(),
    {
        match self {
            RetentionClass::BaselineUser => "baseline_user",
            _ => "baseline_stamp",
        }
    }
}

/// Graph-row comparability of a mark, keyed on its class: only a
/// row-retaining mark is comparable.
pub fn comparability_token(class: RetentionClass) -> (r: &'static str)
    ensures
        r@ == if class == RetentionClass::BaselineUser {
            "comparable"@
        } else {
            "not_comparable"@
        },
{
    match class {
        RetentionClass::BaselineUser => "comparable",
        _ => "not_comparable",
    }
}

/// The snapshot's graph was recorded empty at index time: no files, nodes or
/// edges were counted.
pub fn known_empty_at_index(files_total: u64, nodes_total: u64, edges_total: u64) -> (r: bool)
    ensures
        r == (files_total == 0 && nodes_total == 0 && edges_total == 0),
{
    files_total == 0 && nodes_total == 0 && edges_total == 0
}

pub open spec fn remediation_rows_present() -> Seq<char> {
    "graph-row baseline comparisons against this stamp are not comparable; to keep row-level comparison, re-mark this snapshot with retain_rows=true while its rows are still present"@
}

pub open spec fn remediation_recorded_empty() -> Seq<char> {
    "graph-row baseline comparisons against this stamp are not comparable; this snapshot's graph was recorded empty at index time (0 files/nodes/edges), so there are no graph rows to compare. To get a row-level baseline, index the repo once it has source files and mark that snapshot with retain_rows=true"@
}

pub open spec fn remediation_rows_gone() -> Seq<char> {
    "graph-row baseline comparisons against this stamp are not comparable and its rows are already gone; run `rmap index`/`rmap refresh`, then mark the new snapshot with retain_rows=true"@
}

pub open spec fn opt_chars(o: Option<String>) -> Option<Seq<char>> {
    match o {
        Some(s) => Some(s@),
        None => None,
    }
}

/// The remediation of a stamp mark's non-comparable graph rows; none for a
/// row-retaining mark.
pub fn stamp_remediation(class: RetentionClass, rows_present: bool, recorded_empty: bool) -> (r: Option<String>)
    ensures
        opt_chars(r) == if class == RetentionClass::BaselineUser {
            None
        } else if rows_present {
            Some(remediation_rows_present())
        } else if recorded_empty {
            Some(remediation_recorded_empty())
        } else {
            Some(remediation_rows_gone())
        },
{
    if class == RetentionClass::BaselineUser {
        return None;
    }
    Some(
        if rows_present {
            owned(
                "graph-row baseline comparisons against this stamp are not comparable; to keep row-level comparison, re-mark this snapshot with retain_rows=true while its rows are still present",
            )
        } else if recorded_empty {
            owned(
                "graph-row baseline comparisons against this stamp are not comparable; this snapshot's graph was recorded empty at index time (0 files/nodes/edges), so there are no graph rows to compare. To get a row-level baseline, index the repo once it has source files and mark that snapshot with retain_rows=true",
            )
        } else {
            owned(
                "graph-row baseline comparisons against this stamp are not comparable and its rows are already gone; run `rmap index`/`rmap refresh`, then mark the new snapshot with retain_rows=true",
            )
        },
    )
}

/// The class a mark writes, and whether an existing row-retaining mark was kept.
#[derive(Debug)]
pub struct MarkDecision {
    pub target_class: RetentionClass,
    pub kept_existing_user_mark: bool,
}

pub open spec fn narrowed_refusal(uid: Seq<char>, files: u64, nodes: u64, edges: u64) -> Seq<char> {
    "snapshot '"@ + uid + "' had graph rows at index time ("@ + decimal(files as nat) + " files / "@
        + decimal(nodes as nat) + " nodes / "@ + decimal(edges as nat)
        + " edges recorded) but they are no longer present \u{2014} they were narrowed to the provenance stamp. To get a row-retaining baseline: run `rmap index`/`rmap refresh`, then mark the new snapshot with retain_rows=true."@
}

/// The class a successful mark writes: row-retaining when asked for, or when
/// the snapshot already holds a row-retaining mark; a provenance stamp otherwise.
pub open spec fn mark_class(retain_rows: bool, existing: Option<RetentionClass>) -> RetentionClass {
    if retain_rows || existing == Some(RetentionClass::BaselineUser) {
        RetentionClass::BaselineUser
    } else {
        RetentionClass::BaselineStamp
    }
}

/// Law: a mark never downgrades a row-retaining mark, and marking again with
/// the same request changes nothing.
pub proof fn lemma_mark_never_downgrades(retain_rows: bool, existing: Option<RetentionClass>)
    ensures
        existing == Some(RetentionClass::BaselineUser) ==> mark_class(retain_rows, existing)
            == RetentionClass::BaselineUser,
        mark_class(retain_rows, Some(mark_class(retain_rows, existing))) == mark_class(retain_rows, existing),
        mark_class(retain_rows, existing) == RetentionClass::BaselineUser || mark_class(retain_rows, existing)
            == RetentionClass::BaselineStamp,
{
}

/// What deciding a mark gives: a row-retaining request over recorded graph
/// rows that are gone (not a recorded-empty snapshot) is refused with the
/// remediation; otherwise the class of [`mark_class`], and whether an existing
/// row-retaining mark was kept.
pub open spec fn mark_decided(
    r: Result<MarkDecision, String>,
    retain_rows: bool,
    existing: Option<RetentionClass>,
    rows_present: bool,
    snapshot_uid: Seq<char>,
    files_total: u64,
    nodes_total: u64,
    edges_total: u64,
) -> bool {
    let recorded_empty = files_total == 0 && nodes_total == 0 && edges_total == 0;
    let kept = !retain_rows && existing == Some(RetentionClass::BaselineUser);
    match r {
        Err(msg) => retain_rows && !rows_present && !recorded_empty
            && msg@ == narrowed_refusal(snapshot_uid, files_total, nodes_total, edges_total),
        Ok(d) => !(retain_rows && !rows_present && !recorded_empty)
            && d.kept_existing_user_mark == kept
            && d.target_class == mark_class(retain_rows, existing),
    }
}

/// Decides a mark: a row-retaining request over recorded graph rows that are
/// gone (not a recorded-empty snapshot) is refused; a default request on an
/// existing row-retaining mark keeps it (never a silent downgrade); otherwise
/// the request's class.
pub fn mark_decision(
    retain_rows: bool,
    existing: Option<RetentionClass>,
    rows_present: bool,
    snapshot_uid: &str,
    files_total: u64,
    nodes_total: u64,
    edges_total: u64,
) -> (r: Result<MarkDecision, String>)
    ensures
        mark_decided(r, retain_rows, existing, rows_present, snapshot_uid@, files_total, nodes_total, edges_total),
{
    let recorded_empty = known_empty_at_index(files_total, nodes_total, edges_total);
    if retain_rows && !rows_present && !recorded_empty {
        let mut m: Vec<char> = Vec::new();
        push_str(&mut m, "snapshot '");
        push_str(&mut m, snapshot_uid);
        push_str(&mut m, "' had graph rows at index time (");
        push_chars(&mut m, &decimal_chars(files_total));
        push_str(&mut m, " files / ");
        push_chars(&mut m, &decimal_chars(nodes_total));
        push_str(&mut m, " nodes / ");
        push_chars(&mut m, &decimal_chars(edges_total));
        push_str(
            &mut m,
            " edges recorded) but they are no longer present \u{2014} they were narrowed to the provenance stamp. To get a row-retaining baseline: run `rmap index`/`rmap refresh`, then mark the new snapshot with retain_rows=true.",
        );
        return Err(string_of(&m));
    }
    let kept = !retain_rows && existing == Some(RetentionClass::BaselineUser);
    let target_class = if retain_rows || kept {
        RetentionClass::BaselineUser
    } else {
        RetentionClass::BaselineStamp
    };
    Ok(MarkDecision { target_class, kept_existing_user_mark: kept })
}

pub open spec fn retain_rows_refusal(got: Seq<char>) -> Seq<char> {
    "'retain_rows' must be a boolean (true/false), got "@ + got
        + ". Pass retain_rows=true to pin this snapshot's graph rows, or omit it for a provenance stamp."@
}

/// The refusal of a `retain_rows` value that is not a boolean.
pub fn retain_rows_type_error(got: &str) -> (r: String)
    ensures
        r@ == retain_rows_refusal(got@),
{
    let mut m: Vec<char> = Vec::new();
    push_str(&mut m, "'retain_rows' must be a boolean (true/false), got ");
    push_str(&mut m, got);
    push_str(&mut m, ". Pass retain_rows=true to pin this snapshot's graph rows, or omit it for a provenance stamp.");
    string_of(&m)
}

/// Decides a mark request from its `retain_rows` parameter: a value present
/// and neither a boolean nor `null` is refused (`rendered` is its JSON text)
/// and nothing is marked; otherwise the decision of [`mark_decision`] on the
/// boolean it asks for (`false` when absent or `null`).
pub fn mark_request(
    retain_rows: &ParamValue,
    rendered: &str,
    existing: Option<RetentionClass>,
    rows_present: bool,
    snapshot_uid: &str,
    files_total: u64,
    nodes_total: u64,
    edges_total: u64,
) -> (r: Result<MarkDecision, String>)
    ensures
        match retain_rows_value(*retain_rows) {
            None => r is Err && r->Err_0@ == retain_rows_refusal(rendered@),
            Some(b) => mark_decided(r, b, existing, rows_present, snapshot_uid@, files_total, nodes_total, edges_total),
        },
{
    let retain = match retain_rows {
        ParamValue::Absent => false,
        ParamValue::Null => false,
        ParamValue::Bool(b) => *b,
        _ => {
            return Err(retain_rows_type_error(rendered));
        },
    };
    mark_decision(retain, existing, rows_present, snapshot_uid, files_total, nodes_total, edges_total)
}

/// The refusal of a snapshot of another repo.
pub fn snapshot_repo_mismatch(snapshot_uid: &str, snapshot_repo: &str, repo_uid: &str) -> (r: String)
    ensures
        r@ == "snapshot '"@ + snapshot_uid@ + "' belongs to repo '"@ + snapshot_repo@ + "', not '"@ + repo_uid@ + "'"@,
{
    let mut m: Vec<char> = Vec::new();
    push_str(&mut m, "snapshot '");
    push_str(&mut m, snapshot_uid);
    push_str(&mut m, "' belongs to repo '");
    push_str(&mut m, snapshot_repo);
    push_str(&mut m, "', not '");
    push_str(&mut m, repo_uid);
    push_str(&mut m, "'");
    string_of(&m)
}

/// The refusal of an unknown snapshot.
pub fn snapshot_not_found(snapshot_uid: &str) -> (r: String)
    ensures
        r@ == "snapshot '"@ + snapshot_uid@ + "' not found"@,
{
    let mut m: Vec<char> = Vec::new();
    push_str(&mut m, "snapshot '");
    push_str(&mut m, snapshot_uid);
    push_str(&mut m, "' not found");
    string_of(&m)
}

/// The reader unit of an approximate byte size (binary multiples).
#[derive(Debug, Clone, Copy, PartialEq, Eq, Structural)]
pub enum ByteUnit {
    B,
    Kb,
    Mb,
    Gb,
}

/// The largest unit that the size reaches: `GB` from 1024³ bytes, `MB` from
/// 1024², `KB` from 1024, bytes below.
pub open spec fn byte_unit_spec(bytes: u64) -> ByteUnit {
    if bytes >= 1024 * 1024 * 1024 {
        ByteUnit::Gb
    } else if bytes >= 1024 * 1024 {
        ByteUnit::Mb
    } else if bytes >= 1024 {
        ByteUnit::Kb
    } else {
        ByteUnit::B
    }
}

/// Chooses the unit an approximate byte size is rendered in.
pub fn byte_unit(bytes: u64) -> (r: ByteUnit)
    ensures
        r == byte_unit_spec(bytes),
{
    if bytes >= 1073741824 {
        ByteUnit::Gb
    } else if bytes >= 1048576 {
        ByteUnit::Mb
    } else if bytes >= 1024 {
        ByteUnit::Kb
    } else {
        ByteUnit::B
    }
}

/// The rows and estimated sizes a mark keeps or costs. A size is the
/// rendered byte estimate, or `None` when unknown.
pub struct MarkCost {
    pub graph_rows_total: u64,
    pub graph_size: Option<String>,
    pub measurement_rows_total: u64,
    pub measurement_size: Option<String>,
    pub declaration_rows: u64,
}

/// A size in the note: `~{estimate}`, or `size unknown`.
pub open spec fn size_text(size: Option<Seq<char>>) -> Seq<char> {
    match size {
        Some(s) => "~"@ + s,
        None => "size unknown"@,
    }
}

pub open spec fn declarations_suffix(rows: u64) -> Seq<char> {
    if rows > 0 {
        " and "@ + decimal(rows as nat) + " declaration rows (retained authority)"@
    } else {
        Seq::<char>::empty()
    }
}

/// The one-sentence note of what a mark keeps and costs.
pub open spec fn mark_note_spec(class: RetentionClass, kept: bool, recorded_empty: bool, c: MarkCost) -> Seq<char> {
    let g = decimal(c.graph_rows_total as nat);
    let gs = size_text(opt_chars(c.graph_size));
    let m = decimal(c.measurement_rows_total as nat);
    let ms = size_text(opt_chars(c.measurement_size));
    let d = declarations_suffix(c.declaration_rows);
    if class == RetentionClass::BaselineUser && kept {
        "this snapshot already carries a row-retaining baseline mark; it was kept (a default mark never silently drops an existing row promise). It pins "@
            + g + " graph rows ("@ + gs + "). Use unmark_baseline first if you want a stamp instead."@
    } else if class == RetentionClass::BaselineUser && recorded_empty {
        "row-retaining baseline on a recorded-empty snapshot: the index recorded 0 files/nodes/edges, so there are no graph rows to pin; the provenance stamp and "@
            + m + " measurement rows ("@ + ms + ")"@ + d + " are kept"@
    } else if class == RetentionClass::BaselineUser {
        "row-retaining baseline: "@ + g + " graph rows ("@ + gs
            + ") stay pinned until unmarked, in addition to the provenance stamp, "@ + m
            + " measurement rows ("@ + ms + ")"@ + d
    } else if recorded_empty {
        "provenance stamp: comparability metadata, "@ + m + " measurement rows ("@ + ms + ")"@ + d
            + " are kept; this snapshot's graph was recorded empty at index time (0 files/nodes/edges) \u{2014} there are no graph rows to retain or remove"@
    } else {
        "provenance stamp: comparability metadata, "@ + m + " measurement rows ("@ + ms + ")"@ + d
            + " are kept; the "@ + g + " graph rows ("@ + gs
            + ") are not retained and will be removed by the retention pass once this snapshot leaves the serving pair"@
    }
}

fn push_size(out: &mut Vec<char>, size: &Option<String>)
    ensures
        final(out)@ == old(out)@ + size_text(opt_chars(*size)),
{
    match size {
        Some(s) => {
            push_str(out, "~");
            push_str(out, s.as_str());
        },
        None => push_str(out, "size unknown"),
    }
}

fn push_declarations(out: &mut Vec<char>, rows: u64)
    ensures
        final(out)@ == old(out)@ + declarations_suffix(rows),
{
    if rows > 0 {
        push_str(out, " and ");
        push_chars(out, &decimal_chars(rows));
        push_str(out, " declaration rows (retained authority)");
    } else {
        assert(old(out)@ + Seq::<char>::empty() =~= old(out)@);
    }
}

/// The reader-frame note of a mark.
pub fn mark_note(class: RetentionClass, kept_existing_user_mark: bool, recorded_empty: bool, cost: &MarkCost) -> (r: String)
    ensures
        r@ == mark_note_spec(class, kept_existing_user_mark, recorded_empty, *cost),
{
    let mut o: Vec<char> = Vec::new();
    if class == RetentionClass::BaselineUser && kept_existing_user_mark {
        push_str(&mut o, "this snapshot already carries a row-retaining baseline mark; it was kept (a default mark never silently drops an existing row promise). It pins ");
        push_chars(&mut o, &decimal_chars(cost.graph_rows_total));
        push_str(&mut o, " graph rows (");
        push_size(&mut o, &cost.graph_size);
        push_str(&mut o, "). Use unmark_baseline first if you want a stamp instead.");
    } else if class == RetentionClass::BaselineUser && recorded_empty {
        push_str(&mut o, "row-retaining baseline on a recorded-empty snapshot: the index recorded 0 files/nodes/edges, so there are no graph rows to pin; the provenance stamp and ");
        push_chars(&mut o, &decimal_chars(cost.measurement_rows_total));
        push_str(&mut o, " measurement rows (");
        push_size(&mut o, &cost.measurement_size);
        push_str(&mut o, ")");
        push_declarations(&mut o, cost.declaration_rows);
        push_str(&mut o, " are kept");
    } else if class == RetentionClass::BaselineUser {
        push_str(&mut o, "row-retaining baseline: ");
        push_chars(&mut o, &decimal_chars(cost.graph_rows_total));
        push_str(&mut o, " graph rows (");
        push_size(&mut o, &cost.graph_size);
        push_str(&mut o, ") stay pinned until unmarked, in addition to the provenance stamp, ");
        push_chars(&mut o, &decimal_chars(cost.measurement_rows_total));
        push_str(&mut o, " measurement rows (");
        push_size(&mut o, &cost.measurement_size);
        push_str(&mut o, ")");
        push_declarations(&mut o, cost.declaration_rows);
    } else if recorded_empty {
        push_str(&mut o, "provenance stamp: comparability metadata, ");
        push_chars(&mut o, &decimal_chars(cost.measurement_rows_total));
        push_str(&mut o, " measurement rows (");
        push_size(&mut o, &cost.measurement_size);
        push_str(&mut o, ")");
        push_declarations(&mut o, cost.declaration_rows);
        push_str(&mut o, " are kept; this snapshot's graph was recorded empty at index time (0 files/nodes/edges) \u{2014} there are no graph rows to retain or remove");
    } else {
        push_str(&mut o, "provenance stamp: comparability metadata, ");
        push_chars(&mut o, &decimal_chars(cost.measurement_rows_total));
        push_str(&mut o, " measurement rows (");
        push_size(&mut o, &cost.measurement_size);
        push_str(&mut o, ")");
        push_declarations(&mut o, cost.declaration_rows);
        push_str(&mut o, " are kept; the ");
        push_chars(&mut o, &decimal_chars(cost.graph_rows_total));
        push_str(&mut o, " graph rows (");
        push_size(&mut o, &cost.graph_size);
        push_str(&mut o, ") are not retained and will be removed by the retention pass once this snapshot leaves the serving pair");
    }
    string_of(&o)
}

} // verus!
