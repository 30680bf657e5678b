//! Index drift: how the working tree has moved since the git basis recorded
//! at index time, stated honestly. A failed probe or read is `Unknown` with
//! its reason, never `NotGit`, `Clean` or a guessed count.
//!
//! The git commands, the storage reads and the sidecar reads are the
//! application's; each step of the decision they feed is here.
use crate::sorted::{sort_distinct, strictly_sorted};
use crate::text::{
    chars_of, contains_seq, decimal, decimal_chars, has_prefix, owned, push_chars, push_str,
    str_contains, str_eq, string_of, strs, vec_has_prefix, seq_lt, lemma_seq_lt_asym, lemma_seq_lt_total,
    lemma_seq_lt_trans,
};
use vstd::prelude::*;
use vstd::string::*;

verus! {

/// Cap on module names in a drift line; the rest fold into `+N more`.
pub const MODULE_NAME_CAP: usize = 6;

/// The drift of the working tree since the index basis.
pub enum IndexDrift {
    /// Not a git repository.
    NotGit,
    /// Drift could not be established; the reason says why.
    Unknown { basis: Option<String>, reason: String },
    /// A git repository whose snapshot predates basis tracking.
    BasisUnknown,
    /// HEAD is the basis and the tree is clean.
    Clean { basis: String },
    /// The tree moved: commits ahead, the reader's changed files, how many of
    /// them are indexed, their modules, and the excluded / unreadable counts.
    Drifted {
        basis: String,
        commits_ahead: u64,
        files_changed: u64,
        indexed_changed: u64,
        modules: Vec<String>,
        excluded: u64,
        unreadable: u64,
    },
}

/// What index time recorded about the git basis.
pub enum BasisOutcome {
    /// A basis commit was stamped.
    Basis { commit: String },
    /// The repository was not a git repository.
    NonGit,
    /// HEAD could not be read; the reason says why.
    Failure { reason: String },
}

impl BasisOutcome {
    /// The stamped commit, for the snapshot's basis column.
    pub fn basis_commit(&self) -> (r: Option<String>)
        ensures
            match self {
                BasisOutcome::Basis { commit } => r is Some && r->0@ == commit@,
                _ => r is None,
            },
    {
        match self {
            BasisOutcome::Basis { commit } => Some(owned(commit.as_str())),
            _ => None,
        }
    }
}

/// A non-empty basis, if any.
pub open spec fn nonempty_basis(b: Option<Seq<char>>) -> Option<Seq<char>> {
    match b {
        Some(s) => if s.len() > 0 {
            Some(s)
        } else {
            None
        },
        None => None,
    }
}

pub open spec fn opt_view(o: Option<String>) -> Option<Seq<char>> {
    match o {
        Some(s) => Some(s@),
        None => None,
    }
}

pub open spec fn opt_str_view(o: Option<&str>) -> Option<Seq<char>> {
    match o {
        Some(s) => Some(s@),
        None => None,
    }
}

fn nonempty_basis_exec(b: Option<&str>) -> (r: Option<String>)
    ensures
        opt_view(r) == nonempty_basis(opt_str_view(b)),
{
    match b {
        Some(s) => if s.unicode_len() > 0 {
            Some(owned(s))
        } else {
            None
        },
        None => None,
    }
}

/// The drift when the repo row could not be resolved to a path: `Unknown`
/// with the recorded basis (when non-empty) and the caller's reason, never
/// `BasisUnknown` and never `Clean`.
pub fn unresolved_repo_drift(basis_commit: Option<String>, reason: String) -> (r: IndexDrift)
    ensures
        match r {
            IndexDrift::Unknown { basis, reason: why } => opt_view(basis) == nonempty_basis(opt_view(basis_commit)) && why@ == reason@,
            _ => false,
        },
{
    let basis = match &basis_commit {
        Some(b) => nonempty_basis_exec(Some(b.as_str())),
        None => None,
    };
    IndexDrift::Unknown { basis, reason }
}

pub open spec fn inconsistent_basis_reason() -> Seq<char> {
    "inconsistent index-basis record: a basis was recorded but the snapshot's basis_commit is NULL"@
}

/// The drift of a git repository with no stamped basis, from the recorded
/// index-time outcome: recorded non-git is `NotGit`; a recorded failure is
/// `Unknown` with its reason; a recorded basis with no stamped column is an
/// inconsistent record (`Unknown`); no record is `BasisUnknown`; an
/// unreadable record is `Unknown` with the read's reason.
pub fn basis_none_state(basis_outcome: Result<Option<BasisOutcome>, String>) -> (r: IndexDrift)
    ensures
        match basis_outcome {
            Ok(Some(BasisOutcome::NonGit)) => r is NotGit,
            Ok(Some(BasisOutcome::Failure { reason })) => match r {
                IndexDrift::Unknown { basis, reason: why } => basis is None && why@ == reason@,
                _ => false,
            },
            Ok(Some(BasisOutcome::Basis { .. })) => match r {
                IndexDrift::Unknown { basis, reason: why } => basis is None && why@ == inconsistent_basis_reason(),
                _ => false,
            },
            Ok(None) => r is BasisUnknown,
            Err(reason) => match r {
                IndexDrift::Unknown { basis, reason: why } => basis is None && why@ == reason@,
                _ => false,
            },
        },
{
    match basis_outcome {
        Ok(Some(BasisOutcome::NonGit)) => IndexDrift::NotGit,
        Ok(Some(BasisOutcome::Failure { reason })) => IndexDrift::Unknown { basis: None, reason },
        Ok(Some(BasisOutcome::Basis { .. })) => IndexDrift::Unknown {
            basis: None,
            reason: owned(
                "inconsistent index-basis record: a basis was recorded but the snapshot's basis_commit is NULL",
            ),
        },
        Ok(None) => IndexDrift::BasisUnknown,
        Err(reason) => IndexDrift::Unknown { basis: None, reason },
    }
}

/// The recorded outcome of a failed HEAD read: "no commits yet" only when a
/// probe positively established an unborn HEAD (`Some(true)`); otherwise the
/// HEAD error itself.
pub fn classify_head_failure(head_err: &str, unborn: Option<bool>) -> (r: BasisOutcome)
    ensures
        match r {
            BasisOutcome::Failure { reason } => reason@ == if unborn == Some(true) {
                "repository has no commits yet"@
            } else {
                "git HEAD unreadable at index time ("@ + head_err@ + ")"@
            },
            _ => false,
        },
{
    match unborn {
        Some(true) => BasisOutcome::Failure { reason: owned("repository has no commits yet") },
        _ => {
            let mut m: Vec<char> = Vec::new();
            push_str(&mut m, "git HEAD unreadable at index time (");
            push_str(&mut m, head_err);
            push_str(&mut m, ")");
            BasisOutcome::Failure { reason: string_of(&m) }
        },
    }
}

/// The index-time outcome of the HEAD probe: a commit is the basis; no HEAD
/// (not a repository) is `NonGit`; a failure is classified by the unborn
/// probe (`unborn`, consulted only then; `None` when that probe failed).
pub fn basis_outcome_from_probe(probe: Result<Option<String>, String>, unborn: Option<bool>) -> (r: BasisOutcome)
    ensures
        match probe {
            Ok(Some(commit)) => match r {
                BasisOutcome::Basis { commit: c } => c@ == commit@,
                _ => false,
            },
            Ok(None) => r is NonGit,
            Err(e) => match r {
                BasisOutcome::Failure { reason } => reason@ == if unborn == Some(true) {
                    "repository has no commits yet"@
                } else {
                    "git HEAD unreadable at index time ("@ + e@ + ")"@
                },
                _ => false,
            },
        },
{
    match probe {
        Ok(Some(commit)) => BasisOutcome::Basis { commit },
        Ok(None) => BasisOutcome::NonGit,
        Err(e) => classify_head_failure(e.as_str(), unborn),
    }
}

// ───────────────────────── the drift steps ─────────────────────────

/// The first step: what the git probe and the stamped basis decide.
pub enum DriftGate {
    /// The drift is settled already.
    Settled(IndexDrift),
    /// A git repository without a stamped basis: resolve from the recorded outcome.
    NoBasis,
    /// A git repository with this basis: compute the working-tree drift.
    Proceed(String),
}

/// Decides the first step: not a repository is `NotGit`; a probe that
/// failed is `Unknown` ("git could not be probed ({e})") with the basis when
/// non-empty; an empty or missing basis resolves from the record.
pub fn drift_gate(is_git: Result<bool, String>, basis: Option<&str>) -> (r: DriftGate)
    ensures
        match is_git {
            Ok(false) => r matches DriftGate::Settled(IndexDrift::NotGit),
            Err(e) => match r {
                DriftGate::Settled(IndexDrift::Unknown { basis: b, reason }) => {
                    &&& opt_view(b) == nonempty_basis(opt_str_view(basis))
                    &&& reason@ == "git could not be probed ("@ + e@ + ")"@
                },
                _ => false,
            },
            Ok(true) => match nonempty_basis(opt_str_view(basis)) {
                None => r is NoBasis,
                Some(b) => match r {
                    DriftGate::Proceed(p) => p@ == b,
                    _ => false,
                },
            },
        },
{
    match is_git {
        Ok(false) => DriftGate::Settled(IndexDrift::NotGit),
        Err(e) => {
            let mut m: Vec<char> = Vec::new();
            push_str(&mut m, "git could not be probed (");
            push_str(&mut m, e.as_str());
            push_str(&mut m, ")");
            DriftGate::Settled(IndexDrift::Unknown { basis: nonempty_basis_exec(basis), reason: string_of(&m) })
        },
        Ok(true) => match nonempty_basis_exec(basis) {
            None => DriftGate::NoBasis,
            Some(b) => DriftGate::Proceed(b),
        },
    }
}

/// Whether git's stderr reports a missing revision or object: the recorded
/// basis is no longer reachable.
pub open spec fn references_missing_revision_spec(stderr: Seq<char>) -> bool {
    contains_seq(stderr, "bad revision"@) || contains_seq(stderr, "unknown revision"@) || contains_seq(
        stderr,
        "bad object"@,
    ) || contains_seq(stderr, "ambiguous argument"@)
}

pub fn references_missing_revision(stderr: &str) -> (r: bool)
    ensures
        r == references_missing_revision_spec(stderr@),
{
    str_contains(stderr, "bad revision") || str_contains(stderr, "unknown revision") || str_contains(
        stderr,
        "bad object",
    ) || str_contains(stderr, "ambiguous argument")
}

pub open spec fn rewritten_basis_reason() -> Seq<char> {
    "basis commit not found in git history (history may have been rewritten)"@
}

/// The reason for a git failure while computing drift: only a failed
/// command whose stderr reports a missing revision is a rewritten basis;
/// any other failure is its own message (`display`).
pub fn git_reason(command_failed_stderr: Option<&str>, display: &str) -> (r: String)
    ensures
        r@ == match opt_str_view(command_failed_stderr) {
            Some(s) => if references_missing_revision_spec(s) {
                rewritten_basis_reason()
            } else {
                display@
            },
            None => display@,
        },
{
    match command_failed_stderr {
        Some(s) => if references_missing_revision(s) {
            owned("basis commit not found in git history (history may have been rewritten)")
        } else {
            owned(display)
        },
        None => owned(display),
    }
}

/// The second step, after the working-tree diff: a failed diff is `Unknown`
/// with its reason; no commits ahead and no changed file is `Clean`;
/// otherwise the drift goes on to classification (`None`).
pub fn drift_after_diff(basis: &str, diff: Result<(u64, usize), String>) -> (r: Option<IndexDrift>)
    ensures
        match diff {
            Err(reason) => match r {
                Some(IndexDrift::Unknown { basis: b, reason: why }) => opt_view(b) == Some(basis@) && why@ == reason@,
                _ => false,
            },
            Ok((ahead, changed)) => if ahead == 0 && changed == 0 {
                match r {
                    Some(IndexDrift::Clean { basis: b }) => b@ == basis@,
                    _ => false,
                }
            } else {
                r is None
            },
        },
{
    match diff {
        Err(reason) => Some(IndexDrift::Unknown { basis: Some(owned(basis)), reason }),
        Ok((ahead, changed)) => if ahead == 0 && changed == 0 {
            Some(IndexDrift::Clean { basis: owned(basis) })
        } else {
            None
        },
    }
}

/// How a git-changed path classifies against rmap's own output.
#[derive(Debug, Clone, Copy, PartialEq, Eq, Structural)]
pub enum DriftClass {
    /// rmap's own output or OS noise: not the reader's change.
    Excluded,
    /// The reader's change.
    Reader,
    /// A sidecar-named path that could not be read: counted as the reader's
    /// change and flagged.
    UnreadableReader,
}

/// What reading a sidecar candidate's first line gave.
#[derive(Debug, Clone, Copy, PartialEq, Eq, Structural)]
pub enum CandidateLine {
    /// The first line was read; whether it carries rmap's own marker.
    Line { self_generated: bool },
    /// The file is genuinely gone.
    Absent,
    /// The file could not be read.
    Unreadable,
}

pub open spec fn classify_for_drift_spec(name_excluded: bool, sidecar_named: bool, candidate: CandidateLine) -> DriftClass {
    if name_excluded {
        DriftClass::Excluded
    } else if !sidecar_named {
        DriftClass::Reader
    } else {
        match candidate {
            CandidateLine::Line { self_generated } => if self_generated {
                DriftClass::Excluded
            } else {
                DriftClass::Reader
            },
            CandidateLine::Absent => DriftClass::Reader,
            CandidateLine::Unreadable => DriftClass::UnreadableReader,
        }
    }
}

/// Classifies one changed path: OS noise and tool state are excluded by
/// name; a path not named like a sidecar is the reader's; a sidecar-named
/// path is excluded only when its first line carries the marker, is the
/// reader's when it is gone, and is flagged when it cannot be read.
pub fn classify_for_drift(name_excluded: bool, sidecar_named: bool, candidate: CandidateLine) -> (r: DriftClass)
    ensures
        r == classify_for_drift_spec(name_excluded, sidecar_named, candidate),
{
    if name_excluded {
        DriftClass::Excluded
    } else if !sidecar_named {
        DriftClass::Reader
    } else {
        match candidate {
            CandidateLine::Line { self_generated } => if self_generated {
                DriftClass::Excluded
            } else {
                DriftClass::Reader
            },
            CandidateLine::Absent => DriftClass::Reader,
            CandidateLine::Unreadable => DriftClass::UnreadableReader,
        }
    }
}

/// The reader's changed paths (in order), given each path's class.
pub open spec fn reader_paths(paths: Seq<Seq<char>>, classes: Seq<DriftClass>) -> Seq<Seq<char>>
    decreases paths.len(),
{
    if paths.len() == 0 {
        Seq::<Seq<char>>::empty()
    } else if classes[paths.len() - 1] == DriftClass::Excluded {
        reader_paths(paths.drop_last(), classes)
    } else {
        reader_paths(paths.drop_last(), classes).push(paths.last())
    }
}

pub open spec fn class_count(classes: Seq<DriftClass>, c: DriftClass) -> nat
    decreases classes.len(),
{
    if classes.len() == 0 {
        0
    } else {
        class_count(classes.drop_last(), c) + if classes.last() == c {
            1nat
        } else {
            0nat
        }
    }
}

proof fn lemma_class_count_le(classes: Seq<DriftClass>, c: DriftClass)
    ensures
        class_count(classes, c) <= classes.len(),
    decreases classes.len(),
{
    if classes.len() > 0 {
        lemma_class_count_le(classes.drop_last(), c);
    }
}

proof fn lemma_reader_paths_agree(p: Seq<Seq<char>>, c1: Seq<DriftClass>, c2: Seq<DriftClass>)
    requires
        p.len() <= c1.len(),
        p.len() <= c2.len(),
        forall|i: int| 0 <= i < p.len() ==> c1[i] == c2[i],
    ensures
        reader_paths(p, c1) == reader_paths(p, c2),
    decreases p.len(),
{
    if p.len() > 0 {
        lemma_reader_paths_agree(p.drop_last(), c1, c2);
    }
}

/// Law: every changed path is either the reader's or excluded as the tool's
/// own output, never both; and each unreadable path is one of the reader's.
pub proof fn lemma_drift_accounting(paths: Seq<Seq<char>>, classes: Seq<DriftClass>)
    requires
        classes.len() == paths.len(),
    ensures
        reader_paths(paths, classes).len() + class_count(classes, DriftClass::Excluded) == paths.len(),
        class_count(classes, DriftClass::UnreadableReader) <= reader_paths(paths, classes).len(),
    decreases paths.len(),
{
    if paths.len() > 0 {
        let p2 = paths.drop_last();
        let c2 = classes.drop_last();
        lemma_drift_accounting(p2, c2);
        lemma_reader_paths_agree(p2, c2, classes);
    }
}

/// Partitions the changed paths by their classes (aligned with them): the
/// reader's paths, the number excluded, the number unreadable.
pub fn partition_changed(changed_files: &Vec<String>, classes: &Vec<DriftClass>) -> (r: (Vec<String>, u64, u64))
    requires
        classes.len() == changed_files.len(),
    ensures
        strs(r.0@) == reader_paths(strs(changed_files@), classes@),
        r.1 == class_count(classes@, DriftClass::Excluded),
        r.2 == class_count(classes@, DriftClass::UnreadableReader),
{
    let mut readers: Vec<String> = Vec::new();
    let mut excluded: u64 = 0;
    let mut unreadable: u64 = 0;
    let mut i: usize = 0;
    while i < changed_files.len()
        invariant
            i <= changed_files.len(),
            classes.len() == changed_files.len(),
            strs(readers@) == reader_paths(strs(changed_files@).subrange(0, i as int), classes@),
            excluded == class_count(classes@.subrange(0, i as int), DriftClass::Excluded),
            unreadable == class_count(classes@.subrange(0, i as int), DriftClass::UnreadableReader),
        decreases changed_files.len() - i,
    {
        proof {
            let t = strs(changed_files@).subrange(0, i + 1);
            assert(t.drop_last() =~= strs(changed_files@).subrange(0, i as int));
            assert(t.last() == changed_files@[i as int]@);
            let u = classes@.subrange(0, i + 1);
            assert(u.drop_last() =~= classes@.subrange(0, i as int));
            lemma_class_count_le(classes@.subrange(0, i as int), DriftClass::Excluded);
            lemma_class_count_le(classes@.subrange(0, i as int), DriftClass::UnreadableReader);
        }
        match classes[i] {
            DriftClass::Excluded => {
                excluded = excluded + 1;
            },
            DriftClass::Reader => {
                let ghost prev = readers@;
                readers.push(owned(changed_files[i].as_str()));
                assert(strs(readers@) =~= strs(prev).push(changed_files@[i as int]@));
            },
            DriftClass::UnreadableReader => {
                let ghost prev = readers@;
                readers.push(owned(changed_files[i].as_str()));
                assert(strs(readers@) =~= strs(prev).push(changed_files@[i as int]@));
                unreadable = unreadable + 1;
            },
        }
        i = i + 1;
    }
    assert(strs(changed_files@).subrange(0, changed_files.len() as int) == strs(changed_files@));
    assert(classes@.subrange(0, changed_files.len() as int) == classes@);
    (readers, excluded, unreadable)
}

// ───────────────────────── modules ─────────────────────────

/// `root` owns `path`: equal, or `path` continues it after a `/`.
pub open spec fn owns(root: Seq<char>, path: Seq<char>) -> bool {
    path == root || has_prefix(path, root + seq!['/'])
}

/// The first root, in the given order, that owns `path`.
pub open spec fn module_of_spec(path: Seq<char>, roots: Seq<Seq<char>>) -> Option<Seq<char>>
    decreases roots.len(),
{
    if roots.len() == 0 {
        None
    } else if owns(roots[0], path) {
        Some(roots[0])
    } else {
        module_of_spec(path, roots.drop_first())
    }
}

/// The module root that owns `path`: the first in `roots` (sorted
/// longest-first, so the most specific) with a path-boundary match, so
/// `src/ab` never matches root `src/a`.
pub fn module_of(path: &str, roots: &Vec<String>) -> (r: Option<String>)
    ensures
        opt_view(r) == module_of_spec(path@, strs(roots@)),
{
    let p = chars_of(path);
    let ghost rv = strs(roots@);
    let mut i: usize = 0;
    assert(rv.subrange(0, rv.len() as int) == rv);
    while i < roots.len()
        invariant
            i <= roots.len(),
            rv == strs(roots@),
            p@ == path@,
            module_of_spec(path@, rv) == module_of_spec(path@, rv.subrange(i as int, rv.len() as int)),
        decreases roots.len() - i,
    {
        let ghost rest = rv.subrange(i as int, rv.len() as int);
        assert(rest[0] == roots@[i as int]@);
        let mut rs = chars_of(roots[i].as_str());
        let eq = crate::text::chars_eq(&p, &rs);
        rs.push('/');
        assert(rs@ =~= roots@[i as int]@ + seq!['/']);
        let pre = vec_has_prefix(&p, &rs);
        assert((eq || pre) == owns(rest[0], path@));
        if eq || pre {
            return Some(owned(roots[i].as_str()));
        }
        assert(rest.drop_first() =~= rv.subrange(i + 1, rv.len() as int));
        i = i + 1;
    }
    None
}

/// Orders module roots longest-first, then ascending.
pub open spec fn root_before(a: Seq<char>, b: Seq<char>) -> bool {
    a.len() > b.len() || (a.len() == b.len() && seq_lt(a, b))
}

/// Insert `x` into `s` (ordered by [`root_before`]) after every element not after it.
pub open spec fn ins_root(s: Seq<Seq<char>>, x: Seq<char>) -> Seq<Seq<char>>
    decreases s.len(),
{
    if s.len() == 0 {
        seq![x]
    } else if root_before(x, s.last()) {
        ins_root(s.drop_last(), x).push(s.last())
    } else {
        s.push(x)
    }
}

/// The module roots ordered longest-first, then ascending.
pub open spec fn sort_roots_spec(s: Seq<Seq<char>>) -> Seq<Seq<char>>
    decreases s.len(),
{
    if s.len() == 0 {
        Seq::<Seq<char>>::empty()
    } else {
        ins_root(sort_roots_spec(s.drop_last()), s.last())
    }
}

proof fn lemma_ins_root_walk(s: Seq<Seq<char>>, x: Seq<char>, j: int)
    requires
        0 <= j <= s.len(),
        forall|k: int| j <= k < s.len() ==> root_before(x, #[trigger] s[k]),
    ensures
        ins_root(s, x) == ins_root(s.subrange(0, j), x) + s.subrange(j, s.len() as int),
    decreases s.len() - j,
{
    if j == s.len() {
        assert(s.subrange(0, j) == s);
        assert(s.subrange(j, s.len() as int) =~= Seq::<Seq<char>>::empty());
    } else {
        let t = s.drop_last();
        assert(root_before(x, s[s.len() - 1]));
        assert forall|k: int| j <= k < t.len() implies root_before(x, #[trigger] t[k]) by {
            assert(t[k] == s[k]);
        }
        lemma_ins_root_walk(t, x, j);
        assert(t.subrange(0, j) == s.subrange(0, j));
        assert(s.subrange(j, s.len() as int) == t.subrange(j, t.len() as int).push(s.last()));
    }
}

fn root_before_exec(a: &Vec<char>, b: &Vec<char>) -> (r: bool)
    ensures
        r == root_before(a@, b@),
{
    a.len() > b.len() || (a.len() == b.len() && crate::text::chars_lt(a, b))
}

/// Sorts module roots longest-first, then ascending, so the first owning
/// root is the most specific.
pub fn sort_roots(roots: &Vec<String>) -> (r: Vec<String>)
    ensures
        strs(r@) == sort_roots_spec(strs(roots@)),
{
    let mut acc: Vec<Vec<char>> = Vec::new();
    let mut i: usize = 0;
    while i < roots.len()
        invariant
            i <= roots.len(),
            acc@.map_values(|c: Vec<char>| c@) == sort_roots_spec(strs(roots@).subrange(0, i as int)),
        decreases roots.len() - i,
    {
        proof {
            let t = strs(roots@).subrange(0, i + 1);
            assert(t.drop_last() =~= strs(roots@).subrange(0, i as int));
            assert(t.last() == roots@[i as int]@);
        }
        let x = chars_of(roots[i].as_str());
        let ghost sv = acc@.map_values(|c: Vec<char>| c@);
        let mut j: usize = acc.len();
        while j > 0 && root_before_exec(&x, &acc[j - 1])
            invariant
                j <= acc.len(),
                sv == acc@.map_values(|c: Vec<char>| c@),
                forall|k: int| j <= k < sv.len() ==> root_before(x@, #[trigger] sv[k]),
            decreases j,
        {
            j = j - 1;
        }
        proof {
            lemma_ins_root_walk(sv, x@, j as int);
            if j > 0 {
                assert(sv.subrange(0, j as int).last() == sv[j - 1]);
            } else {
                assert(sv.subrange(0, 0) =~= Seq::<Seq<char>>::empty());
            }
        }
        acc.insert(j, x);
        proof {
            assert(acc@.map_values(|c: Vec<char>| c@) =~= ins_root(sv.subrange(0, j as int), x@) + sv.subrange(j as int, sv.len() as int));
        }
        i = i + 1;
    }
    assert(strs(roots@).subrange(0, roots.len() as int) == strs(roots@));
    let mut out: Vec<String> = Vec::new();
    let mut k: usize = 0;
    while k < acc.len()
        invariant
            k <= acc.len(),
            strs(out@) == acc@.map_values(|c: Vec<char>| c@).subrange(0, k as int),
        decreases acc.len() - k,
    {
        let ghost prev = out@;
        out.push(string_of(&acc[k]));
        proof {
            assert(strs(out@) =~= strs(prev).push(acc@[k as int]@));
            assert(acc@.map_values(|c: Vec<char>| c@).subrange(0, k + 1) =~= acc@.map_values(|c: Vec<char>| c@).subrange(0, k as int).push(acc@[k as int]@));
        }
        k = k + 1;
    }
    assert(acc@.map_values(|c: Vec<char>| c@).subrange(0, acc.len() as int) == acc@.map_values(|c: Vec<char>| c@));
    out
}

/// Roots in longest-first order: no root is placed after one it precedes.
pub open spec fn roots_ordered(s: Seq<Seq<char>>) -> bool {
    forall|i: int, j: int| 0 <= i < j < s.len() ==> !root_before(#[trigger] s[j], #[trigger] s[i])
}

proof fn lemma_root_before_order(a: Seq<char>, b: Seq<char>, c: Seq<char>)
    ensures
        !(root_before(a, b) && root_before(b, a)),
        root_before(a, b) && root_before(b, c) ==> root_before(a, c),
        a == b || root_before(a, b) || root_before(b, a),
{
    lemma_seq_lt_asym(a, b);
    lemma_seq_lt_total(a, b);
    if seq_lt(a, b) && seq_lt(b, c) {
        lemma_seq_lt_trans(a, b, c);
    }
}

proof fn lemma_ins_root(s: Seq<Seq<char>>, x: Seq<char>)
    requires
        roots_ordered(s),
    ensures
        roots_ordered(ins_root(s, x)),
        ins_root(s, x).to_multiset() == s.to_multiset().insert(x),
    decreases s.len(),
{
    broadcast use vstd::seq_lib::group_to_multiset_ensures;
    if s.len() == 0 {
        assert(ins_root(s, x) == seq![x]);
        assert(seq![x] == Seq::<Seq<char>>::empty().push(x));
    } else if root_before(x, s.last()) {
        let t = s.drop_last();
        assert forall|i: int, j: int| 0 <= i < j < t.len() implies !root_before(#[trigger] t[j], #[trigger] t[i]) by {
            assert(t[i] == s[i] && t[j] == s[j]);
        }
        lemma_ins_root(t, x);
        let q = ins_root(t, x);
        let r = q.push(s.last());
        assert(s == t.push(s.last()));
        assert forall|i: int, j: int| 0 <= i < j < r.len() implies !root_before(#[trigger] r[j], #[trigger] r[i]) by {
            if j == q.len() {
                let y = q[i];
                assert(r[i] == y);
                assert(q.to_multiset().count(y) > 0);
                if y == x {
                    lemma_root_before_order(x, s.last(), x);
                } else {
                    assert(t.to_multiset().count(y) > 0);
                    assert(t.contains(y));
                    let k = choose|k: int| 0 <= k < t.len() && t[k] == y;
                    assert(s[k] == y);
                    assert(!root_before(s[s.len() - 1], s[k]));
                }
            } else {
                assert(r[i] == q[i] && r[j] == q[j]);
            }
        }
    } else {
        let r = s.push(x);
        assert forall|i: int, j: int| 0 <= i < j < r.len() implies !root_before(#[trigger] r[j], #[trigger] r[i]) by {
            if j == s.len() {
                if i < s.len() - 1 {
                    assert(!root_before(s[s.len() - 1], s[i]));
                    lemma_root_before_order(x, s[i], s.last());
                    lemma_root_before_order(s[i], s.last(), x);
                }
            } else {
                assert(r[i] == s[i] && r[j] == s[j]);
            }
        }
    }
}

/// `sort_roots_spec` orders the roots longest-first and keeps each root.
proof fn lemma_sort_roots(s: Seq<Seq<char>>)
    ensures
        roots_ordered(sort_roots_spec(s)),
        sort_roots_spec(s).to_multiset() == s.to_multiset(),
    decreases s.len(),
{
    broadcast use vstd::seq_lib::group_to_multiset_ensures;
    if s.len() > 0 {
        lemma_sort_roots(s.drop_last());
        lemma_ins_root(sort_roots_spec(s.drop_last()), s.last());
        assert(s == s.drop_last().push(s.last()));
    }
}

/// `module_of_spec` is the first owning root in the given order.
proof fn lemma_module_of_first(path: Seq<char>, roots: Seq<Seq<char>>)
    ensures
        match module_of_spec(path, roots) {
            Some(r) => exists|k: int|
                0 <= k < roots.len() && roots[k] == r && owns(r, path) && forall|j: int|
                    0 <= j < k ==> !owns(#[trigger] roots[j], path),
            None => forall|k: int| 0 <= k < roots.len() ==> !owns(#[trigger] roots[k], path),
        },
    decreases roots.len(),
{
    if roots.len() > 0 && !owns(roots[0], path) {
        let t = roots.drop_first();
        lemma_module_of_first(path, t);
        match module_of_spec(path, t) {
            Some(r) => {
                let k = choose|k: int|
                    0 <= k < t.len() && t[k] == r && owns(r, path) && forall|j: int|
                        0 <= j < k ==> !owns(#[trigger] t[j], path);
                assert(roots[k + 1] == r);
                assert forall|j: int| 0 <= j < k + 1 implies !owns(#[trigger] roots[j], path) by {
                    if j > 0 {
                        assert(roots[j] == t[j - 1]);
                    }
                }
            },
            None => {
                assert forall|k: int| 0 <= k < roots.len() implies !owns(#[trigger] roots[k], path) by {
                    if k > 0 {
                        assert(roots[k] == t[k - 1]);
                    }
                }
            },
        }
    } else if roots.len() > 0 {
        assert(roots[0] == roots[0]);
    }
}

/// Law: the owning module of a path is a declared root that owns it on a path
/// boundary, and the most specific one: no other owning root is longer. A path
/// no root owns has no module.
pub proof fn lemma_most_specific_owner(path: Seq<char>, roots: Seq<Seq<char>>)
    ensures
        match module_of_spec(path, sort_roots_spec(roots)) {
            Some(r) => roots.contains(r) && owns(r, path) && forall|r2: Seq<char>|
                #[trigger] roots.contains(r2) && owns(r2, path) ==> r2.len() <= r.len(),
            None => forall|r2: Seq<char>| #[trigger] roots.contains(r2) ==> !owns(r2, path),
        },
{
    broadcast use vstd::seq_lib::group_to_multiset_ensures;
    let s = sort_roots_spec(roots);
    lemma_sort_roots(roots);
    lemma_module_of_first(path, s);
    match module_of_spec(path, s) {
        Some(r) => {
            let k = choose|k: int|
                0 <= k < s.len() && s[k] == r && owns(r, path) && forall|j: int|
                    0 <= j < k ==> !owns(#[trigger] s[j], path);
            assert(s.to_multiset().count(r) > 0);
            assert forall|r2: Seq<char>| #[trigger] roots.contains(r2) && owns(r2, path) implies r2.len()
                <= r.len() by {
                assert(roots.to_multiset().count(r2) > 0);
                assert(s.contains(r2));
                let j2 = choose|j2: int| 0 <= j2 < s.len() && s[j2] == r2;
                if j2 < k {
                    assert(!owns(s[j2], path));
                } else if j2 > k {
                    assert(!root_before(s[j2], s[k]));
                }
            }
        },
        None => {
            assert forall|r2: Seq<char>| #[trigger] roots.contains(r2) implies !owns(r2, path) by {
                assert(roots.to_multiset().count(r2) > 0);
                assert(s.contains(r2));
                let j2 = choose|j2: int| 0 <= j2 < s.len() && s[j2] == r2;
                assert(!owns(s[j2], path));
            }
        },
    }
}

/// The module fold over the changed paths (aligned with whether each is
/// indexed): the number indexed, and the roots owning them, ascending without
/// repeats.
pub open spec fn indexed_changed_count(indexed: Seq<bool>) -> nat
    decreases indexed.len(),
{
    if indexed.len() == 0 {
        0
    } else {
        indexed_changed_count(indexed.drop_last()) + if indexed.last() {
            1nat
        } else {
            0nat
        }
    }
}

pub open spec fn owning_roots(paths: Seq<Seq<char>>, indexed: Seq<bool>, roots: Seq<Seq<char>>) -> Seq<Seq<char>>
    decreases paths.len(),
{
    if paths.len() == 0 {
        Seq::<Seq<char>>::empty()
    } else {
        let rest = owning_roots(paths.drop_last(), indexed, roots);
        if indexed[paths.len() - 1] {
            match module_of_spec(paths.last(), roots) {
                Some(r) => rest.push(r),
                None => rest,
            }
        } else {
            rest
        }
    }
}

/// The footer module list: the sorted names, capped at
/// [`MODULE_NAME_CAP`] with the overflow folded into `+N more`.
pub open spec fn cap_modules_spec(all: Seq<Seq<char>>) -> Seq<Seq<char>> {
    if all.len() <= MODULE_NAME_CAP {
        all
    } else {
        all.subrange(0, MODULE_NAME_CAP as int).push("+"@ + decimal((all.len() - MODULE_NAME_CAP) as nat) + " more"@)
    }
}

/// Caps the sorted module list for a one-line footer.
pub fn cap_modules(modules: Vec<String>) -> (r: Vec<String>)
    ensures
        strs(r@) == cap_modules_spec(strs(modules@)),
{
    if modules.len() <= MODULE_NAME_CAP {
        return modules;
    }
    let mut capped: Vec<String> = Vec::new();
    let mut i: usize = 0;
    while i < MODULE_NAME_CAP
        invariant
            i <= MODULE_NAME_CAP,
            MODULE_NAME_CAP < modules.len(),
            strs(capped@) == strs(modules@).subrange(0, i as int),
        decreases MODULE_NAME_CAP - i,
    {
        let ghost prev = capped@;
        capped.push(owned(modules[i].as_str()));
        proof {
            assert(strs(capped@) =~= strs(prev).push(modules@[i as int]@));
            assert(strs(modules@).subrange(0, i + 1) =~= strs(modules@).subrange(0, i as int).push(modules@[i as int]@));
        }
        i = i + 1;
    }
    let mut m: Vec<char> = Vec::new();
    push_str(&mut m, "+");
    let d = decimal_chars((modules.len() - MODULE_NAME_CAP) as u64);
    push_chars(&mut m, &d);
    push_str(&mut m, " more");
    let ghost prev = capped@;
    capped.push(string_of(&m));
    assert(strs(capped@) =~= strs(prev).push(m@));
    capped
}

/// Classifies the changed paths: counts the indexed ones and collects the
/// module roots (ordered most specific first) that own them, ascending
/// without repeats, capped for the footer.
pub fn classify_changed(paths: &Vec<String>, indexed: &Vec<bool>, module_roots: &Vec<String>) -> (r: (u64, Vec<String>))
    requires
        indexed.len() == paths.len(),
    ensures
        r.0 == indexed_changed_count(indexed@),
        strs(r.1@) == cap_modules_spec(
            sort_distinct(owning_roots(strs(paths@), indexed@, sort_roots_spec(strs(module_roots@)))),
        ),
{
    let sorted_roots = sort_roots(module_roots);
    let roots = &sorted_roots;
    let mut count: u64 = 0;
    let mut owners: Vec<String> = Vec::new();
    let mut i: usize = 0;
    while i < paths.len()
        invariant
            i <= paths.len(),
            indexed.len() == paths.len(),
            count <= i,
            count == indexed_changed_count(indexed@.subrange(0, i as int)),
            strs(roots@) == sort_roots_spec(strs(module_roots@)),
            strs(owners@) == owning_roots(strs(paths@).subrange(0, i as int), indexed@, strs(roots@)),
        decreases paths.len() - i,
    {
        proof {
            let t = strs(paths@).subrange(0, i + 1);
            assert(t.drop_last() =~= strs(paths@).subrange(0, i as int));
            assert(t.last() == paths@[i as int]@);
            assert(indexed@.subrange(0, i + 1).drop_last() =~= indexed@.subrange(0, i as int));
        }
        if indexed[i] {
            count = count + 1;
            match module_of(paths[i].as_str(), roots) {
                Some(r) => {
                    let ghost prev = owners@;
                    owners.push(r);
                    assert(strs(owners@) =~= strs(prev).push(r@));
                },
                None => {},
            }
        }
        i = i + 1;
    }
    assert(strs(paths@).subrange(0, paths.len() as int) == strs(paths@));
    assert(indexed@.subrange(0, paths.len() as int) == indexed@);
    let sorted = crate::sorted::sort_distinct_strings(&owners);
    (count, cap_modules(sorted))
}

/// The final step: the drift with the reader's changed files, or `Unknown`
/// when a storage read needed for classification failed.
pub fn drifted(
    basis: &str,
    commits_ahead: u64,
    reader_changed: usize,
    excluded: u64,
    unreadable: u64,
    classified: Result<(u64, Vec<String>), String>,
) -> (r: IndexDrift)
    ensures
        match classified {
            Err(reason) => match r {
                IndexDrift::Unknown { basis: b, reason: why } => opt_view(b) == Some(basis@) && why@ == reason@,
                _ => false,
            },
            Ok((k, modules)) => match r {
                IndexDrift::Drifted { basis: b, commits_ahead: c, files_changed: m, indexed_changed: kk, modules: mods, excluded: x, unreadable: u } => {
                    &&& b@ == basis@
                    &&& c == commits_ahead
                    &&& m == reader_changed
                    &&& kk == k
                    &&& strs(mods@) == strs(modules@)
                    &&& x == excluded
                    &&& u == unreadable
                },
                _ => false,
            },
        },
{
    match classified {
        Err(reason) => IndexDrift::Unknown { basis: Some(owned(basis)), reason },
        Ok((k, modules)) => IndexDrift::Drifted {
            basis: owned(basis),
            commits_ahead,
            files_changed: reader_changed as u64,
            indexed_changed: k,
            modules,
            excluded,
            unreadable,
        },
    }
}

} // verus!
