//! The machine contract of the `inferences list` response: the detector
//! inventory (which inference detectors ship in this build, whether each
//! applies to the snapshot's languages, and how many rows it produced), the
//! honest empty-state reason, the source file of a record, and the
//! `count` / `returned` / `truncated` headline.
//!
//! Applicability is derived from the snapshot's language mix and a count is a
//! fact; no detector is ever claimed to have run. A language set may be passed
//! as any list: only its elements count (they are taken ascending, without
//! repeats).
use crate::http_surface_union::opt_chars;
use crate::text::{
    chars_of, contains_str, decimal, decimal_chars, find_first, first_of, has_suffix, join_strings,
    join_with, owned, push_chars, push_str, slice_chars, str_eq, string_of, strs, vec_has_suffix,
};
use crate::sorted::{lemma_sort_distinct, lemma_sort_distinct_set_only, sort_distinct, sort_distinct_strings};
use vstd::prelude::*;
use vstd::string::*;

verus! {

// ───────────────────────── reader languages ─────────────────────────

/// Reader-facing name of a `files.language` label; an unknown label is
/// returned verbatim.
pub open spec fn reader_language_spec(l: Seq<char>) -> Seq<char> {
    if l == "javascript"@ {
        "JavaScript"@
    } else if l == "typescript"@ {
        "TypeScript"@
    } else if l == "tsx"@ {
        "TypeScript (TSX)"@
    } else if l == "jsx"@ {
        "JavaScript (JSX)"@
    } else if l == "java"@ {
        "Java"@
    } else if l == "python"@ {
        "Python"@
    } else if l == "c"@ {
        "C"@
    } else if l == "cpp"@ || l == "c++"@ || l == "cxx"@ {
        "C++"@
    } else if l == "go"@ {
        "Go"@
    } else if l == "rust"@ {
        "Rust"@
    } else if l == "ruby"@ {
        "Ruby"@
    } else if l == "php"@ {
        "PHP"@
    } else if l == "csharp"@ || l == "c#"@ {
        "C#"@
    } else {
        l
    }
}

/// Reader-facing name for a `files.language` label. An unknown label is
/// returned verbatim: never fabricated, never dropped.
pub fn reader_language(lang: &str) -> (r: String)
    ensures
        r@ == reader_language_spec(lang@),
{
    if str_eq(lang, "javascript") {
        owned("JavaScript")
    } else if str_eq(lang, "typescript") {
        owned("TypeScript")
    } else if str_eq(lang, "tsx") {
        owned("TypeScript (TSX)")
    } else if str_eq(lang, "jsx") {
        owned("JavaScript (JSX)")
    } else if str_eq(lang, "java") {
        owned("Java")
    } else if str_eq(lang, "python") {
        owned("Python")
    } else if str_eq(lang, "c") {
        owned("C")
    } else if str_eq(lang, "cpp") || str_eq(lang, "c++") || str_eq(lang, "cxx") {
        owned("C++")
    } else if str_eq(lang, "go") {
        owned("Go")
    } else if str_eq(lang, "rust") {
        owned("Rust")
    } else if str_eq(lang, "ruby") {
        owned("Ruby")
    } else if str_eq(lang, "php") {
        owned("PHP")
    } else if str_eq(lang, "csharp") || str_eq(lang, "c#") {
        owned("C#")
    } else {
        owned(lang)
    }
}

/// The reader names of `langs`, in order, joined with `", "`; `"(none)"` for
/// an empty list.
pub open spec fn reader_language_list_spec(langs: Seq<Seq<char>>) -> Seq<char> {
    if langs.len() == 0 {
        "(none)"@
    } else {
        join_with(langs.map_values(|l: Seq<char>| reader_language_spec(l)), ", "@)
    }
}

/// Joins the reader names of a language set, ascending; `"(none)"` for an
/// empty set.
pub fn reader_language_list(langs: &Vec<String>) -> (r: String)
    ensures
        r@ == reader_language_list_spec(sort_distinct(strs(langs@))),
{
    let set = sort_distinct_strings(langs);
    reader_names(&set)
}

/// Joins the reader names of a language list, in the list's order.
fn reader_names(langs: &Vec<String>) -> (r: String)
    ensures
        r@ == reader_language_list_spec(strs(langs@)),
{
    if langs.len() == 0 {
        return owned("(none)");
    }
    let mut names: Vec<String> = Vec::new();
    let mut i: usize = 0;
    while i < langs.len()
        invariant
            i <= langs.len(),
            strs(names@) == strs(langs@).subrange(0, i as int).map_values(
                |l: Seq<char>| reader_language_spec(l),
            ),
        decreases langs.len() - i,
    {
        let n = reader_language(langs[i].as_str());
        let ghost prev = names@;
        names.push(n);
        proof {
            assert(strs(names@) =~= strs(prev).push(n@));
            assert(strs(langs@).subrange(0, i + 1) =~= strs(langs@).subrange(0, i as int).push(
                langs@[i as int]@,
            ));
            assert(strs(langs@).subrange(0, i + 1).map_values(
                |l: Seq<char>| reader_language_spec(l),
            ) =~= strs(langs@).subrange(0, i as int).map_values(
                |l: Seq<char>| reader_language_spec(l),
            ).push(reader_language_spec(langs@[i as int]@)));
        }
        i = i + 1;
    }
    assert(strs(langs@).subrange(0, langs.len() as int) == strs(langs@));
    join_strings(&names, ", ")
}

// ───────────────────────── the detector catalog ─────────────────────────

/// One inference detector that ships in this build, with the inference kinds
/// it emits and the `files.language` labels its producer runs over.
pub struct DetectorSpec {
    pub id: &'static str,
    pub label: &'static str,
    pub subjects: &'static str,
    pub kinds: Vec<&'static str>,
    pub languages: Vec<&'static str>,
}

pub struct DetectorView {
    pub id: Seq<char>,
    pub label: Seq<char>,
    pub subjects: Seq<char>,
    pub kinds: Seq<Seq<char>>,
    pub languages: Seq<Seq<char>>,
}

pub open spec fn lits(v: Seq<&str>) -> Seq<Seq<char>> {
    v.map_values(|s: &str| s@)
}

impl View for DetectorSpec {
    type V = DetectorView;

    open spec fn view(&self) -> DetectorView {
        DetectorView {
            id: self.id@,
            label: self.label@,
            subjects: self.subjects@,
            kinds: lits(self.kinds@),
            languages: lits(self.languages@),
        }
    }
}

/// The inference-detector inventory of this build: React over the JS/TS
/// family, Spring over Java.
pub open spec fn catalog_spec() -> Seq<DetectorView> {
    seq![
        DetectorView {
            id: "react"@,
            label: "React"@,
            subjects: "components & hooks"@,
            kinds: seq!["react_component"@, "react_hook_usage"@],
            languages: seq!["javascript"@, "typescript"@, "tsx"@, "jsx"@],
        },
        DetectorView {
            id: "spring"@,
            label: "Spring"@,
            subjects: "container-managed beans"@,
            kinds: seq!["spring_container_managed"@],
            languages: seq!["java"@],
        },
    ]
}

fn catalog() -> (r: Vec<DetectorSpec>)
    ensures
        r@.map_values(|d: DetectorSpec| d@) == catalog_spec(),
{
    let mut react_kinds: Vec<&'static str> = Vec::new();
    react_kinds.push("react_component");
    react_kinds.push("react_hook_usage");
    let mut react_langs: Vec<&'static str> = Vec::new();
    react_langs.push("javascript");
    react_langs.push("typescript");
    react_langs.push("tsx");
    react_langs.push("jsx");
    let mut spring_kinds: Vec<&'static str> = Vec::new();
    spring_kinds.push("spring_container_managed");
    let mut spring_langs: Vec<&'static str> = Vec::new();
    spring_langs.push("java");
    let react = DetectorSpec {
        id: "react",
        label: "React",
        subjects: "components & hooks",
        kinds: react_kinds,
        languages: react_langs,
    };
    let spring = DetectorSpec {
        id: "spring",
        label: "Spring",
        subjects: "container-managed beans",
        kinds: spring_kinds,
        languages: spring_langs,
    };
    proof {
        assert(react@.kinds =~= catalog_spec()[0].kinds);
        assert(react@.languages =~= catalog_spec()[0].languages);
        assert(spring@.kinds =~= catalog_spec()[1].kinds);
        assert(spring@.languages =~= catalog_spec()[1].languages);
    }
    let mut r: Vec<DetectorSpec> = Vec::new();
    r.push(react);
    r.push(spring);
    assert(r@.map_values(|d: DetectorSpec| d@) =~= catalog_spec());
    r
}

fn lits_contains(v: &Vec<&'static str>, s: &str) -> (r: bool)
    ensures
        r == lits(v@).contains(s@),
{
    let mut i: usize = 0;
    while i < v.len()
        invariant
            i <= v.len(),
            forall|j: int| 0 <= j < i ==> v@[j]@ != s@,
        decreases v.len() - i,
    {
        if str_eq(v[i], s) {
            assert(lits(v@)[i as int] == s@);
            return true;
        }
        i = i + 1;
    }
    assert forall|j: int| 0 <= j < lits(v@).len() implies lits(v@)[j] != s@ by {
        assert(lits(v@)[j] == v@[j]@);
    }
    false
}

/// A detector applies when one of its languages is in the snapshot's mix (a
/// fact about the catalog and the snapshot, not a claim that it ran).
pub open spec fn applies_spec(d: DetectorView, langs: Seq<Seq<char>>) -> bool {
    exists|i: int| 0 <= i < d.languages.len() && langs.contains(#[trigger] d.languages[i])
}

fn applies(d: &DetectorSpec, langs: &Vec<String>) -> (r: bool)
    ensures
        r == applies_spec(d@, strs(langs@)),
{
    let mut i: usize = 0;
    while i < d.languages.len()
        invariant
            i <= d.languages.len(),
            forall|j: int| 0 <= j < i ==> !strs(langs@).contains(#[trigger] d@.languages[j]),
        decreases d.languages.len() - i,
    {
        if contains_str(langs, d.languages[i]) {
            assert(d@.languages[i as int] == d.languages@[i as int]@);
            return true;
        }
        assert(d@.languages[i as int] == d.languages@[i as int]@);
        i = i + 1;
    }
    false
}

/// Some shipping detector covers language `l`.
pub open spec fn covered_spec(l: Seq<char>) -> bool {
    exists|d: int| 0 <= d < catalog_spec().len() && (#[trigger] catalog_spec()[d]).languages.contains(l)
}

fn is_covered(cat: &Vec<DetectorSpec>, l: &str) -> (r: bool)
    requires
        cat@.map_values(|d: DetectorSpec| d@) == catalog_spec(),
    ensures
        r == covered_spec(l@),
{
    let mut d: usize = 0;
    while d < cat.len()
        invariant
            d <= cat.len(),
            cat@.map_values(|d: DetectorSpec| d@) == catalog_spec(),
            forall|e: int| 0 <= e < d ==> !(#[trigger] catalog_spec()[e]).languages.contains(l@),
        decreases cat.len() - d,
    {
        assert(catalog_spec()[d as int] == cat@[d as int]@);
        if lits_contains(&cat[d].languages, l) {
            return true;
        }
        d = d + 1;
    }
    false
}

/// The languages of `langs`, in order, that no shipping detector covers.
pub open spec fn uncovered_spec(langs: Seq<Seq<char>>) -> Seq<Seq<char>>
    decreases langs.len(),
{
    if langs.len() == 0 {
        Seq::<Seq<char>>::empty()
    } else if covered_spec(langs.last()) {
        uncovered_spec(langs.drop_last())
    } else {
        uncovered_spec(langs.drop_last()).push(langs.last())
    }
}

/// The languages present in the snapshot that no shipping inference detector
/// covers, derived from the catalog alone.
pub fn uncovered_languages(langs: &Vec<String>) -> (r: Vec<String>)
    ensures
        strs(r@) == uncovered_spec(sort_distinct(strs(langs@))),
{
    let set = sort_distinct_strings(langs);
    uncovered_in(&set)
}

/// The languages of `langs`, in order, that no shipping detector covers.
fn uncovered_in(langs: &Vec<String>) -> (r: Vec<String>)
    ensures
        strs(r@) == uncovered_spec(strs(langs@)),
{
    let cat = catalog();
    let mut out: Vec<String> = Vec::new();
    let mut i: usize = 0;
    while i < langs.len()
        invariant
            i <= langs.len(),
            cat@.map_values(|d: DetectorSpec| d@) == catalog_spec(),
            strs(out@) == uncovered_spec(strs(langs@).subrange(0, i as int)),
        decreases langs.len() - i,
    {
        let ghost prev = out@;
        proof {
            let s = strs(langs@).subrange(0, i + 1);
            assert(s.drop_last() =~= strs(langs@).subrange(0, i as int));
            assert(s.last() == langs@[i as int]@);
        }
        if !is_covered(&cat, langs[i].as_str()) {
            out.push(owned(langs[i].as_str()));
            assert(strs(out@) =~= strs(prev).push(langs@[i as int]@));
        }
        i = i + 1;
    }
    assert(strs(langs@).subrange(0, langs.len() as int) == strs(langs@));
    out
}

/// The honest "no inference detector covers ..." clause, for a non-empty
/// uncovered list only.
pub open spec fn no_detector_note_spec(uncovered: Seq<Seq<char>>) -> Option<Seq<char>> {
    if uncovered.len() == 0 {
        None
    } else {
        Some(
            "No inference detector on this build covers "@ + reader_language_list_spec(uncovered)
                + "."@,
        )
    }
}

/// The clause naming, in reader languages, the snapshot languages no detector
/// covers; `None` when nothing is uncovered, so a caller renders it only for a
/// real gap.
pub fn no_detector_note(uncovered: &Vec<String>) -> (r: Option<String>)
    ensures
        opt_chars(r) == no_detector_note_spec(sort_distinct(strs(uncovered@))),
{
    let set = sort_distinct_strings(uncovered);
    note_for(&set)
}

/// The clause for an uncovered list taken in its own order.
pub(crate) fn note_for(uncovered: &Vec<String>) -> (r: Option<String>)
    ensures
        opt_chars(r) == no_detector_note_spec(strs(uncovered@)),
{
    if uncovered.len() == 0 {
        return None;
    }
    let list = reader_names(uncovered);
    let mut out: Vec<char> = Vec::new();
    push_str(&mut out, "No inference detector on this build covers ");
    push_str(&mut out, list.as_str());
    push_str(&mut out, ".");
    Some(string_of(&out))
}

/// Law: what is said about a snapshot's languages depends on the set of
/// languages alone, never on the order or repetition of the list they come in.
pub proof fn lemma_language_set_only(a: Seq<Seq<char>>, b: Seq<Seq<char>>)
    requires
        forall|y: Seq<char>| a.contains(y) <==> b.contains(y),
    ensures
        uncovered_spec(sort_distinct(a)) == uncovered_spec(sort_distinct(b)),
        reader_language_list_spec(sort_distinct(a)) == reader_language_list_spec(sort_distinct(b)),
        no_detector_note_spec(sort_distinct(a)) == no_detector_note_spec(sort_distinct(b)),
        empty_state_spec(sort_distinct(a)) == empty_state_spec(sort_distinct(b)),
        forall|d: DetectorView| applies_spec(d, a) == applies_spec(d, b),
{
    lemma_sort_distinct_set_only(a, b);
}

// ───────────────────────── record location ─────────────────────────

/// The file path of an inference target key. Keys are
/// `{repo}:{path}#{sym}:SYMBOL:{kind}` or `{repo}:{path}:FILE`, and the repo
/// uid holds no `:`: the path follows the first `:` and runs to the first `#`,
/// or else to a trailing `:FILE`. `None` when there is no path.
pub open spec fn file_from_stable_key_spec(key: Seq<char>) -> Option<Seq<char>> {
    match first_of(key, ':') {
        None => None,
        Some(c) => {
            let after = key.subrange(c + 1, key.len() as int);
            let path = match first_of(after, '#') {
                Some(h) => after.subrange(0, h),
                None => if has_suffix(after, ":FILE"@) {
                    after.subrange(0, after.len() - ":FILE"@.len())
                } else {
                    after
                },
            };
            if path.len() == 0 {
                None
            } else {
                Some(path)
            }
        },
    }
}

/// Parses the source file path out of an inference `target_stable_key`;
/// `None` only for a key with no path segment, never a fabricated path.
pub fn file_from_stable_key(key: &str) -> (r: Option<String>)
    ensures
        opt_chars(r) == file_from_stable_key_spec(key@),
{
    let k = chars_of(key);
    match find_first(&k, ':') {
        None => None,
        Some(c) => {
            let after = slice_chars(&k, c + 1, k.len());
            let path = match find_first(&after, '#') {
                Some(h) => slice_chars(&after, 0, h),
                None => {
                    let suf = chars_of(":FILE");
                    if vec_has_suffix(&after, &suf) {
                        slice_chars(&after, 0, after.len() - suf.len())
                    } else {
                        after
                    }
                },
            };
            if path.len() == 0 {
                None
            } else {
                Some(string_of(&path))
            }
        },
    }
}

/// Where a response record points, and why its value could not be decoded.
#[derive(Debug)]
pub struct RecordLocation {
    pub file: Option<String>,
    pub line: Option<u64>,
    pub value_error: Option<String>,
}

/// Locates one record from its target key and the outcome of decoding its
/// value: the `line_start` the decoded value carries (`None` when it carries
/// none), or the decoder's message. A malformed value is surfaced as
/// `value_error` with no line, never a silent or fabricated one.
pub fn record_location(key: &str, decoded: Result<Option<u64>, String>) -> (r: RecordLocation)
    ensures
        opt_chars(r.file) == file_from_stable_key_spec(key@),
        match decoded {
            Ok(l) => r.line == l && r.value_error is None,
            Err(e) => r.line is None && r.value_error is Some && r.value_error->0@ == e@,
        },
{
    let file = file_from_stable_key(key);
    match decoded {
        Ok(l) => RecordLocation { file, line: l, value_error: None },
        Err(e) => RecordLocation { file, line: None, value_error: Some(e) },
    }
}

// ───────────────────────── detector inventory ─────────────────────────

/// The number of rows whose kind is one of `kinds`.
pub open spec fn count_in(rows: Seq<Seq<char>>, kinds: Seq<Seq<char>>) -> nat
    decreases rows.len(),
{
    if rows.len() == 0 {
        0
    } else {
        count_in(rows.drop_last(), kinds) + if kinds.contains(rows.last()) {
            1nat
        } else {
            0nat
        }
    }
}

proof fn lemma_count_in_le(rows: Seq<Seq<char>>, kinds: Seq<Seq<char>>)
    ensures
        count_in(rows, kinds) <= rows.len(),
    decreases rows.len(),
{
    if rows.len() > 0 {
        lemma_count_in_le(rows.drop_last(), kinds);
    }
}

fn count_rows_in(row_kinds: &Vec<String>, kinds: &Vec<&'static str>) -> (r: u64)
    ensures
        r == count_in(strs(row_kinds@), lits(kinds@)),
{
    let mut n: u64 = 0;
    let mut i: usize = 0;
    while i < row_kinds.len()
        invariant
            i <= row_kinds.len(),
            n == count_in(strs(row_kinds@).subrange(0, i as int), lits(kinds@)),
        decreases row_kinds.len() - i,
    {
        proof {
            let s = strs(row_kinds@).subrange(0, i + 1);
            assert(s.drop_last() =~= strs(row_kinds@).subrange(0, i as int));
            assert(s.last() == row_kinds@[i as int]@);
            lemma_count_in_le(strs(row_kinds@).subrange(0, i as int), lits(kinds@));
        }
        if lits_contains(kinds, row_kinds[i].as_str()) {
            n = n + 1;
        }
        i = i + 1;
    }
    assert(strs(row_kinds@).subrange(0, row_kinds.len() as int) == strs(row_kinds@));
    n
}

/// One entry of the detector inventory: the detector, whether it applies to
/// the snapshot's languages, and how many rows it produced.
pub struct DetectorReport {
    pub detector: DetectorSpec,
    pub applicable: bool,
    pub count: u64,
}

/// Entry `d` of the inventory reports catalog detector `d`, whether it
/// applies to `langs`, and the number of rows whose kind it emits.
pub open spec fn detectors_match(
    r: Seq<DetectorReport>,
    langs: Seq<Seq<char>>,
    row_kinds: Seq<Seq<char>>,
) -> bool {
    &&& r.len() == catalog_spec().len()
    &&& forall|d: int|
        0 <= d < r.len() ==> {
            &&& (#[trigger] r[d]).detector@ == catalog_spec()[d]
            &&& r[d].applicable == applies_spec(catalog_spec()[d], langs)
            &&& r[d].count == count_in(row_kinds, catalog_spec()[d].kinds)
        }
}

/// The detector inventory, in catalog order, over the snapshot's languages
/// and the kinds of all its inference rows (unfiltered: a kind filter never
/// changes what a detector is reported to have produced).
pub fn build_detectors(langs: &Vec<String>, row_kinds: &Vec<String>) -> (r: Vec<DetectorReport>)
    ensures
        detectors_match(r@, strs(langs@), strs(row_kinds@)),
{
    let cat = catalog();
    let ghost cv = cat@;
    assert(cv.map_values(|d: DetectorSpec| d@).len() == cv.len());
    assert(cv.subrange(0, 2) =~= cv);
    let mut cat = cat;
    let mut out: Vec<DetectorReport> = Vec::new();
    while cat.len() > 0
        invariant
            out.len() + cat.len() == 2,
            cv.len() == 2,
            cv.map_values(|d: DetectorSpec| d@) == catalog_spec(),
            cat@ == cv.subrange(out.len() as int, 2),
            forall|d: int|
                0 <= d < out.len() ==> {
                    &&& (#[trigger] out@[d]).detector@ == catalog_spec()[d]
                    &&& out@[d].applicable == applies_spec(catalog_spec()[d], strs(langs@))
                    &&& out@[d].count == count_in(strs(row_kinds@), catalog_spec()[d].kinds)
                },
        decreases cat.len(),
    {
        let ghost k = out.len() as int;
        let ghost before = cat@;
        assert(before[0] == cv[k]);
        let spec = cat.remove(0);
        assert(spec == cv[k]);
        assert(cv.map_values(|d: DetectorSpec| d@)[k] == cv[k]@);
        assert(spec@ == catalog_spec()[k]);
        let applicable = applies(&spec, langs);
        let count = count_rows_in(row_kinds, &spec.kinds);
        out.push(DetectorReport { detector: spec, applicable, count });
        assert(cat@ =~= cv.subrange(out.len() as int, 2));
    }
    out
}

/// Law: a kind filter changes what is shown, never what a detector is
/// reported to have produced: any two inventories of the same rows and
/// languages (as `build_response` gives for any two filters) agree.
pub proof fn lemma_inventory_ignores_filter(
    a: Seq<DetectorReport>,
    b: Seq<DetectorReport>,
    langs: Seq<Seq<char>>,
    row_kinds: Seq<Seq<char>>,
)
    requires
        detectors_match(a, langs, row_kinds),
        detectors_match(b, langs, row_kinds),
    ensures
        a.len() == b.len(),
        forall|d: int|
            0 <= d < a.len() ==> (#[trigger] a[d]).detector@ == b[d].detector@ && a[d].applicable
                == b[d].applicable && a[d].count == b[d].count,
{
}

// ───────────────────────── empty states ─────────────────────────

/// Why a response carries no records.
#[derive(Debug, PartialEq, Eq, Clone, Copy)]
pub enum EmptyReason {
    /// No shipping detector covers any language in the snapshot.
    NoDetectorForLanguages,
    /// A detector applies to the snapshot's languages, yet it holds no inferences.
    ApplicableDetectorsRecordedNothing,
    /// The kind filter matched nothing in a snapshot that holds other kinds.
    NoRecordsForKindFilter,
}

impl EmptyReason {
    pub open spec fn as_str_spec(self) -> Seq<char> {
        match self {
            EmptyReason::NoDetectorForLanguages => "no_detector_for_languages"@,
            EmptyReason::ApplicableDetectorsRecordedNothing => "applicable_detectors_recorded_nothing"@,
            EmptyReason::NoRecordsForKindFilter => "no_records_for_kind_filter"@,
        }
    }

    /// The reason's wire name.
    pub fn as_str(self) -> (r: &'static str)
        ensures
            r@ == self.as_str_spec(),
    {
        match self {
            EmptyReason::NoDetectorForLanguages => "no_detector_for_languages",
            EmptyReason::ApplicableDetectorsRecordedNothing => "applicable_detectors_recorded_nothing",
            EmptyReason::NoRecordsForKindFilter => "no_records_for_kind_filter",
        }
    }
}

/// The explanation a response gives for carrying no records. The language
/// Law: each empty-state reason has its own wire name.
pub proof fn lemma_empty_reason_names_distinct()
    ensures
        forall|a: EmptyReason, b: EmptyReason| #[trigger] a.as_str_spec() == #[trigger] b.as_str_spec() ==> a == b,
{
    reveal_strlit("no_detector_for_languages");
    reveal_strlit("applicable_detectors_recorded_nothing");
    reveal_strlit("no_records_for_kind_filter");
    assert forall|a: EmptyReason, b: EmptyReason| #[trigger] a.as_str_spec() == #[trigger] b.as_str_spec() implies a == b by {
        assert(a.as_str_spec().len() == b.as_str_spec().len());
    }
}

/// lists are empty for the kind-filter case.
pub struct EmptyState {
    pub reason: EmptyReason,
    pub covered_languages: Vec<String>,
    pub uncovered_languages: Vec<String>,
    pub message: String,
}

pub struct EmptyView {
    pub reason: EmptyReason,
    pub covered_languages: Seq<Seq<char>>,
    pub uncovered_languages: Seq<Seq<char>>,
    pub message: Seq<char>,
}

impl View for EmptyState {
    type V = EmptyView;

    open spec fn view(&self) -> EmptyView {
        EmptyView {
            reason: self.reason,
            covered_languages: strs(self.covered_languages@),
            uncovered_languages: strs(self.uncovered_languages@),
            message: self.message@,
        }
    }
}

/// The languages of `langs`, in order, that some shipping detector covers.
pub open spec fn covered_list_spec(langs: Seq<Seq<char>>) -> Seq<Seq<char>>
    decreases langs.len(),
{
    if langs.len() == 0 {
        Seq::<Seq<char>>::empty()
    } else if covered_spec(langs.last()) {
        covered_list_spec(langs.drop_last()).push(langs.last())
    } else {
        covered_list_spec(langs.drop_last())
    }
}

/// The labels of the catalog detectors that apply to `langs`, in catalog order.
pub open spec fn applicable_labels_spec(cat: Seq<DetectorView>, langs: Seq<Seq<char>>) -> Seq<Seq<char>>
    decreases cat.len(),
{
    if cat.len() == 0 {
        Seq::<Seq<char>>::empty()
    } else if applies_spec(cat.last(), langs) {
        applicable_labels_spec(cat.drop_last(), langs).push(cat.last().label)
    } else {
        applicable_labels_spec(cat.drop_last(), langs)
    }
}

/// The empty-state explanation for a snapshot holding no inferences at all.
pub open spec fn empty_state_spec(langs: Seq<Seq<char>>) -> EmptyView {
    let uncovered = uncovered_spec(langs);
    let covered = covered_list_spec(langs);
    if covered.len() == 0 {
        EmptyView {
            reason: EmptyReason::NoDetectorForLanguages,
            covered_languages: Seq::<Seq<char>>::empty(),
            uncovered_languages: uncovered,
            message: "No inference detector on this build covers "@ + reader_language_list_spec(langs)
                + " (this build's inference detectors: React \u{2192} JS/TS, Spring \u{2192} Java)."@,
        }
    } else {
        let base = join_with(applicable_labels_spec(catalog_spec(), langs), " and "@)
            + " applies to this snapshot's "@ + reader_language_list_spec(covered)
            + " files (by file language) but recorded no inferences."@;
        EmptyView {
            reason: EmptyReason::ApplicableDetectorsRecordedNothing,
            covered_languages: covered,
            uncovered_languages: uncovered,
            message: match no_detector_note_spec(uncovered) {
                Some(note) => base + " "@ + note,
                None => base,
            },
        }
    }
}

fn covered_list(cat: &Vec<DetectorSpec>, langs: &Vec<String>) -> (r: Vec<String>)
    requires
        cat@.map_values(|d: DetectorSpec| d@) == catalog_spec(),
    ensures
        strs(r@) == covered_list_spec(strs(langs@)),
{
    let mut out: Vec<String> = Vec::new();
    let mut i: usize = 0;
    while i < langs.len()
        invariant
            i <= langs.len(),
            cat@.map_values(|d: DetectorSpec| d@) == catalog_spec(),
            strs(out@) == covered_list_spec(strs(langs@).subrange(0, i as int)),
        decreases langs.len() - i,
    {
        let ghost prev = out@;
        proof {
            let s = strs(langs@).subrange(0, i + 1);
            assert(s.drop_last() =~= strs(langs@).subrange(0, i as int));
            assert(s.last() == langs@[i as int]@);
        }
        if is_covered(cat, langs[i].as_str()) {
            out.push(owned(langs[i].as_str()));
            assert(strs(out@) =~= strs(prev).push(langs@[i as int]@));
        }
        i = i + 1;
    }
    assert(strs(langs@).subrange(0, langs.len() as int) == strs(langs@));
    out
}

fn applicable_labels(cat: &Vec<DetectorSpec>, langs: &Vec<String>) -> (r: Vec<String>)
    requires
        cat@.map_values(|d: DetectorSpec| d@) == catalog_spec(),
    ensures
        strs(r@) == applicable_labels_spec(catalog_spec(), strs(langs@)),
{
    let ghost cs = catalog_spec();
    let mut out: Vec<String> = Vec::new();
    let mut d: usize = 0;
    while d < cat.len()
        invariant
            d <= cat.len(),
            cat@.map_values(|d: DetectorSpec| d@) == cs,
            cs == catalog_spec(),
            strs(out@) == applicable_labels_spec(cs.subrange(0, d as int), strs(langs@)),
        decreases cat.len() - d,
    {
        let ghost prev = out@;
        proof {
            let s = cs.subrange(0, d + 1);
            assert(s.drop_last() =~= cs.subrange(0, d as int));
            assert(s.last() == cat@[d as int]@);
        }
        if applies(&cat[d], langs) {
            out.push(owned(cat[d].label));
            assert(strs(out@) =~= strs(prev).push(cat@[d as int]@.label));
        }
        d = d + 1;
    }
    assert(cs.subrange(0, cat.len() as int) == cs);
    out
}

/// The `empty` explanation for a snapshot that holds zero inferences: either
/// no detector on this build covers its languages (a fact about the build), or
/// a detector applies by file language and recorded nothing (derived
/// applicability, never a claim that it ran).
pub fn empty_state(langs: &Vec<String>) -> (r: EmptyState)
    ensures
        r@ == empty_state_spec(sort_distinct(strs(langs@))),
{
    let set = sort_distinct_strings(langs);
    let langs = &set;
    let cat = catalog();
    let uncovered = uncovered_in(langs);
    let covered = covered_list(&cat, langs);
    if covered.len() == 0 {
        let mut m: Vec<char> = Vec::new();
        push_str(&mut m, "No inference detector on this build covers ");
        let list = reader_names(langs);
        push_str(&mut m, list.as_str());
        push_str(
            &mut m,
            " (this build's inference detectors: React \u{2192} JS/TS, Spring \u{2192} Java).",
        );
        let r = EmptyState {
            reason: EmptyReason::NoDetectorForLanguages,
            covered_languages: Vec::new(),
            uncovered_languages: uncovered,
            message: string_of(&m),
        };
        assert(r@.covered_languages =~= Seq::<Seq<char>>::empty());
        r
    } else {
        let labels = applicable_labels(&cat, langs);
        let joined = join_strings(&labels, " and ");
        let mut m: Vec<char> = Vec::new();
        push_str(&mut m, joined.as_str());
        push_str(&mut m, " applies to this snapshot's ");
        let list = reader_names(&covered);
        push_str(&mut m, list.as_str());
        push_str(&mut m, " files (by file language) but recorded no inferences.");
        match note_for(&uncovered) {
            Some(note) => {
                push_str(&mut m, " ");
                push_str(&mut m, note.as_str());
            },
            None => {},
        }
        EmptyState {
            reason: EmptyReason::ApplicableDetectorsRecordedNothing,
            covered_languages: covered,
            uncovered_languages: uncovered,
            message: string_of(&m),
        }
    }
}

/// The benign explanation when a kind filter matched nothing in a snapshot
/// that does hold inferences of other kinds.
pub open spec fn filter_empty_spec(kind: Seq<char>, total: nat) -> EmptyView {
    EmptyView {
        reason: EmptyReason::NoRecordsForKindFilter,
        covered_languages: Seq::<Seq<char>>::empty(),
        uncovered_languages: Seq::<Seq<char>>::empty(),
        message: "No '"@ + kind + "' inferences in this snapshot ("@ + decimal(total)
            + " inference(s) of other kinds \u{2014} see the detector inventory above)."@,
    }
}

pub fn filter_empty_state(kind: &str, snapshot_total: u64) -> (r: EmptyState)
    ensures
        r@ == filter_empty_spec(kind@, snapshot_total as nat),
{
    let mut m: Vec<char> = Vec::new();
    push_str(&mut m, "No '");
    push_str(&mut m, kind);
    push_str(&mut m, "' inferences in this snapshot (");
    let digits = decimal_chars(snapshot_total);
    push_chars(&mut m, &digits);
    push_str(&mut m, " inference(s) of other kinds \u{2014} see the detector inventory above).");
    let r = EmptyState {
        reason: EmptyReason::NoRecordsForKindFilter,
        covered_languages: Vec::new(),
        uncovered_languages: Vec::new(),
        message: string_of(&m),
    };
    assert(r@.covered_languages =~= Seq::<Seq<char>>::empty());
    assert(r@.uncovered_languages =~= Seq::<Seq<char>>::empty());
    r
}

// ───────────────────────── the response headline ─────────────────────────

pub open spec fn opt_str(o: Option<&str>) -> Option<Seq<char>> {
    match o {
        Some(s) => Some(s@),
        None => None,
    }
}

pub open spec fn opt_empty(o: Option<EmptyState>) -> Option<EmptyView> {
    match o {
        Some(e) => Some(e@),
        None => None,
    }
}

pub open spec fn matches_filter(kind: Seq<char>, filter: Option<Seq<char>>) -> bool {
    match filter {
        Some(k) => kind == k,
        None => true,
    }
}

/// The positions of the rows a kind filter keeps, in row order.
pub open spec fn matching_spec(kinds: Seq<Seq<char>>, filter: Option<Seq<char>>) -> Seq<int>
    decreases kinds.len(),
{
    if kinds.len() == 0 {
        Seq::<int>::empty()
    } else if matches_filter(kinds.last(), filter) {
        matching_spec(kinds.drop_last(), filter).push(kinds.len() - 1)
    } else {
        matching_spec(kinds.drop_last(), filter)
    }
}

proof fn lemma_matching_len(kinds: Seq<Seq<char>>, filter: Option<Seq<char>>)
    ensures
        matching_spec(kinds, filter).len() <= kinds.len(),
        filter is None ==> matching_spec(kinds, filter).len() == kinds.len(),
    decreases kinds.len(),
{
    if kinds.len() > 0 {
        lemma_matching_len(kinds.drop_last(), filter);
    }
}

/// Law: the rows a kind filter keeps are exactly those whose kind passes it,
/// each once and in row order; without a filter every row is kept.
pub proof fn lemma_matching_exact(kinds: Seq<Seq<char>>, filter: Option<Seq<char>>)
    ensures
        forall|j: int|
            0 <= j < matching_spec(kinds, filter).len() ==> 0 <= #[trigger] matching_spec(kinds, filter)[j]
                < kinds.len() && matches_filter(kinds[matching_spec(kinds, filter)[j]], filter),
        forall|i: int|
            0 <= i < kinds.len() && #[trigger] matches_filter(kinds[i], filter) ==> matching_spec(
                kinds,
                filter,
            ).contains(i),
        forall|j: int, k: int|
            0 <= j < k < matching_spec(kinds, filter).len() ==> #[trigger] matching_spec(kinds, filter)[j]
                < #[trigger] matching_spec(kinds, filter)[k],
        filter is None ==> matching_spec(kinds, filter).len() == kinds.len(),
    decreases kinds.len(),
{
    lemma_matching_len(kinds, filter);
    if kinds.len() > 0 {
        let t = kinds.drop_last();
        lemma_matching_exact(t, filter);
        let p = matching_spec(t, filter);
        let m = matching_spec(kinds, filter);
        assert forall|j: int| 0 <= j < p.len() implies p[j] < t.len() && matches_filter(kinds[p[j]], filter) by {
            assert(t[p[j]] == kinds[p[j]]);
        }
        assert forall|i: int| 0 <= i < kinds.len() && #[trigger] matches_filter(kinds[i], filter) implies m.contains(i) by {
            if i == kinds.len() - 1 {
                assert(m[p.len() as int] == i);
            } else {
                assert(t[i] == kinds[i]);
                assert(matches_filter(t[i], filter));
                let j = choose|j: int| 0 <= j < p.len() && p[j] == i;
                assert(m[j] == i);
            }
        }
    }
}

/// The first `limit` of `m`, or all of it without a limit.
pub open spec fn take_limit(m: Seq<int>, limit: Option<u64>) -> Seq<int> {
    match limit {
        Some(n) => if n < m.len() {
            m.subrange(0, n as int)
        } else {
            m
        },
        None => m,
    }
}

/// The `empty` explanation: for a snapshot with no inferences at all, the
/// language line; for a kind filter that matched nothing in a non-empty
/// snapshot, the benign filter note; otherwise none.
pub open spec fn response_empty_spec(
    langs: Seq<Seq<char>>,
    kinds: Seq<Seq<char>>,
    filter: Option<Seq<char>>,
) -> Option<EmptyView> {
    if matching_spec(kinds, filter).len() == 0 {
        if kinds.len() == 0 {
            Some(empty_state_spec(langs))
        } else {
            match filter {
                Some(k) => Some(filter_empty_spec(k, kinds.len())),
                None => None,
            }
        }
    } else {
        None
    }
}

/// Everything the `inferences list` response states besides the rendering of
/// each record: `selected` holds the positions of the rows it carries.
pub struct InferencesResponse {
    pub detectors: Vec<DetectorReport>,
    pub count: u64,
    pub returned: u64,
    pub truncated: bool,
    pub limit: Option<u64>,
    pub empty: Option<EmptyState>,
    pub selected: Vec<usize>,
}

/// Assembles the response over the kinds of all the snapshot's rows (in
/// row order) and its languages. The detector inventory is built from the
/// unfiltered rows; `count` is the true number of rows the kind filter keeps;
/// `limit` caps only the rows carried, and `returned` / `truncated` declare
/// that cap.
pub fn build_response(
    row_kinds: &Vec<String>,
    langs: &Vec<String>,
    kind_filter: Option<&str>,
    limit: Option<u64>,
) -> (r: InferencesResponse)
    ensures
        detectors_match(r.detectors@, strs(langs@), strs(row_kinds@)),
        r.count == matching_spec(strs(row_kinds@), opt_str(kind_filter)).len(),
        r.selected@.map_values(|i: usize| i as int) == take_limit(
            matching_spec(strs(row_kinds@), opt_str(kind_filter)),
            limit,
        ),
        r.returned == r.selected.len(),
        r.truncated == (r.returned < r.count),
        r.limit == limit,
        opt_empty(r.empty) == response_empty_spec(
            sort_distinct(strs(langs@)),
            strs(row_kinds@),
            opt_str(kind_filter),
        ),
{
    let detectors = build_detectors(langs, row_kinds);
    let ghost kv = strs(row_kinds@);
    let ghost f = opt_str(kind_filter);
    let mut matching: Vec<usize> = Vec::new();
    let mut i: usize = 0;
    while i < row_kinds.len()
        invariant
            i <= row_kinds.len(),
            kv == strs(row_kinds@),
            f == opt_str(kind_filter),
            matching@.map_values(|j: usize| j as int) == matching_spec(kv.subrange(0, i as int), f),
        decreases row_kinds.len() - i,
    {
        let ghost prev = matching@;
        proof {
            let s = kv.subrange(0, i + 1);
            assert(s.drop_last() =~= kv.subrange(0, i as int));
            assert(s.last() == row_kinds@[i as int]@);
        }
        let keep = match kind_filter {
            Some(k) => str_eq(row_kinds[i].as_str(), k),
            None => true,
        };
        if keep {
            matching.push(i);
            assert(matching@.map_values(|j: usize| j as int) =~= prev.map_values(
                |j: usize| j as int,
            ).push(i as int));
        }
        i = i + 1;
    }
    assert(kv.subrange(0, row_kinds.len() as int) == kv);
    proof {
        lemma_matching_len(kv, f);
        assert(matching@.map_values(|j: usize| j as int).len() == matching@.len());
    }
    let count = matching.len() as u64;
    let total = row_kinds.len() as u64;
    let take = match limit {
        Some(n) => if n < count {
            n as usize
        } else {
            matching.len()
        },
        None => matching.len(),
    };
    let mut selected: Vec<usize> = Vec::new();
    let mut k: usize = 0;
    while k < take
        invariant
            take <= matching.len(),
            k <= take,
            selected@ == matching@.subrange(0, k as int),
        decreases take - k,
    {
        selected.push(matching[k]);
        k = k + 1;
    }
    proof {
        assert(selected@.map_values(|j: usize| j as int) =~= take_limit(
            matching@.map_values(|j: usize| j as int),
            limit,
        ));
    }
    let returned = selected.len() as u64;
    let empty = if count == 0 {
        if total == 0 {
            Some(empty_state(langs))
        } else {
            match kind_filter {
                Some(k) => Some(filter_empty_state(k, total)),
                None => None,
            }
        }
    } else {
        None
    };
    InferencesResponse {
        detectors,
        count,
        returned,
        truncated: returned < count,
        limit,
        empty,
        selected,
    }
}

} // verus!
