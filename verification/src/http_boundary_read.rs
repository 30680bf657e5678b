//! Read-time HTTP boundary helpers: the degraded-read message, the project
//! surface projection onto the union's input shape (method / route split),
//! the module label of each file, and the per-direction counts.
//!
//! The storage reads and the metadata JSON parse are the application's.
use crate::http_surface_union::{HttpSurfaceFamily, HttpSurfaceInput};
use crate::text::{
    chars_of, first_at, is_ws, is_whitespace, owned, push_str, slice_chars, str_eq, string_of,
    strs, trim_chars, trim_ws,
};
use vstd::prelude::*;
use vstd::string::*;

verus! {

pub open spec fn read_degraded_spec(context: Seq<char>, err: Seq<char>) -> Seq<char> {
    "HTTP boundary "@ + context + " read failed (degraded): "@ + err
}

/// The reader-framed message of a failed boundary read: it names what was
/// read, says the answer is degraded, and carries the error.
pub fn read_degraded(context: &str, err: &str) -> (r: String)
    ensures
        r@ == read_degraded_spec(context@, err@),
{
    let mut m: Vec<char> = Vec::new();
    push_str(&mut m, "HTTP boundary ");
    push_str(&mut m, context);
    push_str(&mut m, " read failed (degraded): ");
    push_str(&mut m, err);
    string_of(&m)
}

pub open spec fn http_kind_direction_spec(kind: Seq<char>) -> Option<Seq<char>> {
    if kind == "http_provider"@ {
        Some("provider"@)
    } else if kind == "http_consumer"@ {
        Some("consumer"@)
    } else {
        None
    }
}

pub open spec fn opt_str(o: Option<&str>) -> Option<Seq<char>> {
    match o {
        Some(s) => Some(s@),
        None => None,
    }
}

/// The direction of a project surface kind; other kinds are not HTTP.
pub fn http_kind_direction(surface_kind: &str) -> (r: Option<&'static str>)
    ensures
        opt_str(r) == http_kind_direction_spec(surface_kind@),
{
    if str_eq(surface_kind, "http_provider") {
        Some("provider")
    } else if str_eq(surface_kind, "http_consumer") {
        Some("consumer")
    } else {
        None
    }
}

// ───────────────────────── method and route ─────────────────────────

/// The first whitespace position of `s`, if any.
pub open spec fn first_ws(s: Seq<char>) -> Option<int> {
    if exists|i: int| 0 <= i < s.len() && is_ws(s[i]) && forall|j: int| 0 <= j < i ==> !is_ws(#[trigger] s[j]) {
        Some(choose|i: int| 0 <= i < s.len() && is_ws(s[i]) && forall|j: int| 0 <= j < i ==> !is_ws(#[trigger] s[j]))
    } else {
        None
    }
}

/// A code point lowered in the ASCII range only.
pub open spec fn ascii_lower(c: char) -> u32 {
    if 'A' <= c && c <= 'Z' {
        (c as u32 + 32) as u32
    } else {
        c as u32
    }
}

/// Equality ignoring ASCII case.
pub open spec fn eq_ignore_ascii_case(a: Seq<char>, b: Seq<char>) -> bool {
    a.len() == b.len() && forall|i: int| 0 <= i < a.len() ==> ascii_lower(a[i]) == ascii_lower(b[i])
}

/// Splits a project surface display name `"METHOD /route"` into the method
/// and the route. The metadata method, when present, wins over the name's
/// first word; when it disagrees with that word, the whole name is the route.
pub open spec fn split_method_route_spec(display_name: Option<Seq<char>>, meta_method: Option<Seq<char>>) -> (Seq<char>, Option<Seq<char>>) {
    let name = trim_ws(
        match display_name {
            Some(d) => d,
            None => Seq::<char>::empty(),
        },
    );
    let first = match first_ws(name) {
        Some(i) => name.subrange(0, i),
        None => name,
    };
    let rest = match first_ws(name) {
        Some(i) => trim_ws(name.subrange(i + 1, name.len() as int)),
        None => Seq::<char>::empty(),
    };
    let method = match meta_method {
        Some(m) => m,
        None => if first.len() > 0 {
            first
        } else {
            "UNKNOWN"@
        },
    };
    let route = if meta_method is Some && !eq_ignore_ascii_case(first, method) {
        if name.len() == 0 {
            None
        } else {
            Some(name)
        }
    } else if rest.len() == 0 {
        None
    } else {
        Some(rest)
    };
    (method, route)
}

fn find_ws(s: &Vec<char>) -> (r: Option<usize>)
    ensures
        match r {
            Some(i) => i < s.len() && first_ws(s@) == Some(i as int),
            None => first_ws(s@) is None,
        },
{
    let mut i: usize = 0;
    while i < s.len()
        invariant
            i <= s.len(),
            forall|j: int| 0 <= j < i ==> !is_ws(#[trigger] s@[j]),
        decreases s.len() - i,
    {
        if is_whitespace(s[i]) {
            proof {
                let k = choose|k: int| 0 <= k < s@.len() && is_ws(s@[k]) && forall|j: int| 0 <= j < k ==> !is_ws(#[trigger] s@[j]);
                if k < i {
                } else if k > i {
                    assert(!is_ws(s@[i as int]));
                }
            }
            return Some(i);
        }
        i = i + 1;
    }
    None
}

fn lower_u32(c: char) -> (r: u32)
    ensures
        r == ascii_lower(c),
{
    if 'A' <= c && c <= 'Z' {
        (c as u32) + 32
    } else {
        c as u32
    }
}

fn eq_ignore_case_exec(a: &Vec<char>, b: &Vec<char>) -> (r: bool)
    ensures
        r == eq_ignore_ascii_case(a@, b@),
{
    if a.len() != b.len() {
        return false;
    }
    let mut i: usize = 0;
    while i < a.len()
        invariant
            a.len() == b.len(),
            i <= a.len(),
            forall|j: int| 0 <= j < i ==> ascii_lower(a@[j]) == ascii_lower(b@[j]),
        decreases a.len() - i,
    {
        if lower_u32(a[i]) != lower_u32(b[i]) {
            return false;
        }
        i = i + 1;
    }
    true
}

/// Splits a project surface's display name into (method, route).
pub fn split_method_route(display_name: Option<&str>, meta_method: Option<&str>) -> (r: (String, Option<String>))
    ensures
        r.0@ == split_method_route_spec(opt_str(display_name), opt_str(meta_method)).0,
        crate::http_surface_union::opt_chars(r.1) == split_method_route_spec(opt_str(display_name), opt_str(meta_method)).1,
{
    let raw = match display_name {
        Some(d) => chars_of(d),
        None => Vec::new(),
    };
    let name = trim_chars(&raw);
    let ws = find_ws(&name);
    let first = match ws {
        Some(i) => slice_chars(&name, 0, i),
        None => slice_chars(&name, 0, name.len()),
    };
    let rest = match ws {
        Some(i) => trim_chars(&slice_chars(&name, i + 1, name.len())),
        None => Vec::new(),
    };
    proof {
        assert(name@.subrange(0, name.len() as int) == name@);
        if ws is None {
            assert(rest@ =~= Seq::<char>::empty());
        }
    }
    let method: Vec<char> = match meta_method {
        Some(m) => chars_of(m),
        None => if first.len() > 0 {
            slice_chars(&first, 0, first.len())
        } else {
            chars_of("UNKNOWN")
        },
    };
    proof {
        assert(first@.subrange(0, first.len() as int) == first@);
    }
    let route = if meta_method.is_some() && !eq_ignore_case_exec(&first, &method) {
        if name.len() == 0 {
            None
        } else {
            Some(string_of(&name))
        }
    } else if rest.len() == 0 {
        None
    } else {
        Some(string_of(&rest))
    };
    (string_of(&method), route)
}

pub open spec fn opt_string(o: Option<String>) -> Option<Seq<char>> {
    match o {
        Some(s) => Some(s@),
        None => None,
    }
}

/// Projects one project surface onto the union's input shape: only HTTP
/// surface kinds project; the method and route come from the display name
/// and the metadata method; the source file is the entrypoint, else the
/// root path; no line is stored for this family.
pub fn project_surface_to_input(
    surface_kind: &str,
    display_name: Option<&str>,
    meta_method: Option<&str>,
    framework: Option<String>,
    entrypoint_path: Option<String>,
    root_path: String,
    is_test: Option<bool>,
) -> (r: Option<HttpSurfaceInput>)
    ensures
        match http_kind_direction_spec(surface_kind@) {
            None => r is None,
            Some(d) => match r {
                Some(x) => {
                    &&& x.direction@ == d
                    &&& x.http_method@ == split_method_route_spec(opt_str(display_name), opt_str(meta_method)).0
                    &&& opt_string(x.route) == split_method_route_spec(opt_str(display_name), opt_str(meta_method)).1
                    &&& x.source_file@ == match opt_string(entrypoint_path) {
                        Some(e) => e,
                        None => root_path@,
                    }
                    &&& x.line is None
                    &&& x.is_test == is_test
                    &&& opt_string(x.framework) == opt_string(framework)
                    &&& x.route_unknown_reason is None
                    &&& x.family == HttpSurfaceFamily::Project
                },
                None => false,
            },
        },
{
    let direction = match http_kind_direction(surface_kind) {
        Some(d) => d,
        None => return None,
    };
    let (method, route) = split_method_route(display_name, meta_method);
    let source_file = match entrypoint_path {
        Some(e) => e,
        None => root_path,
    };
    Some(HttpSurfaceInput {
        direction: owned(direction),
        http_method: method,
        route,
        source_file,
        line: None,
        is_test,
        framework,
        route_unknown_reason: None,
        family: HttpSurfaceFamily::Project,
    })
}

// ───────────────────────── module labels ─────────────────────────

/// The value of the last entry keyed `k` (a map built from the entries in
/// order keeps the last).
pub open spec fn last_value(pairs: Seq<(Seq<char>, Seq<char>)>, k: Seq<char>) -> Option<Seq<char>>
    decreases pairs.len(),
{
    if pairs.len() == 0 {
        None
    } else if pairs.last().0 == k {
        Some(pairs.last().1)
    } else {
        last_value(pairs.drop_last(), k)
    }
}

pub open spec fn pairs_view(p: Seq<(String, String)>) -> Seq<(Seq<char>, Seq<char>)> {
    p.map_values(|x: (String, String)| (x.0@, x.1@))
}

/// A module candidate's label: its display name, else its canonical root path.
pub open spec fn module_label(display: Option<Seq<char>>, root: Seq<char>) -> Seq<char> {
    match display {
        Some(d) => d,
        None => root,
    }
}

pub open spec fn labels_view(m: Seq<(String, Option<String>, String)>) -> Seq<(Seq<char>, Seq<char>)> {
    m.map_values(|x: (String, Option<String>, String)| (x.0@, module_label(opt_string(x.1), x.2@)))
}

/// The (path, module label) entries of the ownership rows whose file and
/// module both resolve, in ownership order (a map built from them keeps the
/// last entry per path).
pub open spec fn module_entries(
    ownership: Seq<(Seq<char>, Seq<char>)>,
    labels: Seq<(Seq<char>, Seq<char>)>,
    paths: Seq<(Seq<char>, Seq<char>)>,
) -> Seq<(Seq<char>, Seq<char>)>
    decreases ownership.len(),
{
    if ownership.len() == 0 {
        Seq::empty()
    } else {
        let rest = module_entries(ownership.drop_last(), labels, paths);
        let o = ownership.last();
        match (last_value(paths, o.0), last_value(labels, o.1)) {
            (Some(p), Some(l)) => rest.push((p, l)),
            _ => rest,
        }
    }
}

fn last_value_exec(pairs: &Vec<(String, String)>, k: &str) -> (r: Option<String>)
    ensures
        opt_string(r) == last_value(pairs_view(pairs@), k@),
{
    let ghost pv = pairs_view(pairs@);
    let mut i: usize = pairs.len();
    assert(pv.subrange(0, pv.len() as int) == pv);
    while i > 0
        invariant
            i <= pairs.len(),
            pv == pairs_view(pairs@),
            last_value(pv, k@) == last_value(pv.subrange(0, i as int), k@),
        decreases i,
    {
        let ghost pre = pv.subrange(0, i as int);
        assert(pre.last() == (pairs@[i - 1].0@, pairs@[i - 1].1@));
        if str_eq(pairs[i - 1].0.as_str(), k) {
            return Some(owned(pairs[i - 1].1.as_str()));
        }
        assert(pre.drop_last() =~= pv.subrange(0, i - 1));
        i = i - 1;
    }
    None
}

/// The module label of each owned file: `ownership` is (file uid, module
/// uid), `modules` is (module uid, display name, canonical root path),
/// `files` is (file uid, path).
pub fn module_by_file(
    ownership: &Vec<(String, String)>,
    modules: &Vec<(String, Option<String>, String)>,
    files: &Vec<(String, String)>,
) -> (r: Vec<(String, String)>)
    ensures
        pairs_view(r@) == module_entries(pairs_view(ownership@), labels_view(modules@), pairs_view(files@)),
{
    let mut labels: Vec<(String, String)> = Vec::new();
    let mut k: usize = 0;
    while k < modules.len()
        invariant
            k <= modules.len(),
            pairs_view(labels@) == labels_view(modules@).subrange(0, k as int),
        decreases modules.len() - k,
    {
        let label = match &modules[k].1 {
            Some(d) => owned(d.as_str()),
            None => owned(modules[k].2.as_str()),
        };
        let ghost prev = labels@;
        labels.push((owned(modules[k].0.as_str()), label));
        proof {
            assert(pairs_view(labels@) =~= pairs_view(prev).push((modules@[k as int].0@, label@)));
            assert(labels_view(modules@).subrange(0, k + 1) =~= labels_view(modules@).subrange(0, k as int).push(labels_view(modules@)[k as int]));
        }
        k = k + 1;
    }
    assert(labels_view(modules@).subrange(0, modules.len() as int) == labels_view(modules@));
    let ghost ov = pairs_view(ownership@);
    let mut out: Vec<(String, String)> = Vec::new();
    let mut i: usize = 0;
    while i < ownership.len()
        invariant
            i <= ownership.len(),
            ov == pairs_view(ownership@),
            pairs_view(labels@) == labels_view(modules@),
            pairs_view(out@) == module_entries(ov.subrange(0, i as int), labels_view(modules@), pairs_view(files@)),
        decreases ownership.len() - i,
    {
        proof {
            let t = ov.subrange(0, i + 1);
            assert(t.drop_last() =~= ov.subrange(0, i as int));
            assert(t.last() == (ownership@[i as int].0@, ownership@[i as int].1@));
        }
        let path = last_value_exec(files, ownership[i].0.as_str());
        let label = last_value_exec(&labels, ownership[i].1.as_str());
        match (path, label) {
            (Some(p), Some(l)) => {
                let ghost prev = out@;
                let ghost e = (p@, l@);
                out.push((p, l));
                assert(pairs_view(out@) =~= pairs_view(prev).push(e));
            },
            _ => {},
        }
        i = i + 1;
    }
    assert(ov.subrange(0, ownership.len() as int) == ov);
    out
}

// ───────────────────────── counts and display ─────────────────────────

pub open spec fn count_eq(s: Seq<Seq<char>>, x: Seq<char>) -> nat
    decreases s.len(),
{
    if s.len() == 0 {
        0
    } else {
        count_eq(s.drop_last(), x) + if s.last() == x {
            1nat
        } else {
            0nat
        }
    }
}

/// The number of provider and consumer surfaces among the directions.
pub fn direction_counts(directions: &Vec<String>) -> (r: (usize, usize))
    ensures
        r.0 == count_eq(strs(directions@), "provider"@),
        r.1 == count_eq(strs(directions@), "consumer"@),
{
    let mut p: usize = 0;
    let mut c: usize = 0;
    let mut i: usize = 0;
    while i < directions.len()
        invariant
            i <= directions.len(),
            p + c <= i,
            p == count_eq(strs(directions@).subrange(0, i as int), "provider"@),
            c == count_eq(strs(directions@).subrange(0, i as int), "consumer"@),
        decreases directions.len() - i,
    {
        proof {
            let t = strs(directions@).subrange(0, i + 1);
            assert(t.drop_last() =~= strs(directions@).subrange(0, i as int));
            assert(t.last() == directions@[i as int]@);
        }
        if str_eq(directions[i].as_str(), "provider") {
            p = p + 1;
        } else if str_eq(directions[i].as_str(), "consumer") {
            c = c + 1;
        }
        proof {
            reveal_strlit("provider");
            reveal_strlit("consumer");
            assert("provider"@[0] != "consumer"@[0]);
            assert("provider"@ != "consumer"@);
        }
        i = i + 1;
    }
    assert(strs(directions@).subrange(0, directions.len() as int) == strs(directions@));
    (p, c)
}

/// The display of a boundary surface: `{method} {route}`, the route
/// `<dynamic>` when none was read.
pub fn surface_display(http_method: &str, route: Option<&str>) -> (r: String)
    ensures
        r@ == http_method@ + " "@ + match opt_str(route) {
            Some(x) => x,
            None => "<dynamic>"@,
        },
{
    let mut m: Vec<char> = Vec::new();
    push_str(&mut m, http_method);
    push_str(&mut m, " ");
    match route {
        Some(x) => push_str(&mut m, x),
        None => push_str(&mut m, "<dynamic>"),
    }
    string_of(&m)
}

} // verus!
