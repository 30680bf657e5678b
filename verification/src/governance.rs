//! Governance and policy decisions: the declared boundary rules checked for
//! violations (one per boundary / forbidden pair, in pair order) and the
//! policy-kind selection of the `policy` command.
use crate::http_surface_union::{str_to_uppercase, to_uppercase};
use crate::text::{ascii_upper, chars_eq, chars_lt, chars_of, is_ascii_chars, owned, push_str, seq_lt, str_eq, string_of};
use vstd::prelude::*;
use vstd::string::*;

verus! {

// ───────────────────────── boundary rules ─────────────────────────

/// A declared boundary rule: the boundary module, the module it forbids,
/// and the reason.
pub struct BoundaryRule {
    pub boundary_module: String,
    pub forbids: String,
    pub reason: Option<String>,
}

pub struct RuleView {
    pub boundary_module: Seq<char>,
    pub forbids: Seq<char>,
    pub reason: Option<Seq<char>>,
}

pub open spec fn opt_chars(o: Option<String>) -> Option<Seq<char>> {
    match o {
        Some(s) => Some(s@),
        None => None,
    }
}

impl View for BoundaryRule {
    type V = RuleView;

    open spec fn view(&self) -> RuleView {
        RuleView { boundary_module: self.boundary_module@, forbids: self.forbids@, reason: opt_chars(self.reason) }
    }
}

pub open spec fn rules_view(s: Seq<BoundaryRule>) -> Seq<RuleView> {
    s.map_values(|r: BoundaryRule| r@)
}

/// The (boundary, forbidden) pair order: by boundary, then by forbidden module.
pub open spec fn pair_lt(a: RuleView, b: RuleView) -> bool {
    seq_lt(a.boundary_module, b.boundary_module) || (a.boundary_module == b.boundary_module && seq_lt(a.forbids, b.forbids))
}

pub open spec fn same_pair(a: RuleView, b: RuleView) -> bool {
    a.boundary_module == b.boundary_module && a.forbids == b.forbids
}

/// Insert `x` into the pair-ordered `s` unless its pair is already there
/// (the rule already present is kept).
pub open spec fn ins_rule(s: Seq<RuleView>, x: RuleView) -> Seq<RuleView>
    decreases s.len(),
{
    if s.len() == 0 {
        seq![x]
    } else if same_pair(x, s.last()) {
        s
    } else if pair_lt(s.last(), x) {
        s.push(x)
    } else {
        ins_rule(s.drop_last(), x).push(s.last())
    }
}

/// The rules checked for violations: one per (boundary, forbidden) pair,
/// the first declaration's reason, in pair order.
pub open spec fn rules_spec(decls: Seq<RuleView>) -> Seq<RuleView>
    decreases decls.len(),
{
    if decls.len() == 0 {
        Seq::<RuleView>::empty()
    } else {
        ins_rule(rules_spec(decls.drop_last()), decls.last())
    }
}

proof fn lemma_ins_rule_walk(s: Seq<RuleView>, x: RuleView, j: int)
    requires
        0 <= j <= s.len(),
        forall|k: int| j <= k < s.len() ==> pair_lt(x, #[trigger] s[k]),
    ensures
        ins_rule(s, x) == ins_rule(s.subrange(0, j), x) + s.subrange(j, s.len() as int),
    decreases s.len() - j,
{
    if j == s.len() {
        assert(s.subrange(0, j) == s);
        assert(s.subrange(j, s.len() as int) =~= Seq::<RuleView>::empty());
    } else {
        let t = s.drop_last();
        let l = s.last();
        assert(pair_lt(x, s[s.len() - 1]));
        crate::text::lemma_seq_lt_irreflexive(x.boundary_module);
        crate::text::lemma_seq_lt_irreflexive(x.forbids);
        crate::text::lemma_seq_lt_asym(x.boundary_module, l.boundary_module);
        crate::text::lemma_seq_lt_asym(x.forbids, l.forbids);
        assert(!same_pair(x, l));
        assert(!pair_lt(l, x));
        assert forall|k: int| j <= k < t.len() implies pair_lt(x, #[trigger] t[k]) by {
            assert(t[k] == s[k]);
        }
        lemma_ins_rule_walk(t, x, j);
        assert(t.subrange(0, j) == s.subrange(0, j));
        assert(s.subrange(j, s.len() as int) == t.subrange(j, t.len() as int).push(s.last()));
    }
}

/// Rules in strictly increasing pair order (so no pair occurs twice).
pub open spec fn pair_ordered(s: Seq<RuleView>) -> bool {
    forall|i: int, j: int| 0 <= i < j < s.len() ==> pair_lt(#[trigger] s[i], #[trigger] s[j])
}

proof fn lemma_pair_lt_order(a: RuleView, b: RuleView, c: RuleView)
    ensures
        !(pair_lt(a, b) && pair_lt(b, a)),
        !pair_lt(a, a),
        pair_lt(a, b) && pair_lt(b, c) ==> pair_lt(a, c),
        same_pair(a, b) || pair_lt(a, b) || pair_lt(b, a),
        same_pair(a, b) ==> !pair_lt(a, b),
{
    crate::text::lemma_seq_lt_irreflexive(a.boundary_module);
    crate::text::lemma_seq_lt_irreflexive(a.forbids);
    crate::text::lemma_seq_lt_asym(a.boundary_module, b.boundary_module);
    crate::text::lemma_seq_lt_asym(a.forbids, b.forbids);
    crate::text::lemma_seq_lt_total(a.boundary_module, b.boundary_module);
    crate::text::lemma_seq_lt_total(a.forbids, b.forbids);
    if seq_lt(a.boundary_module, b.boundary_module) && seq_lt(b.boundary_module, c.boundary_module) {
        crate::text::lemma_seq_lt_trans(a.boundary_module, b.boundary_module, c.boundary_module);
    }
    if seq_lt(a.forbids, b.forbids) && seq_lt(b.forbids, c.forbids) {
        crate::text::lemma_seq_lt_trans(a.forbids, b.forbids, c.forbids);
    }
}

proof fn lemma_ins_rule(s: Seq<RuleView>, x: RuleView)
    requires
        pair_ordered(s),
    ensures
        pair_ordered(ins_rule(s, x)),
        forall|y: RuleView| #[trigger] ins_rule(s, x).contains(y) ==> s.contains(y) || y == x,
        forall|y: RuleView| #[trigger] s.contains(y) ==> ins_rule(s, x).contains(y),
        exists|k: int| 0 <= k < ins_rule(s, x).len() && same_pair(#[trigger] ins_rule(s, x)[k], x),
    decreases s.len(),
{
    let r = ins_rule(s, x);
    if s.len() == 0 {
        assert(r[0] == x);
        assert forall|y: RuleView| #[trigger] r.contains(y) implies s.contains(y) || y == x by {
            let k = choose|k: int| 0 <= k < r.len() && r[k] == y;
        }
    } else if same_pair(x, s.last()) {
        assert(r[s.len() - 1] == s.last());
    } else if pair_lt(s.last(), x) {
        assert forall|i: int, j: int| 0 <= i < j < r.len() implies pair_lt(#[trigger] r[i], #[trigger] r[j]) by {
            if j == s.len() {
                if i < s.len() - 1 {
                    assert(pair_lt(s[i], s[s.len() - 1]));
                    lemma_pair_lt_order(s[i], s.last(), x);
                }
            } else {
                assert(r[i] == s[i] && r[j] == s[j]);
            }
        }
        assert(r[s.len() as int] == x);
        assert forall|y: RuleView| #[trigger] r.contains(y) implies s.contains(y) || y == x by {
            let k = choose|k: int| 0 <= k < r.len() && r[k] == y;
            if k < s.len() {
                assert(s[k] == y);
            }
        }
        assert forall|y: RuleView| #[trigger] s.contains(y) implies r.contains(y) by {
            let k = choose|k: int| 0 <= k < s.len() && s[k] == y;
            assert(r[k] == y);
        }
    } else {
        let t = s.drop_last();
        let l = s.last();
        lemma_pair_lt_order(x, l, x);
        assert(pair_lt(x, l));
        assert forall|i: int, j: int| 0 <= i < j < t.len() implies pair_lt(#[trigger] t[i], #[trigger] t[j]) by {
            assert(t[i] == s[i] && t[j] == s[j]);
        }
        lemma_ins_rule(t, x);
        let q = ins_rule(t, x);
        assert(r == q.push(l));
        assert forall|i: int, j: int| 0 <= i < j < r.len() implies pair_lt(#[trigger] r[i], #[trigger] r[j]) by {
            if j == q.len() {
                let y = q[i];
                assert(r[i] == y);
                assert(q.contains(y));
                if y != x {
                    assert(t.contains(y));
                    let k = choose|k: int| 0 <= k < t.len() && t[k] == y;
                    assert(s[k] == y);
                    assert(pair_lt(s[k], s[s.len() - 1]));
                }
            } else {
                assert(r[i] == q[i] && r[j] == q[j]);
            }
        }
        assert forall|y: RuleView| #[trigger] r.contains(y) implies s.contains(y) || y == x by {
            let k = choose|k: int| 0 <= k < r.len() && r[k] == y;
            if k < q.len() {
                assert(q[k] == y);
                assert(q.contains(y));
                if y != x {
                    assert(t.contains(y));
                    let m = choose|m: int| 0 <= m < t.len() && t[m] == y;
                    assert(s[m] == y);
                }
            } else {
                assert(s[s.len() - 1] == y);
            }
        }
        assert forall|y: RuleView| #[trigger] s.contains(y) implies r.contains(y) by {
            let k = choose|k: int| 0 <= k < s.len() && s[k] == y;
            if k == s.len() - 1 {
                assert(r[q.len() as int] == y);
            } else {
                assert(t[k] == y);
                assert(t.contains(y));
                assert(q.contains(y));
                let m = choose|m: int| 0 <= m < q.len() && q[m] == y;
                assert(r[m] == y);
            }
        }
        let k = choose|k: int| 0 <= k < q.len() && same_pair(#[trigger] q[k], x);
        assert(r[k] == q[k]);
    }
}

/// Law: the rules checked come in strictly increasing (boundary, forbidden)
/// order, so each pair is checked once; every rule checked is one of the
/// declarations; and every declared pair is checked.
pub proof fn lemma_boundary_rules(decls: Seq<RuleView>)
    ensures
        pair_ordered(rules_spec(decls)),
        forall|y: RuleView| #[trigger] rules_spec(decls).contains(y) ==> decls.contains(y),
        forall|d: int|
            #![trigger decls[d]]
            0 <= d < decls.len() ==> exists|k: int|
                0 <= k < rules_spec(decls).len() && same_pair(#[trigger] rules_spec(decls)[k], decls[d]),
    decreases decls.len(),
{
    if decls.len() > 0 {
        let t = decls.drop_last();
        let x = decls.last();
        lemma_boundary_rules(t);
        let p = rules_spec(t);
        lemma_ins_rule(p, x);
        let r = rules_spec(decls);
        assert forall|y: RuleView| #[trigger] r.contains(y) implies decls.contains(y) by {
            if p.contains(y) {
                assert(t.contains(y));
                let m = choose|m: int| 0 <= m < t.len() && t[m] == y;
                assert(decls[m] == y);
            } else {
                assert(decls[decls.len() - 1] == y);
            }
        }
        assert forall|d: int| #![trigger decls[d]] 0 <= d < decls.len() implies exists|k: int|
            0 <= k < r.len() && same_pair(#[trigger] r[k], decls[d]) by {
            if d < decls.len() - 1 {
                assert(t[d] == decls[d]);
                let k = choose|k: int| 0 <= k < p.len() && same_pair(#[trigger] p[k], t[d]);
                assert(p.contains(p[k]));
                assert(r.contains(p[k]));
                let m = choose|m: int| 0 <= m < r.len() && r[m] == p[k];
                assert(same_pair(r[m], decls[d]));
            }
        }
    }
}

fn pair_lt_exec(a: &(Vec<char>, Vec<char>), b: &(Vec<char>, Vec<char>)) -> (r: bool)
    ensures
        r == (seq_lt(a.0@, b.0@) || (a.0@ == b.0@ && seq_lt(a.1@, b.1@))),
{
    chars_lt(&a.0, &b.0) || (chars_eq(&a.0, &b.0) && chars_lt(&a.1, &b.1))
}

pub open spec fn key_view(k: (Vec<char>, Vec<char>), reason: Option<String>) -> RuleView {
    RuleView { boundary_module: k.0@, forbids: k.1@, reason: opt_chars(reason) }
}

/// The boundary rules to check: duplicates of a (boundary, forbidden) pair
/// collapse to the first declaration, and the rules come in pair order.
pub fn boundary_rules(decls: &Vec<BoundaryRule>) -> (r: Vec<BoundaryRule>)
    ensures
        rules_view(r@) == rules_spec(rules_view(decls@)),
{
    let mut keys: Vec<(Vec<char>, Vec<char>)> = Vec::new();
    let mut reasons: Vec<Option<String>> = Vec::new();
    let mut i: usize = 0;
    while i < decls.len()
        invariant
            i <= decls.len(),
            keys.len() == reasons.len(),
            Seq::new(keys.len() as nat, |k: int| key_view(keys@[k], reasons@[k])) == rules_spec(rules_view(decls@).subrange(0, i as int)),
        decreases decls.len() - i,
    {
        let ghost sv = Seq::new(keys.len() as nat, |k: int| key_view(keys@[k], reasons@[k]));
        let ghost x = decls@[i as int]@;
        proof {
            let t = rules_view(decls@).subrange(0, i + 1);
            assert(t.drop_last() =~= rules_view(decls@).subrange(0, i as int));
            assert(t.last() == x);
        }
        let key = (chars_of(decls[i].boundary_module.as_str()), chars_of(decls[i].forbids.as_str()));
        let mut j: usize = keys.len();
        while j > 0 && pair_lt_exec(&key, &keys[j - 1])
            invariant
                j <= keys.len(),
                keys.len() == reasons.len(),
                sv == Seq::new(keys.len() as nat, |k: int| key_view(keys@[k], reasons@[k])),
                key.0@ == x.boundary_module,
                key.1@ == x.forbids,
                forall|k: int| j <= k < sv.len() ==> pair_lt(x, #[trigger] sv[k]),
            decreases j,
        {
            assert(sv[j - 1] == key_view(keys@[j - 1], reasons@[j - 1]));
            j = j - 1;
        }
        proof {
            lemma_ins_rule_walk(sv, x, j as int);
        }
        let dup = j > 0 && chars_eq(&keys[j - 1].0, &key.0) && chars_eq(&keys[j - 1].1, &key.1);
        if dup {
            proof {
                assert(sv[j - 1] == key_view(keys@[j - 1], reasons@[j - 1]));
                assert(sv.subrange(0, j as int).last() == sv[j - 1]);
                assert(same_pair(x, sv.subrange(0, j as int).last()));
                assert(sv.subrange(0, j as int) + sv.subrange(j as int, sv.len() as int) =~= sv);
            }
        } else {
            proof {
                if j > 0 {
                    assert(sv[j - 1] == key_view(keys@[j - 1], reasons@[j - 1]));
                    let l = sv[j - 1];
                    assert(!pair_lt(x, l));
                    crate::text::lemma_seq_lt_total(x.boundary_module, l.boundary_module);
                    crate::text::lemma_seq_lt_total(x.forbids, l.forbids);
                    assert(pair_lt(l, x));
                    assert(sv.subrange(0, j as int).last() == l);
                } else {
                    assert(sv.subrange(0, 0) =~= Seq::<RuleView>::empty());
                }
            }
            let reason = match &decls[i].reason {
                Some(r) => Some(owned(r.as_str())),
                None => None,
            };
            let ghost kv = keys@;
            let ghost rv = reasons@;
            keys.insert(j, key);
            reasons.insert(j, reason);
            proof {
                let nv = Seq::new(keys.len() as nat, |k: int| key_view(keys@[k], reasons@[k]));
                assert(nv =~= ins_rule(sv.subrange(0, j as int), x) + sv.subrange(j as int, sv.len() as int)) by {
                    assert forall|k: int| 0 <= k < nv.len() implies nv[k] == (ins_rule(sv.subrange(0, j as int), x) + sv.subrange(j as int, sv.len() as int))[k] by {
                        if k < j {
                            assert(keys@[k] == kv[k] && reasons@[k] == rv[k]);
                        } else if k == j {
                        } else {
                            assert(keys@[k] == kv[k - 1] && reasons@[k] == rv[k - 1]);
                        }
                    }
                }
            }
        }
        i = i + 1;
    }
    assert(rules_view(decls@).subrange(0, decls.len() as int) == rules_view(decls@));
    let mut out: Vec<BoundaryRule> = Vec::new();
    let mut k: usize = 0;
    while k < keys.len()
        invariant
            k <= keys.len(),
            keys.len() == reasons.len(),
            rules_view(out@) == Seq::new(keys.len() as nat, |m: int| key_view(keys@[m], reasons@[m])).subrange(0, k as int),
        decreases keys.len() - k,
    {
        let reason = match &reasons[k] {
            Some(r) => Some(owned(r.as_str())),
            None => None,
        };
        let rule = BoundaryRule { boundary_module: string_of(&keys[k].0), forbids: string_of(&keys[k].1), reason };
        let ghost prev = out@;
        out.push(rule);
        proof {
            assert(rules_view(out@) =~= rules_view(prev).push(key_view(keys@[k as int], reasons@[k as int])));
        }
        k = k + 1;
    }
    out
}

// ───────────────────────── policy kinds ─────────────────────────

/// The policy facts the `policy` command lists.
#[derive(Debug, Clone, Copy, PartialEq, Eq, Structural)]
pub enum PolicyKind {
    StatusMapping,
    BehavioralMarker,
    ReturnFate,
}

pub open spec fn policy_kind_text(param: Option<Seq<char>>) -> Seq<char> {
    match param {
        Some(p) => str_to_uppercase(p),
        None => "STATUS_MAPPING"@,
    }
}

pub open spec fn opt_str(o: Option<&str>) -> Option<Seq<char>> {
    match o {
        Some(s) => Some(s@),
        None => None,
    }
}

/// Selects the policy kind: the `kind` parameter uppercased, `STATUS_MAPPING`
/// by default; any other kind is refused naming the supported ones.
pub fn policy_kind(param: Option<&str>) -> (r: Result<PolicyKind, String>)
    ensures
        ({
            let k = policy_kind_text(opt_str(param));
            match r {
                Ok(PolicyKind::StatusMapping) => k == "STATUS_MAPPING"@,
                Ok(PolicyKind::BehavioralMarker) => k == "BEHAVIORAL_MARKER"@,
                Ok(PolicyKind::ReturnFate) => k == "RETURN_FATE"@,
                Err(msg) => k != "STATUS_MAPPING"@ && k != "BEHAVIORAL_MARKER"@ && k != "RETURN_FATE"@
                    && msg@ == "unsupported policy kind: "@ + k
                    + " (supported: STATUS_MAPPING, BEHAVIORAL_MARKER, RETURN_FATE)"@,
            }
        }),
        match param {
            Some(p) => is_ascii_chars(p@) ==> policy_kind_text(opt_str(param)) == ascii_upper(p@),
            None => true,
        },
{
    let kind = match param {
        Some(p) => to_uppercase(p),
        None => owned("STATUS_MAPPING"),
    };
    if str_eq(kind.as_str(), "STATUS_MAPPING") {
        Ok(PolicyKind::StatusMapping)
    } else if str_eq(kind.as_str(), "BEHAVIORAL_MARKER") {
        Ok(PolicyKind::BehavioralMarker)
    } else if str_eq(kind.as_str(), "RETURN_FATE") {
        Ok(PolicyKind::ReturnFate)
    } else {
        let mut m: Vec<char> = Vec::new();
        push_str(&mut m, "unsupported policy kind: ");
        push_str(&mut m, kind.as_str());
        push_str(&mut m, " (supported: STATUS_MAPPING, BEHAVIORAL_MARKER, RETURN_FATE)");
        Err(string_of(&m))
    }
}

/// The refusal of an unknown fate kind.
pub fn invalid_fate_message(given: &str) -> (r: String)
    ensures
        r@ == "invalid fate kind: "@ + given@ + " (supported: IGNORED, CHECKED, PROPAGATED, TRANSFORMED, STORED)"@,
{
    let mut m: Vec<char> = Vec::new();
    push_str(&mut m, "invalid fate kind: ");
    push_str(&mut m, given);
    push_str(&mut m, " (supported: IGNORED, CHECKED, PROPAGATED, TRANSFORMED, STORED)");
    string_of(&m)
}

/// The refusal of a latest snapshot that is not ready.
pub fn snapshot_not_ready(status: &str) -> (r: String)
    ensures
        r@ == "latest snapshot is not ready (status: "@ + status@ + ")"@,
{
    let mut m: Vec<char> = Vec::new();
    push_str(&mut m, "latest snapshot is not ready (status: ");
    push_str(&mut m, status);
    push_str(&mut m, ")");
    string_of(&m)
}

} // verus!
