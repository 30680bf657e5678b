//! Sorted, duplicate-free sequences of strings: the shape of a `BTreeSet` of
//! strings, kept in a `Vec` and ordered by code point.
use crate::text::{
    chars_eq, chars_lt, chars_of, lemma_seq_lt_asym, lemma_seq_lt_irreflexive, lemma_seq_lt_total,
    lemma_seq_lt_trans, seq_lt, string_of, strs,
};
use vstd::prelude::*;
use vstd::string::*;

verus! {


/// Insert `x` into the strictly sorted `s` unless already present.
pub open spec fn ins_distinct(s: Seq<Seq<char>>, x: Seq<char>) -> Seq<Seq<char>>
    decreases s.len(),
{
    if s.len() == 0 {
        seq![x]
    } else if x == s.last() {
        s
    } else if seq_lt(s.last(), x) {
        s.push(x)
    } else {
        ins_distinct(s.drop_last(), x).push(s.last())
    }
}

/// `sort` + `dedup` of a sequence of strings.
pub open spec fn sort_distinct(s: Seq<Seq<char>>) -> Seq<Seq<char>>
    decreases s.len(),
{
    if s.len() == 0 {
        Seq::<Seq<char>>::empty()
    } else {
        ins_distinct(sort_distinct(s.drop_last()), s.last())
    }
}

pub proof fn lemma_ins_distinct_walk(s: Seq<Seq<char>>, x: Seq<char>, j: int)
    requires
        0 <= j <= s.len(),
        forall|k: int| j <= k < s.len() ==> seq_lt(x, #[trigger] s[k]),
    ensures
        ins_distinct(s, x) == ins_distinct(s.subrange(0, j), x) + s.subrange(j, s.len() as int),
    decreases s.len() - j,
{
    if j == s.len() {
        assert(s.subrange(0, j) == s);
        assert(s.subrange(j, s.len() as int) =~= Seq::<Seq<char>>::empty());
    } else {
        let t = s.drop_last();
        lemma_seq_lt_irreflexive(x);
        lemma_seq_lt_asym(x, s.last());
        assert(seq_lt(x, s[s.len() - 1]));
        assert forall|k: int| j <= k < t.len() implies seq_lt(x, #[trigger] t[k]) by {
            assert(t[k] == s[k]);
        }
        lemma_ins_distinct_walk(t, x, j);
        assert(t.subrange(0, j) == s.subrange(0, j));
        assert(s.subrange(j, s.len() as int) == t.subrange(j, t.len() as int).push(s.last()));
    }
}

pub open spec fn chars_views(v: Seq<Vec<char>>) -> Seq<Seq<char>> {
    v.map_values(|p: Vec<char>| p@)
}

pub fn insert_distinct(v: &mut Vec<Vec<char>>, x: Vec<char>)
    ensures
        chars_views(final(v)@) == ins_distinct(chars_views(old(v)@), x@),
{
    let ghost s = chars_views(v@);
    let mut j: usize = v.len();
    while j > 0 && chars_lt(&x, &v[j - 1])
        invariant
            j <= v.len(),
            s == chars_views(v@),
            forall|k: int| j <= k < s.len() ==> seq_lt(x@, #[trigger] s[k]),
        decreases j,
    {
        j = j - 1;
    }
    proof {
        lemma_ins_distinct_walk(s, x@, j as int);
    }
    if j > 0 && chars_eq(&v[j - 1], &x) {
        proof {
            assert(s.subrange(0, j as int).last() == x@);
            assert(s.subrange(0, j as int) + s.subrange(j as int, s.len() as int) == s);
        }
        return;
    }
    proof {
        if j > 0 {
            lemma_seq_lt_total(s[j - 1], x@);
            assert(s.subrange(0, j as int).last() == s[j - 1]);
        } else {
            assert(s.subrange(0, 0) =~= Seq::<Seq<char>>::empty());
        }
    }
    v.insert(j, x);
    proof {
        assert(chars_views(v@) =~= ins_distinct(s.subrange(0, j as int), x@) + s.subrange(j as int, s.len() as int));
    }
}


pub fn strings_to_chars(s: &Vec<String>) -> (r: Vec<Vec<char>>)
    ensures
        chars_views(r@) == s@.map_values(|x: String| x@),
{
    let mut r: Vec<Vec<char>> = Vec::new();
    let mut i: usize = 0;
    while i < s.len()
        invariant
            i <= s.len(),
            chars_views(r@) == s@.subrange(0, i as int).map_values(|x: String| x@),
        decreases s.len() - i,
    {
        let c = chars_of(s[i].as_str());
        let ghost prev = r@;
        r.push(c);
        proof {
            assert(c@ == s@[i as int]@);
            assert(r@ == prev.push(c));
            assert(s@.subrange(0, i + 1) == s@.subrange(0, i as int).push(s@[i as int]));
            assert(chars_views(r@) =~= chars_views(prev).push(c@));
            assert(s@.subrange(0, i + 1).map_values(|x: String| x@) =~= s@.subrange(0, i as int).map_values(|x: String| x@).push(s@[i as int]@));
        }
        i = i + 1;
    }
    assert(s@.subrange(0, s.len() as int) == s@);
    r
}


/// Strictly ascending: the shape of a set's iteration.
pub open spec fn strictly_sorted(s: Seq<Seq<char>>) -> bool {
    forall|i: int, j: int| 0 <= i < j < s.len() ==> seq_lt(#[trigger] s[i], #[trigger] s[j])
}

/// Inserting into a strictly sorted sequence keeps it strictly sorted and
/// adds exactly `x` to its elements.
pub proof fn lemma_ins_distinct(s: Seq<Seq<char>>, x: Seq<char>)
    requires
        strictly_sorted(s),
    ensures
        strictly_sorted(ins_distinct(s, x)),
        forall|y: Seq<char>| #[trigger] ins_distinct(s, x).contains(y) <==> (s.contains(y) || y == x),
    decreases s.len(),
{
    if s.len() == 0 {
        assert(ins_distinct(s, x) == seq![x]);
        assert forall|y: Seq<char>| #[trigger] ins_distinct(s, x).contains(y) <==> (s.contains(y) || y == x) by {
            if ins_distinct(s, x).contains(y) {
                assert(ins_distinct(s, x)[0] == y);
            }
            if y == x {
                assert(ins_distinct(s, x)[0] == y);
            }
        }
    } else if x == s.last() {
        assert(s.contains(x)) by {
            assert(s[s.len() - 1] == x);
        }
    } else if seq_lt(s.last(), x) {
        let r = s.push(x);
        assert forall|i: int, j: int| 0 <= i < j < r.len() implies seq_lt(#[trigger] r[i], #[trigger] r[j]) by {
            if j == s.len() {
                if i < s.len() - 1 {
                    assert(seq_lt(s[i], s[s.len() - 1]));
                    lemma_seq_lt_trans(s[i], s.last(), x);
                }
            } else {
                assert(r[i] == s[i] && r[j] == s[j]);
            }
        }
        assert forall|y: Seq<char>| #[trigger] r.contains(y) <==> (s.contains(y) || y == x) by {
            if r.contains(y) {
                let k = choose|k: int| 0 <= k < r.len() && r[k] == y;
                if k < s.len() {
                    assert(s[k] == y);
                }
            }
            if s.contains(y) {
                let k = choose|k: int| 0 <= k < s.len() && s[k] == y;
                assert(r[k] == y);
            }
            if y == x {
                assert(r[s.len() as int] == y);
            }
        }
    } else {
        let t = s.drop_last();
        assert forall|i: int, j: int| 0 <= i < j < t.len() implies seq_lt(#[trigger] t[i], #[trigger] t[j]) by {
            assert(t[i] == s[i] && t[j] == s[j]);
        }
        lemma_ins_distinct(t, x);
        let q = ins_distinct(t, x);
        let r = q.push(s.last());
        lemma_seq_lt_total(x, s.last());
        assert(seq_lt(x, s.last()));
        assert forall|i: int, j: int| 0 <= i < j < r.len() implies seq_lt(#[trigger] r[i], #[trigger] r[j]) by {
            if j == q.len() {
                let y = q[i];
                assert(r[i] == y);
                assert(q.contains(y));
                if y == x {
                } else {
                    assert(t.contains(y));
                    let k = choose|k: int| 0 <= k < t.len() && t[k] == y;
                    assert(s[k] == y);
                    assert(seq_lt(s[k], s[s.len() - 1]));
                }
            } else {
                assert(r[i] == q[i] && r[j] == q[j]);
            }
        }
        assert forall|y: Seq<char>| #[trigger] r.contains(y) <==> (s.contains(y) || y == x) by {
            if r.contains(y) {
                let k = choose|k: int| 0 <= k < r.len() && r[k] == y;
                if k < q.len() {
                    assert(q[k] == y);
                    assert(q.contains(y));
                    if t.contains(y) {
                        let m = choose|m: int| 0 <= m < t.len() && t[m] == y;
                        assert(s[m] == y);
                    }
                } else {
                    assert(s[s.len() - 1] == y);
                }
            }
            if s.contains(y) {
                let k = choose|k: int| 0 <= k < s.len() && s[k] == y;
                if k < s.len() - 1 {
                    assert(t[k] == y);
                    assert(t.contains(y));
                    assert(q.contains(y));
                    let m = choose|m: int| 0 <= m < q.len() && q[m] == y;
                    assert(r[m] == y);
                } else {
                    assert(r[q.len() as int] == y);
                }
            }
            if y == x {
                assert(q.contains(y));
                let m = choose|m: int| 0 <= m < q.len() && q[m] == y;
                assert(r[m] == y);
            }
        }
    }
}

/// Law: `sort_distinct` yields a strictly ascending sequence holding exactly
/// the input's elements (sorted, no duplicates, nothing lost or invented).
pub proof fn lemma_sort_distinct(s: Seq<Seq<char>>)
    ensures
        strictly_sorted(sort_distinct(s)),
        forall|y: Seq<char>| #[trigger] sort_distinct(s).contains(y) <==> s.contains(y),
    decreases s.len(),
{
    if s.len() > 0 {
        lemma_sort_distinct(s.drop_last());
        lemma_ins_distinct(sort_distinct(s.drop_last()), s.last());
        assert forall|y: Seq<char>| #[trigger] sort_distinct(s).contains(y) <==> s.contains(y) by {
            if s.drop_last().contains(y) {
                let k = choose|k: int| 0 <= k < s.drop_last().len() && s.drop_last()[k] == y;
                assert(s[k] == y);
            }
            if s.contains(y) {
                let k = choose|k: int| 0 <= k < s.len() && s[k] == y;
                if k < s.len() - 1 {
                    assert(s.drop_last()[k] == y);
                }
            }
        }
    }
}

/// Two strictly ascending sequences with the same elements are equal.
proof fn lemma_strictly_sorted_unique(a: Seq<Seq<char>>, b: Seq<Seq<char>>)
    requires
        strictly_sorted(a),
        strictly_sorted(b),
        forall|y: Seq<char>| a.contains(y) <==> b.contains(y),
    ensures
        a == b,
    decreases a.len() + b.len(),
{
    if a.len() == 0 || b.len() == 0 {
        if a.len() > 0 {
            assert(a.contains(a[0]));
        }
        if b.len() > 0 {
            assert(b.contains(b[0]));
        }
        assert(a.len() == 0 && b.len() == 0);
        assert(a =~= b);
    } else {
        let x = a.last();
        let y = b.last();
        assert(a.contains(x));
        assert(b.contains(y));
        let k = choose|k: int| 0 <= k < b.len() && b[k] == x;
        let j = choose|j: int| 0 <= j < a.len() && a[j] == y;
        if k < b.len() - 1 {
            assert(seq_lt(b[k], b[b.len() - 1]));
            if j < a.len() - 1 {
                assert(seq_lt(a[j], a[a.len() - 1]));
                lemma_seq_lt_asym(x, y);
            } else {
                lemma_seq_lt_irreflexive(x);
            }
        }
        assert(x == y);
        let a2 = a.drop_last();
        let b2 = b.drop_last();
        assert forall|z: Seq<char>| a2.contains(z) <==> b2.contains(z) by {
            if a2.contains(z) {
                let i = choose|i: int| 0 <= i < a2.len() && a2[i] == z;
                assert(a[i] == z);
                assert(seq_lt(a[i], a[a.len() - 1]));
                lemma_seq_lt_irreflexive(z);
                assert(a.contains(z));
                let m = choose|m: int| 0 <= m < b.len() && b[m] == z;
                if m == b.len() - 1 {
                    assert(z == x);
                }
                assert(b2[m] == z);
            }
            if b2.contains(z) {
                let i = choose|i: int| 0 <= i < b2.len() && b2[i] == z;
                assert(b[i] == z);
                assert(seq_lt(b[i], b[b.len() - 1]));
                lemma_seq_lt_irreflexive(z);
                assert(b.contains(z));
                let m = choose|m: int| 0 <= m < a.len() && a[m] == z;
                if m == a.len() - 1 {
                    assert(z == y);
                }
                assert(a2[m] == z);
            }
        }
        assert forall|i: int, j2: int| 0 <= i < j2 < a2.len() implies seq_lt(#[trigger] a2[i], #[trigger] a2[j2]) by {
            assert(a2[i] == a[i] && a2[j2] == a[j2]);
        }
        assert forall|i: int, j2: int| 0 <= i < j2 < b2.len() implies seq_lt(#[trigger] b2[i], #[trigger] b2[j2]) by {
            assert(b2[i] == b[i] && b2[j2] == b[j2]);
        }
        lemma_strictly_sorted_unique(a2, b2);
        assert(a == a2.push(x));
        assert(b == b2.push(y));
    }
}

/// Law: `sort_distinct` depends on the set of elements alone: lists with the
/// same elements, in any order and with any repeats, give the same result.
pub proof fn lemma_sort_distinct_set_only(a: Seq<Seq<char>>, b: Seq<Seq<char>>)
    requires
        forall|y: Seq<char>| a.contains(y) <==> b.contains(y),
    ensures
        sort_distinct(a) == sort_distinct(b),
{
    lemma_sort_distinct(a);
    lemma_sort_distinct(b);
    assert forall|y: Seq<char>| sort_distinct(a).contains(y) <==> sort_distinct(b).contains(y) by {
        assert(sort_distinct(a).contains(y) <==> a.contains(y));
        assert(sort_distinct(b).contains(y) <==> b.contains(y));
    }
    lemma_strictly_sorted_unique(sort_distinct(a), sort_distinct(b));
}

/// Law: a strictly ascending list is its own `sort_distinct`; in particular
/// `sort_distinct` is idempotent.
pub proof fn lemma_sort_distinct_sorted(s: Seq<Seq<char>>)
    ensures
        strictly_sorted(s) ==> sort_distinct(s) == s,
        sort_distinct(sort_distinct(s)) == sort_distinct(s),
{
    lemma_sort_distinct(s);
    if strictly_sorted(s) {
        assert forall|y: Seq<char>| sort_distinct(s).contains(y) <==> s.contains(y) by {
            assert(sort_distinct(s).contains(y) <==> s.contains(y));
        }
        lemma_strictly_sorted_unique(sort_distinct(s), s);
    }
    let t = sort_distinct(s);
    lemma_sort_distinct(t);
    assert forall|y: Seq<char>| sort_distinct(t).contains(y) <==> t.contains(y) by {
        assert(sort_distinct(t).contains(y) <==> t.contains(y));
    }
    lemma_strictly_sorted_unique(sort_distinct(t), t);
}

/// `sort` + `dedup` of a list of strings (the iteration of a `BTreeSet`
/// built from them).
pub fn sort_distinct_strings(v: &Vec<String>) -> (r: Vec<String>)
    ensures
        strs(r@) == sort_distinct(strs(v@)),
{
    let mut acc: Vec<Vec<char>> = Vec::new();
    let mut i: usize = 0;
    while i < v.len()
        invariant
            i <= v.len(),
            chars_views(acc@) == sort_distinct(strs(v@).subrange(0, i as int)),
        decreases v.len() - i,
    {
        proof {
            let t = strs(v@).subrange(0, i + 1);
            assert(t.drop_last() =~= strs(v@).subrange(0, i as int));
            assert(t.last() == v@[i as int]@);
        }
        insert_distinct(&mut acc, chars_of(v[i].as_str()));
        i = i + 1;
    }
    assert(strs(v@).subrange(0, v.len() as int) == strs(v@));
    let mut out: Vec<String> = Vec::new();
    let mut k: usize = 0;
    while k < acc.len()
        invariant
            k <= acc.len(),
            strs(out@) == chars_views(acc@).subrange(0, k as int),
        decreases acc.len() - k,
    {
        let ghost prev = out@;
        out.push(string_of(&acc[k]));
        proof {
            assert(strs(out@) =~= strs(prev).push(acc@[k as int]@));
            assert(chars_views(acc@).subrange(0, k + 1) =~= chars_views(acc@).subrange(0, k as int).push(acc@[k as int]@));
        }
        k = k + 1;
    }
    assert(chars_views(acc@).subrange(0, acc.len() as int) == chars_views(acc@));
    out
}

// ───────────────────────── sorting with repeats ─────────────────────────

/// Insert `x` into the ascending `s` after every element not above it.
pub open spec fn ins_sorted(s: Seq<Seq<char>>, x: Seq<char>) -> Seq<Seq<char>>
    decreases s.len(),
{
    if s.len() == 0 {
        seq![x]
    } else if seq_lt(x, s.last()) {
        ins_sorted(s.drop_last(), x).push(s.last())
    } else {
        s.push(x)
    }
}

/// `[String]::sort` by code point (repeats kept).
pub open spec fn sort_seq(s: Seq<Seq<char>>) -> Seq<Seq<char>>
    decreases s.len(),
{
    if s.len() == 0 {
        Seq::<Seq<char>>::empty()
    } else {
        ins_sorted(sort_seq(s.drop_last()), s.last())
    }
}

/// Ascending, repeats allowed.
pub open spec fn sorted(s: Seq<Seq<char>>) -> bool {
    forall|i: int, j: int| 0 <= i < j < s.len() ==> !seq_lt(#[trigger] s[j], #[trigger] s[i])
}

proof fn lemma_ins_sorted(s: Seq<Seq<char>>, x: Seq<char>)
    requires
        sorted(s),
    ensures
        sorted(ins_sorted(s, x)),
        ins_sorted(s, x).to_multiset() == s.to_multiset().insert(x),
    decreases s.len(),
{
    broadcast use vstd::seq_lib::group_to_multiset_ensures;
    if s.len() == 0 {
        assert(ins_sorted(s, x) == seq![x]);
        assert(seq![x] == Seq::<Seq<char>>::empty().push(x));
    } else if seq_lt(x, s.last()) {
        let t = s.drop_last();
        assert forall|i: int, j: int| 0 <= i < j < t.len() implies !seq_lt(#[trigger] t[j], #[trigger] t[i]) by {
            assert(t[i] == s[i] && t[j] == s[j]);
        }
        lemma_ins_sorted(t, x);
        let q = ins_sorted(t, x);
        let r = q.push(s.last());
        assert(s == t.push(s.last()));
        assert forall|i: int, j: int| 0 <= i < j < r.len() implies !seq_lt(#[trigger] r[j], #[trigger] r[i]) by {
            if j == q.len() {
                let y = q[i];
                assert(r[i] == y);
                assert(q.to_multiset().count(y) > 0);
                assert(q.contains(y));
                if y == x {
                    lemma_seq_lt_asym(x, s.last());
                } else {
                    assert(t.to_multiset().count(y) > 0);
                    assert(t.contains(y));
                    let k = choose|k: int| 0 <= k < t.len() && t[k] == y;
                    assert(s[k] == y);
                    assert(!seq_lt(s[s.len() - 1], s[k]));
                }
            } else {
                assert(r[i] == q[i] && r[j] == q[j]);
            }
        }
    } else {
        let r = s.push(x);
        assert forall|i: int, j: int| 0 <= i < j < r.len() implies !seq_lt(#[trigger] r[j], #[trigger] r[i]) by {
            if j == s.len() {
                if i < s.len() - 1 {
                    assert(!seq_lt(s[s.len() - 1], s[i]));
                    lemma_seq_lt_total(s[i], s.last());
                    if seq_lt(x, s[i]) {
                        if s[i] == s.last() {
                        } else {
                            lemma_seq_lt_trans(x, s[i], s.last());
                        }
                    }
                }
            } else {
                assert(r[i] == s[i] && r[j] == s[j]);
            }
        }
    }
}

/// Law: `sort_seq` yields an ascending rearrangement of its input.
pub proof fn lemma_sort_seq(s: Seq<Seq<char>>)
    ensures
        sorted(sort_seq(s)),
        sort_seq(s).to_multiset() == s.to_multiset(),
    decreases s.len(),
{
    broadcast use vstd::seq_lib::group_to_multiset_ensures;
    if s.len() > 0 {
        lemma_sort_seq(s.drop_last());
        lemma_ins_sorted(sort_seq(s.drop_last()), s.last());
        assert(s == s.drop_last().push(s.last()));
    }
}

/// Two ascending sequences holding the same elements, as often each, are equal.
proof fn lemma_sorted_unique(a: Seq<Seq<char>>, b: Seq<Seq<char>>)
    requires
        sorted(a),
        sorted(b),
        a.to_multiset() == b.to_multiset(),
    ensures
        a == b,
    decreases a.len(),
{
    broadcast use vstd::seq_lib::group_to_multiset_ensures;
    if a.len() == 0 {
        assert(b.len() == 0);
        assert(a =~= b);
    } else {
        let x = a.last();
        let y = b.last();
        assert(a.to_multiset().count(x) > 0);
        assert(b.contains(x));
        assert(b.to_multiset().count(y) > 0);
        assert(a.contains(y));
        let k = choose|k: int| 0 <= k < b.len() && b[k] == x;
        let j = choose|j: int| 0 <= j < a.len() && a[j] == y;
        if k < b.len() - 1 {
            assert(!seq_lt(b[b.len() - 1], b[k]));
        }
        if j < a.len() - 1 {
            assert(!seq_lt(a[a.len() - 1], a[j]));
        }
        lemma_seq_lt_total(x, y);
        assert(x == y);
        let a2 = a.drop_last();
        let b2 = b.drop_last();
        assert(a.remove(a.len() - 1) == a2);
        assert(b.remove(b.len() - 1) == b2);
        assert(a2.to_multiset() == a.to_multiset().remove(x));
        assert(b2.to_multiset() == b.to_multiset().remove(y));
        assert forall|i: int, j2: int| 0 <= i < j2 < a2.len() implies !seq_lt(#[trigger] a2[j2], #[trigger] a2[i]) by {
            assert(a2[i] == a[i] && a2[j2] == a[j2]);
        }
        assert forall|i: int, j2: int| 0 <= i < j2 < b2.len() implies !seq_lt(#[trigger] b2[j2], #[trigger] b2[i]) by {
            assert(b2[i] == b[i] && b2[j2] == b[j2]);
        }
        lemma_sorted_unique(a2, b2);
        assert(a == a2.push(x));
        assert(b == b2.push(y));
    }
}

/// Mapping two rearrangements of one another gives rearrangements of one another.
pub proof fn lemma_map_values_multiset<A, B>(a: Seq<A>, b: Seq<A>, f: spec_fn(A) -> B)
    requires
        a.to_multiset() == b.to_multiset(),
    ensures
        a.map_values(f).to_multiset() == b.map_values(f).to_multiset(),
    decreases a.len(),
{
    broadcast use vstd::seq_lib::group_to_multiset_ensures;
    if a.len() == 0 {
        a.to_multiset_ensures();
        b.to_multiset_ensures();
        assert(b.len() == 0);
        assert(a.map_values(f) =~= b.map_values(f));
    } else {
        let x = a.last();
        assert(a.to_multiset().count(x) > 0);
        assert(b.contains(x));
        let k = choose|k: int| 0 <= k < b.len() && b[k] == x;
        let a2 = a.drop_last();
        let b2 = b.remove(k);
        assert(a.remove(a.len() - 1) == a2);
        assert(a2.to_multiset() == a.to_multiset().remove(x));
        assert(b2.to_multiset() == b.to_multiset().remove(x));
        lemma_map_values_multiset(a2, b2, f);
        let fa = a.map_values(f);
        let fb = b.map_values(f);
        assert(fa == a2.map_values(f).push(f(x)));
        assert(fb.remove(k) =~= b2.map_values(f));
        assert(fb[k] == f(x));
        assert(b2.map_values(f).to_multiset() == fb.to_multiset().remove(f(x)));
        assert(fb.to_multiset().count(f(x)) > 0);
        assert(fb.to_multiset() =~= fb.to_multiset().remove(f(x)).insert(f(x)));
    }
}

/// Law: `sort_seq` depends only on which elements come, and how often: any
/// rearrangement of the input sorts to the same sequence.
pub proof fn lemma_sort_seq_order_free(a: Seq<Seq<char>>, b: Seq<Seq<char>>)
    requires
        a.to_multiset() == b.to_multiset(),
    ensures
        sort_seq(a) == sort_seq(b),
{
    lemma_sort_seq(a);
    lemma_sort_seq(b);
    lemma_sorted_unique(sort_seq(a), sort_seq(b));
}

fn insert_sorted(v: &mut Vec<Vec<char>>, x: Vec<char>)
    ensures
        chars_views(final(v)@) == ins_sorted(chars_views(old(v)@), x@),
{
    let ghost s = chars_views(v@);
    let mut j: usize = v.len();
    while j > 0 && chars_lt(&x, &v[j - 1])
        invariant
            j <= v.len(),
            s == chars_views(v@),
            forall|k: int| j <= k < s.len() ==> seq_lt(x@, #[trigger] s[k]),
        decreases j,
    {
        j = j - 1;
    }
    proof {
        lemma_ins_sorted_walk(s, x@, j as int);
        if j > 0 {
            assert(s.subrange(0, j as int).last() == s[j - 1]);
        } else {
            assert(s.subrange(0, 0) =~= Seq::<Seq<char>>::empty());
        }
    }
    v.insert(j, x);
    proof {
        assert(chars_views(v@) =~= ins_sorted(s.subrange(0, j as int), x@) + s.subrange(j as int, s.len() as int));
    }
}

proof fn lemma_ins_sorted_walk(s: Seq<Seq<char>>, x: Seq<char>, j: int)
    requires
        0 <= j <= s.len(),
        forall|k: int| j <= k < s.len() ==> seq_lt(x, #[trigger] s[k]),
    ensures
        ins_sorted(s, x) == ins_sorted(s.subrange(0, j), x) + s.subrange(j, s.len() as int),
    decreases s.len() - j,
{
    if j == s.len() {
        assert(s.subrange(0, j) == s);
        assert(s.subrange(j, s.len() as int) =~= Seq::<Seq<char>>::empty());
    } else {
        let t = s.drop_last();
        assert(seq_lt(x, s[s.len() - 1]));
        assert forall|k: int| j <= k < t.len() implies seq_lt(x, #[trigger] t[k]) by {
            assert(t[k] == s[k]);
        }
        lemma_ins_sorted_walk(t, x, j);
        assert(t.subrange(0, j) == s.subrange(0, j));
        assert(s.subrange(j, s.len() as int) == t.subrange(j, t.len() as int).push(s.last()));
    }
}

/// `[String]::sort`.
pub fn sort_strings(v: &Vec<String>) -> (r: Vec<String>)
    ensures
        strs(r@) == sort_seq(strs(v@)),
{
    let mut acc: Vec<Vec<char>> = Vec::new();
    let mut i: usize = 0;
    while i < v.len()
        invariant
            i <= v.len(),
            chars_views(acc@) == sort_seq(strs(v@).subrange(0, i as int)),
        decreases v.len() - i,
    {
        proof {
            let t = strs(v@).subrange(0, i + 1);
            assert(t.drop_last() =~= strs(v@).subrange(0, i as int));
            assert(t.last() == v@[i as int]@);
        }
        insert_sorted(&mut acc, chars_of(v[i].as_str()));
        i = i + 1;
    }
    assert(strs(v@).subrange(0, v.len() as int) == strs(v@));
    let mut out: Vec<String> = Vec::new();
    let mut k: usize = 0;
    while k < acc.len()
        invariant
            k <= acc.len(),
            strs(out@) == chars_views(acc@).subrange(0, k as int),
        decreases acc.len() - k,
    {
        let ghost prev = out@;
        out.push(string_of(&acc[k]));
        proof {
            assert(strs(out@) =~= strs(prev).push(acc@[k as int]@));
            assert(chars_views(acc@).subrange(0, k + 1) =~= chars_views(acc@).subrange(0, k as int).push(acc@[k as int]@));
        }
        k = k + 1;
    }
    assert(chars_views(acc@).subrange(0, acc.len() as int) == chars_views(acc@));
    out
}

} // verus!
