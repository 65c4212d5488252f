//! A set of strings kept as a vector in increasing lexicographic order of
//! characters (the order of their UTF-8 bytes), without repetition.
use vstd::prelude::*;
use crate::text::{chars_of, str_eq};

verus! {

/// `a` comes strictly before `b` in lexicographic order of characters.
pub open spec fn lex_lt(a: Seq<char>, b: Seq<char>) -> bool
    decreases a.len(),
{
    if a.len() == 0 {
        b.len() > 0
    } else if b.len() == 0 {
        false
    } else if a[0] < b[0] {
        true
    } else if a[0] == b[0] {
        lex_lt(a.drop_first(), b.drop_first())
    } else {
        false
    }
}

pub proof fn lemma_lex_irreflexive(a: Seq<char>)
    ensures
        !lex_lt(a, a),
    decreases a.len(),
{
    if a.len() > 0 {
        lemma_lex_irreflexive(a.drop_first());
    }
}

pub proof fn lemma_lex_asymmetric(a: Seq<char>, b: Seq<char>)
    ensures
        lex_lt(a, b) ==> !lex_lt(b, a),
    decreases a.len(),
{
    if a.len() > 0 && b.len() > 0 && a[0] == b[0] {
        lemma_lex_asymmetric(a.drop_first(), b.drop_first());
    }
}

pub proof fn lemma_lex_transitive(a: Seq<char>, b: Seq<char>, c: Seq<char>)
    requires
        lex_lt(a, b),
        lex_lt(b, c),
    ensures
        lex_lt(a, c),
    decreases a.len(),
{
    if a.len() > 0 && b.len() > 0 && c.len() > 0 && a[0] == b[0] && b[0] == c[0] {
        lemma_lex_transitive(a.drop_first(), b.drop_first(), c.drop_first());
    }
}

pub proof fn lemma_lex_total(a: Seq<char>, b: Seq<char>)
    requires
        a != b,
    ensures
        lex_lt(a, b) || lex_lt(b, a),
    decreases a.len(),
{
    if a.len() > 0 && b.len() > 0 && a[0] == b[0] {
        if a.drop_first() == b.drop_first() {
            assert(a =~= seq![a[0]] + a.drop_first());
            assert(b =~= seq![b[0]] + b.drop_first());
        }
        lemma_lex_total(a.drop_first(), b.drop_first());
    } else if a.len() == 0 && b.len() == 0 {
        assert(a =~= b);
    }
}

/// Lexicographic order after a common prefix of length `i`.
proof fn lemma_lex_skip(a: Seq<char>, b: Seq<char>, i: int)
    requires
        0 <= i <= a.len(),
        i <= b.len(),
        forall|j: int| 0 <= j < i ==> a[j] == b[j],
    ensures
        lex_lt(a, b) == lex_lt(a.skip(i), b.skip(i)),
    decreases i,
{
    if i > 0 {
        assert(a.drop_first().skip(i - 1) =~= a.skip(i));
        assert(b.drop_first().skip(i - 1) =~= b.skip(i));
        lemma_lex_skip(a.drop_first(), b.drop_first(), i - 1);
    } else {
        assert(a.skip(0) =~= a);
        assert(b.skip(0) =~= b);
    }
}

/// The character sequences held by a list of strings.
pub open spec fn strs(v: Seq<String>) -> Seq<Seq<char>> {
    v.map_values(|s: String| s@)
}

/// Strictly increasing in lexicographic order.
pub open spec fn sorted(s: Seq<Seq<char>>) -> bool {
    forall|i: int, j: int| 0 <= i < j < s.len() ==> lex_lt(s[i], s[j])
}

/// `s` with `x` added at its place in the order, unless it holds `x` already.
pub open spec fn insert_sorted(s: Seq<Seq<char>>, x: Seq<char>) -> Seq<Seq<char>>
    decreases s.len(),
{
    if s.len() == 0 {
        seq![x]
    } else if s[0] == x {
        s
    } else if lex_lt(x, s[0]) {
        seq![x] + s
    } else {
        seq![s[0]] + insert_sorted(s.drop_first(), x)
    }
}

/// `s` without any occurrence of `x`.
pub open spec fn remove_value(s: Seq<Seq<char>>, x: Seq<char>) -> Seq<Seq<char>>
    decreases s.len(),
{
    if s.len() == 0 {
        s
    } else if s.last() == x {
        remove_value(s.drop_last(), x)
    } else {
        remove_value(s.drop_last(), x).push(s.last())
    }
}

/// The elements of `xs` inserted in turn into `s`.
pub open spec fn insert_all(s: Seq<Seq<char>>, xs: Seq<Seq<char>>) -> Seq<Seq<char>>
    decreases xs.len(),
{
    if xs.len() == 0 {
        s
    } else {
        insert_sorted(insert_all(s, xs.drop_last()), xs.last())
    }
}

/// The elements of `xs` removed in turn from `s`.
pub open spec fn remove_all(s: Seq<Seq<char>>, xs: Seq<Seq<char>>) -> Seq<Seq<char>>
    decreases xs.len(),
{
    if xs.len() == 0 {
        s
    } else {
        remove_value(remove_all(s, xs.drop_last()), xs.last())
    }
}

proof fn lemma_contains_cons(x: Seq<char>, s: Seq<Seq<char>>, y: Seq<char>)
    ensures
        (seq![x] + s).contains(y) <==> (y == x || s.contains(y)),
{
    let r = seq![x] + s;
    if r.contains(y) {
        let k = choose|k: int| 0 <= k < r.len() && r[k] == y;
        if k > 0 {
            assert(s[k - 1] == y);
        }
    }
    if y == x {
        assert(r[0] == y);
    }
    if s.contains(y) {
        let k = choose|k: int| 0 <= k < s.len() && s[k] == y;
        assert(r[k + 1] == y);
    }
}

proof fn lemma_sorted_tail(s: Seq<Seq<char>>)
    requires
        sorted(s),
        s.len() > 0,
    ensures
        sorted(s.drop_first()),
{
    let t = s.drop_first();
    assert forall|i: int, j: int| 0 <= i < j < t.len() implies lex_lt(t[i], t[j]) by {
        assert(t[i] == s[i + 1] && t[j] == s[j + 1]);
    }
}

pub proof fn lemma_insert_sorted(s: Seq<Seq<char>>, x: Seq<char>)
    requires
        sorted(s),
    ensures
        sorted(insert_sorted(s, x)),
        insert_sorted(s, x).to_set() == s.to_set().insert(x),
        forall|y: Seq<char>| #[trigger]
            insert_sorted(s, x).contains(y) <==> (s.contains(y) || y == x),
    decreases s.len(),
{
    let r = insert_sorted(s, x);
    if s.len() == 0 {
        assert forall|y: Seq<char>| #[trigger] r.contains(y) <==> (s.contains(y) || y == x) by {
            lemma_contains_cons(x, s, y);
            assert(r =~= seq![x] + s);
        }
    } else if s[0] == x {
        assert forall|y: Seq<char>| #[trigger] r.contains(y) <==> (s.contains(y) || y == x) by {
            if y == x {
                assert(s[0] == y);
            }
        }
    } else if lex_lt(x, s[0]) {
        assert forall|i: int, j: int| 0 <= i < j < r.len() implies lex_lt(r[i], r[j]) by {
            if i == 0 {
                if j > 1 {
                    lemma_lex_transitive(x, s[0], s[j - 1]);
                }
            } else {
                assert(r[i] == s[i - 1] && r[j] == s[j - 1]);
            }
        }
        assert forall|y: Seq<char>| #[trigger] r.contains(y) <==> (s.contains(y) || y == x) by {
            lemma_contains_cons(x, s, y);
        }
    } else {
        let t = s.drop_first();
        lemma_sorted_tail(s);
        lemma_insert_sorted(t, x);
        lemma_lex_total(x, s[0]);
        let it = insert_sorted(t, x);
        assert(r == seq![s[0]] + it);
        assert forall|i: int, j: int| 0 <= i < j < r.len() implies lex_lt(r[i], r[j]) by {
            if i == 0 {
                assert(r[j] == it[j - 1]);
                assert(it.contains(it[j - 1]));
                if it[j - 1] != x {
                    let k = choose|k: int| 0 <= k < t.len() && t[k] == it[j - 1];
                    assert(s[k + 1] == t[k]);
                }
            } else {
                assert(r[i] == it[i - 1] && r[j] == it[j - 1]);
            }
        }
        assert forall|y: Seq<char>| #[trigger] r.contains(y) <==> (s.contains(y) || y == x) by {
            lemma_contains_cons(s[0], it, y);
            lemma_contains_cons(s[0], t, y);
            assert(s =~= seq![s[0]] + t);
            assert(it.contains(y) <==> (t.contains(y) || y == x));
        }
    }
    assert(r.to_set() =~= s.to_set().insert(x));
}

pub proof fn lemma_remove_value(s: Seq<Seq<char>>, x: Seq<char>)
    ensures
        forall|y: Seq<char>| #[trigger]
            remove_value(s, x).contains(y) <==> (s.contains(y) && y != x),
        sorted(s) ==> sorted(remove_value(s, x)),
        remove_value(s, x).to_set() == s.to_set().remove(x),
        forall|k: int| 0 <= k < remove_value(s, x).len() ==> exists|m: int|
            0 <= m < s.len() && s[m] == #[trigger] remove_value(s, x)[k],
    decreases s.len(),
{
    let r = remove_value(s, x);
    if s.len() > 0 {
        let t = s.drop_last();
        lemma_remove_value(t, x);
        let rt = remove_value(t, x);
        assert forall|k: int| 0 <= k < r.len() implies exists|m: int|
            0 <= m < s.len() && s[m] == #[trigger] r[k] by {
            if k < rt.len() {
                assert(r[k] == rt[k]);
                let m = choose|m: int| 0 <= m < t.len() && t[m] == rt[k];
                assert(s[m] == t[m]);
            } else {
                assert(s[s.len() - 1] == r[k]);
            }
        }
        assert forall|y: Seq<char>| #[trigger] r.contains(y) <==> (s.contains(y) && y != x) by {
            if r.contains(y) {
                let k = choose|k: int| 0 <= k < r.len() && r[k] == y;
                if k < rt.len() {
                    assert(r[k] == rt[k]);
                    assert(rt.contains(y));
                    let m = choose|m: int| 0 <= m < t.len() && t[m] == y;
                    assert(s[m] == y);
                } else {
                    assert(s[s.len() - 1] == y);
                }
            }
            if s.contains(y) && y != x {
                let k = choose|k: int| 0 <= k < s.len() && s[k] == y;
                if k < t.len() {
                    assert(t[k] == y);
                    assert(t.contains(y));
                    assert(rt.contains(y));
                    let m = choose|m: int| 0 <= m < rt.len() && rt[m] == y;
                    assert(r[m] == y);
                } else {
                    assert(r[r.len() - 1] == y);
                }
            }
        }
        if sorted(s) {
            assert(sorted(t)) by {
                assert forall|i: int, j: int| 0 <= i < j < t.len() implies lex_lt(t[i], t[j]) by {
                    assert(t[i] == s[i] && t[j] == s[j]);
                }
            }
            if s.last() != x {
                assert forall|i: int, j: int| 0 <= i < j < r.len() implies lex_lt(r[i], r[j]) by {
                    if j == r.len() - 1 {
                        assert(r[i] == rt[i]);
                        let m = choose|m: int| 0 <= m < t.len() && t[m] == rt[i];
                        assert(s[m] == t[m]);
                    } else {
                        assert(r[i] == rt[i] && r[j] == rt[j]);
                    }
                }
            }
        }
    }
    assert(r.to_set() =~= s.to_set().remove(x));
}

/// Two increasing sequences with the same elements are equal.
pub proof fn lemma_sorted_unique(a: Seq<Seq<char>>, b: Seq<Seq<char>>)
    requires
        sorted(a),
        sorted(b),
        forall|y: Seq<char>| #![trigger a.contains(y)] #![trigger b.contains(y)] a.contains(y) <==> b.contains(y),
    ensures
        a == b,
    decreases a.len(),
{
    if a.len() == 0 {
        if b.len() > 0 {
            assert(b.contains(b[0]));
            assert(a.contains(b[0]));
        }
        assert(a =~= b);
    } else if b.len() == 0 {
        assert(a.contains(a[0]));
        assert(b.contains(a[0]));
    } else {
        // The first elements are the least of both, so they agree.
        assert(a.contains(a[0]));
        assert(b.contains(b[0]));
        assert(b.contains(a[0]));
        assert(a.contains(b[0]));
        let ka = choose|k: int| 0 <= k < b.len() && b[k] == a[0];
        let kb = choose|k: int| 0 <= k < a.len() && a[k] == b[0];
        if a[0] != b[0] {
            assert(ka > 0 && kb > 0);
            lemma_lex_asymmetric(b[0], a[0]);
        }
        let ta = a.drop_first();
        let tb = b.drop_first();
        assert(sorted(ta)) by {
            assert forall|i: int, j: int| 0 <= i < j < ta.len() implies lex_lt(ta[i], ta[j]) by {
                assert(ta[i] == a[i + 1] && ta[j] == a[j + 1]);
            }
        }
        assert(sorted(tb)) by {
            assert forall|i: int, j: int| 0 <= i < j < tb.len() implies lex_lt(tb[i], tb[j]) by {
                assert(tb[i] == b[i + 1] && tb[j] == b[j + 1]);
            }
        }
        assert forall|y: Seq<char>| #![trigger ta.contains(y)] #![trigger tb.contains(y)] ta.contains(y) <==> tb.contains(y) by {
            if ta.contains(y) {
                let k = choose|k: int| 0 <= k < ta.len() && ta[k] == y;
                assert(a[k + 1] == y);
                assert(a.contains(y));
                assert(b.contains(y));
                let m = choose|m: int| 0 <= m < b.len() && b[m] == y;
                lemma_lex_irreflexive(a[0]);
                if m == 0 {
                    assert(lex_lt(a[0], a[k + 1]));
                }
                assert(tb[m - 1] == y);
            }
            if tb.contains(y) {
                let k = choose|k: int| 0 <= k < tb.len() && tb[k] == y;
                assert(b[k + 1] == y);
                assert(b.contains(y));
                assert(a.contains(y));
                let m = choose|m: int| 0 <= m < a.len() && a[m] == y;
                lemma_lex_irreflexive(b[0]);
                if m == 0 {
                    assert(lex_lt(b[0], b[k + 1]));
                }
                assert(ta[m - 1] == y);
            }
        }
        lemma_sorted_unique(ta, tb);
        assert(a =~= seq![a[0]] + ta);
        assert(b =~= seq![b[0]] + tb);
    }
}

/// Whether `a` comes strictly before `b` in lexicographic order.
pub fn str_lt(a: &str, b: &str) -> (r: bool)
    ensures
        r == lex_lt(a@, b@),
{
    let va = chars_of(a);
    let vb = chars_of(b);
    let mut i: usize = 0;
    while i < va.len() && i < vb.len() && va[i] == vb[i]
        invariant
            va@ == a@,
            vb@ == b@,
            i <= va@.len(),
            i <= vb@.len(),
            forall|j: int| 0 <= j < i ==> va@[j] == vb@[j],
        decreases va@.len() - i,
    {
        i = i + 1;
    }
    proof {
        lemma_lex_skip(a@, b@, i as int);
    }
    if i == va.len() {
        i < vb.len()
    } else if i == vb.len() {
        false
    } else {
        va[i] < vb[i]
    }
}

/// Adds `x` to the set.
pub fn insert_str(list: &mut Vec<String>, x: String)
    requires
        sorted(strs(old(list)@)),
    ensures
        strs(final(list)@) == insert_sorted(strs(old(list)@), x@),
        sorted(strs(final(list)@)),
{
    let ghost s = strs(list@);
    let mut i: usize = 0;
    assert(s.skip(0) =~= s);
    assert(s.take(0) + insert_sorted(s, x@) =~= insert_sorted(s, x@));
    while i < list.len() && str_lt(list[i].as_str(), x.as_str())
        invariant
            s == strs(list@),
            sorted(s),
            i <= list@.len(),
            insert_sorted(s, x@) == s.take(i as int) + insert_sorted(s.skip(i as int), x@),
        decreases list@.len() - i,
    {
        let ghost rest = s.skip(i as int);
        assert(rest[0] == s[i as int]);
        proof {
            lemma_lex_irreflexive(x@);
            lemma_lex_asymmetric(s[i as int], x@);
        }
        assert(rest.drop_first() =~= s.skip(i + 1));
        assert(s.take(i + 1) =~= s.take(i as int).push(s[i as int]));
        assert(insert_sorted(rest, x@) =~= seq![s[i as int]] + insert_sorted(s.skip(i + 1), x@));
        i = i + 1;
    }
    proof {
        lemma_insert_sorted(s, x@);
    }
    let ghost rest = s.skip(i as int);
    if i < list.len() {
        assert(rest[0] == s[i as int]);
        if str_eq(list[i].as_str(), x.as_str()) {
            assert(s.take(i as int) + rest =~= s);
            return;
        }
        proof {
            lemma_lex_total(x@, s[i as int]);
        }
        assert(insert_sorted(rest, x@) == seq![x@] + rest);
    } else {
        assert(rest.len() == 0);
    }
    list.insert(i, x);
    assert(strs(list@) =~= s.take(i as int) + (seq![x@] + rest)) by {
        assert(strs(list@) =~= s.take(i as int) + insert_sorted(rest, x@));
    }
}

/// Removes `x` from the set.
pub fn remove_str(list: &mut Vec<String>, x: &str)
    ensures
        strs(final(list)@) == remove_value(strs(old(list)@), x@),
{
    let ghost s = strs(list@);
    let mut kept: Vec<String> = Vec::new();
    let mut i: usize = 0;
    while i < list.len()
        invariant
            s == strs(list@),
            i <= list@.len(),
            strs(kept@) == remove_value(s.take(i as int), x@),
        decreases list@.len() - i,
    {
        let ghost before = strs(kept@);
        assert(s.take(i + 1).drop_last() =~= s.take(i as int));
        if !str_eq(list[i].as_str(), x) {
            kept.push(list[i].clone());
            assert(strs(kept@) =~= before.push(s[i as int]));
        }
        i = i + 1;
    }
    assert(s.take(list@.len() as int) =~= s);
    *list = kept;
}

/// Whether the set holds `x`.
pub fn contains_str(list: &Vec<String>, x: &str) -> (r: bool)
    ensures
        r == strs(list@).contains(x@),
{
    let ghost s = strs(list@);
    let mut i: usize = 0;
    while i < list.len()
        invariant
            s == strs(list@),
            i <= s.len(),
            forall|j: int| 0 <= j < i ==> s[j] != x@,
        decreases s.len() - i,
    {
        if str_eq(list[i].as_str(), x) {
            assert(s[i as int] == x@);
            return true;
        }
        i = i + 1;
    }
    false
}

/// The elements after a push are those before and the new one.
pub proof fn lemma_push_to_set(s: Seq<Seq<char>>, x: Seq<char>)
    ensures
        s.push(x).to_set() == s.to_set().insert(x),
{
    let p = s.push(x);
    assert forall|y: Seq<char>| p.contains(y) <==> s.to_set().insert(x).contains(y) by {
        if p.contains(y) {
            let k = choose|k: int| 0 <= k < p.len() && p[k] == y;
            if k < s.len() {
                assert(s[k] == y);
            }
        }
        if s.contains(y) {
            let k = choose|k: int| 0 <= k < s.len() && s[k] == y;
            assert(p[k] == y);
        }
        if y == x {
            assert(p[s.len() as int] == y);
        }
    }
    assert(p.to_set() =~= s.to_set().insert(x));
}

/// Inserting a list of values: the set gains exactly those values and stays ordered.
pub proof fn lemma_insert_all(s: Seq<Seq<char>>, xs: Seq<Seq<char>>)
    requires
        sorted(s),
    ensures
        sorted(insert_all(s, xs)),
        forall|y: Seq<char>| #[trigger]
            insert_all(s, xs).contains(y) <==> (s.contains(y) || xs.contains(y)),
    decreases xs.len(),
{
    if xs.len() > 0 {
        let d = xs.drop_last();
        lemma_insert_all(s, d);
        lemma_insert_sorted(insert_all(s, d), xs.last());
        assert forall|y: Seq<char>| #[trigger]
            insert_all(s, xs).contains(y) <==> (s.contains(y) || xs.contains(y)) by {
            if d.contains(y) {
                let k = choose|k: int| 0 <= k < d.len() && d[k] == y;
                assert(xs[k] == y);
            }
            if xs.contains(y) {
                let k = choose|k: int| 0 <= k < xs.len() && xs[k] == y;
                if k < d.len() {
                    assert(d[k] == y);
                }
            }
        }
    }
}

/// Removing a list of values: the set loses exactly those values and stays ordered.
pub proof fn lemma_remove_all(s: Seq<Seq<char>>, xs: Seq<Seq<char>>)
    ensures
        sorted(s) ==> sorted(remove_all(s, xs)),
        forall|y: Seq<char>| #[trigger]
            remove_all(s, xs).contains(y) <==> (s.contains(y) && !xs.contains(y)),
    decreases xs.len(),
{
    if xs.len() > 0 {
        let d = xs.drop_last();
        lemma_remove_all(s, d);
        lemma_remove_value(remove_all(s, d), xs.last());
        assert forall|y: Seq<char>| #[trigger]
            remove_all(s, xs).contains(y) <==> (s.contains(y) && !xs.contains(y)) by {
            if d.contains(y) {
                let k = choose|k: int| 0 <= k < d.len() && d[k] == y;
                assert(xs[k] == y);
            }
            if xs.contains(y) {
                let k = choose|k: int| 0 <= k < xs.len() && xs[k] == y;
                if k < d.len() {
                    assert(d[k] == y);
                }
            }
        }
    }
}

/// Resuming dates that were not canceled before canceling them restores the set.
pub proof fn lemma_resume_undoes_cancel(s: Seq<Seq<char>>, xs: Seq<Seq<char>>)
    requires
        sorted(s),
        forall|k: int| 0 <= k < xs.len() ==> !s.contains(#[trigger] xs[k]),
    ensures
        remove_all(insert_all(s, xs), xs) == s,
{
    lemma_insert_all(s, xs);
    lemma_remove_all(insert_all(s, xs), xs);
    assert forall|y: Seq<char>| #![trigger s.contains(y)] #![trigger remove_all(insert_all(s, xs), xs).contains(y)]
        remove_all(insert_all(s, xs), xs).contains(y) <==> s.contains(y) by {
        if s.contains(y) && xs.contains(y) {
            let k = choose|k: int| 0 <= k < xs.len() && xs[k] == y;
        }
    }
    lemma_sorted_unique(remove_all(insert_all(s, xs), xs), s);
}

/// Canceling the same dates twice is canceling them once.
pub proof fn lemma_cancel_idempotent(s: Seq<Seq<char>>, xs: Seq<Seq<char>>)
    requires
        sorted(s),
    ensures
        insert_all(insert_all(s, xs), xs) == insert_all(s, xs),
{
    lemma_insert_all(s, xs);
    lemma_insert_all(insert_all(s, xs), xs);
    lemma_sorted_unique(insert_all(insert_all(s, xs), xs), insert_all(s, xs));
}

/// Resuming the same dates twice is resuming them once.
pub proof fn lemma_resume_idempotent(s: Seq<Seq<char>>, xs: Seq<Seq<char>>)
    requires
        sorted(s),
    ensures
        remove_all(remove_all(s, xs), xs) == remove_all(s, xs),
{
    lemma_remove_all(s, xs);
    lemma_remove_all(remove_all(s, xs), xs);
    lemma_sorted_unique(remove_all(remove_all(s, xs), xs), remove_all(s, xs));
}

} // verus!
