//! The order of strings (`Ord` for `String`: character by character, by code point, a
//! proper prefix first) and sorting a list of names by it.
use vstd::prelude::*;
use crate::text::{chars_of, views};

verus! {

broadcast use vstd::seq_lib::to_multiset_insert;

/// `a` comes strictly before `b`: at the first position where they differ `a` has the
/// smaller character, or `a` is a proper prefix of `b`.
pub open spec fn lex_lt(a: Seq<char>, b: Seq<char>) -> bool
    decreases a.len(),
{
    if a.len() == 0 {
        b.len() > 0
    } else if b.len() == 0 {
        false
    } else if a[0] != b[0] {
        (a[0] as u32) < (b[0] as u32)
    } else {
        lex_lt(a.drop_first(), b.drop_first())
    }
}

/// Each name is no later than the next: no later name comes strictly before an earlier one.
pub open spec fn sorted(s: Seq<Seq<char>>) -> bool {
    forall|i: int, j: int| 0 <= i < j < s.len() ==> !lex_lt(#[trigger] s[j], #[trigger] s[i])
}

/// The order is transitive.
pub proof fn lemma_lex_lt_transitive(a: Seq<char>, b: Seq<char>, c: Seq<char>)
    requires
        lex_lt(a, b),
        lex_lt(b, c),
    ensures
        lex_lt(a, c),
    decreases a.len(),
{
    if a.len() > 0 && b.len() > 0 && c.len() > 0 && a[0] == b[0] && b[0] == c[0] {
        lemma_lex_lt_transitive(a.drop_first(), b.drop_first(), c.drop_first());
    }
}

/// The order is total: of two different strings one comes first.
pub proof fn lemma_lex_lt_total(a: Seq<char>, b: Seq<char>)
    ensures
        a != b ==> lex_lt(a, b) || lex_lt(b, a),
        !lex_lt(a, a),
    decreases a.len(),
{
    if a.len() > 0 && b.len() > 0 && a[0] != b[0] {
        vstd::utf8::char_u32_cast(a[0], a[0] as u32);
        vstd::utf8::char_u32_cast(b[0], b[0] as u32);
    }
    if a.len() > 0 && b.len() > 0 && a[0] == b[0] {
        lemma_lex_lt_total(a.drop_first(), b.drop_first());
        if a.drop_first() == b.drop_first() {
            assert(a =~= seq![a[0]] + a.drop_first());
            assert(b =~= seq![b[0]] + b.drop_first());
        }
    }
    if a.len() > 0 {
        lemma_lex_lt_total(a.drop_first(), a.drop_first());
    }
    if a.len() == 0 && b.len() == 0 {
        assert(a =~= b);
    }
}

proof fn lemma_sorted_first_least(s: Seq<Seq<char>>, x: Seq<char>)
    requires
        sorted(s),
        s.to_multiset().contains(x),
    ensures
        s.len() > 0,
        !lex_lt(x, s[0]),
{
    vstd::seq_lib::to_multiset_contains(s, x);
    let k = choose|k: int| 0 <= k < s.len() && s[k] == x;
    if k > 0 {
        assert(!lex_lt(s[k], s[0]));
    } else {
        lemma_lex_lt_total(x, x);
    }
}

/// A list of names has one sorted order: two sorted lists that hold the same names, each
/// as often, are the same list.
pub proof fn law_sorted_order_unique(s1: Seq<Seq<char>>, s2: Seq<Seq<char>>)
    requires
        sorted(s1),
        sorted(s2),
        s1.to_multiset() == s2.to_multiset(),
    ensures
        s1 == s2,
    decreases s1.len(),
{
    vstd::seq_lib::to_multiset_len(s1);
    vstd::seq_lib::to_multiset_len(s2);
    if s1.len() == 0 {
        assert(s1 =~= s2);
    } else {
        vstd::seq_lib::to_multiset_contains(s1, s1[0]);
        vstd::seq_lib::to_multiset_contains(s2, s2[0]);
        lemma_sorted_first_least(s2, s1[0]);
        lemma_sorted_first_least(s1, s2[0]);
        lemma_lex_lt_total(s1[0], s2[0]);
        let t1 = s1.drop_first();
        let t2 = s2.drop_first();
        assert(sorted(t1)) by {
            assert forall|i: int, j: int| 0 <= i < j < t1.len() implies !lex_lt(#[trigger] t1[j], #[trigger] t1[i]) by {
                assert(t1[i] == s1[i + 1] && t1[j] == s1[j + 1]);
            }
        }
        assert(sorted(t2)) by {
            assert forall|i: int, j: int| 0 <= i < j < t2.len() implies !lex_lt(#[trigger] t2[j], #[trigger] t2[i]) by {
                assert(t2[i] == s2[i + 1] && t2[j] == s2[j + 1]);
            }
        }
        vstd::seq_lib::to_multiset_remove(s1, 0);
        vstd::seq_lib::to_multiset_remove(s2, 0);
        assert(s1.remove(0) =~= t1);
        assert(s2.remove(0) =~= t2);
        law_sorted_order_unique(t1, t2);
        assert(s1 =~= s2) by {
            assert(s1 =~= seq![s1[0]] + t1);
            assert(s2 =~= seq![s2[0]] + t2);
        }
    }
}

/// Whether `a` comes strictly before `b` (see `lex_lt`).
pub fn str_lt(a: &str, b: &str) -> (r: bool)
    ensures
        r == lex_lt(a@, b@),
{
    let av = chars_of(a);
    let bv = chars_of(b);
    let mut i: usize = 0;
    proof {
        assert(a@.skip(0) =~= a@);
        assert(b@.skip(0) =~= b@);
    }
    while i < av.len() && i < bv.len() && av[i] == bv[i]
        invariant
            i <= av.len(),
            i <= bv.len(),
            av@ == a@,
            bv@ == b@,
            lex_lt(a@, b@) == lex_lt(a@.skip(i as int), b@.skip(i as int)),
        decreases av.len() - i,
    {
        proof {
            let x = a@.skip(i as int);
            let y = b@.skip(i as int);
            assert(x[0] == y[0]);
            assert(x.drop_first() =~= a@.skip(i + 1));
            assert(y.drop_first() =~= b@.skip(i + 1));
        }
        i = i + 1;
    }
    let x = Ghost(a@.skip(i as int));
    let y = Ghost(b@.skip(i as int));
    if i == av.len() {
        i < bv.len()
    } else if i == bv.len() {
        false
    } else {
        let c = av[i];
        let d = bv[i];
        proof {
            assert(x@[0] == c && y@[0] == d);
            assert(c != d);
        }
        (c as u32) < (d as u32)
    }
}

/// The names of `v` in order (see `sorted`), each as often as in `v`.
pub fn sort_strings(v: &Vec<String>) -> (r: Vec<String>)
    ensures
        sorted(views(r@)),
        views(r@).to_multiset() == views(v@).to_multiset(),
{
    let mut out: Vec<String> = Vec::new();
    let mut k: usize = 0;
    proof {
        assert(views(out@) =~= views(v@).take(0));
    }
    while k < v.len()
        invariant
            k <= v.len(),
            sorted(views(out@)),
            views(out@).to_multiset() == views(v@).take(k as int).to_multiset(),
        decreases v.len() - k,
    {
        let x = v[k].clone();
        let ghost o = views(out@);
        let mut p: usize = 0;
        while p < out.len() && !str_lt(x.as_str(), out[p].as_str())
            invariant
                p <= out.len(),
                o == views(out@),
                forall|q: int| 0 <= q < p ==> !lex_lt(x@, #[trigger] o[q]),
            decreases out.len() - p,
        {
            assert(o[p as int] == out@[p as int]@);
            p = p + 1;
        }
        proof {
            if p < out.len() {
                assert(o[p as int] == out@[p as int]@);
                assert(lex_lt(x@, o[p as int]));
            }
        }
        out.insert(p, x);
        proof {
            let n = views(out@);
            assert(n =~= o.insert(p as int, x@));
            assert forall|i: int, j: int| 0 <= i < j < n.len() implies !lex_lt(#[trigger] n[j], #[trigger] n[i]) by {
                if j < p {
                    assert(n[i] == o[i] && n[j] == o[j]);
                } else if j == p {
                    assert(n[i] == o[i] && n[j] == x@);
                    assert(!lex_lt(x@, o[i]));
                } else if i < p {
                    assert(n[i] == o[i] && n[j] == o[j - 1]);
                } else if i == p {
                    assert(n[i] == x@ && n[j] == o[j - 1]);
                    assert(lex_lt(x@, o[p as int]));
                    if p < j - 1 {
                        assert(!lex_lt(o[j - 1], o[p as int]));
                    }
                    if lex_lt(o[j - 1], x@) {
                        lemma_lex_lt_transitive(o[j - 1], x@, o[p as int]);
                        lemma_lex_lt_total(o[p as int], o[p as int]);
                    }
                } else {
                    assert(n[i] == o[i - 1] && n[j] == o[j - 1]);
                }
            }
            assert(views(v@).take(k + 1) =~= views(v@).take(k as int).push(x@));
            assert(o.insert(p as int, x@).to_multiset() == o.to_multiset().insert(x@));
            vstd::seq_lib::to_multiset_build(views(v@).take(k as int), x@);
        }
        k = k + 1;
    }
    proof {
        assert(views(v@).take(v@.len() as int) =~= views(v@));
    }
    out
}

} // verus!
