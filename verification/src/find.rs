//! The first element of a sequence that satisfies a predicate.
use vstd::prelude::*;

verus! {

/// Index of the first element of `s` at or after `i` that satisfies `p`.
pub open spec fn first_from<A>(s: Seq<A>, p: spec_fn(A) -> bool, i: int) -> Option<int>
    decreases s.len() - i,
{
    if i < 0 || i >= s.len() {
        None
    } else if p(s[i]) {
        Some(i)
    } else {
        first_from(s, p, i + 1)
    }
}

/// Index of the first element of `s` that satisfies `p`.
pub open spec fn first<A>(s: Seq<A>, p: spec_fn(A) -> bool) -> Option<int> {
    first_from(s, p, 0)
}

/// The first element of `s` that satisfies `p`.
pub open spec fn first_elem<A>(s: Seq<A>, p: spec_fn(A) -> bool) -> Option<A> {
    match first(s, p) {
        Some(i) => Some(s[i]),
        None => None,
    }
}

/// What `first_from` finds: a match, with none before it; or no match from `i` on.
pub proof fn lemma_first_from<A>(s: Seq<A>, p: spec_fn(A) -> bool, i: int)
    requires
        0 <= i,
    ensures
        match first_from(s, p, i) {
            Some(j) => i <= j < s.len() && p(s[j]) && forall|k: int| i <= k < j ==> !p(#[trigger] s[k]),
            None => forall|k: int| i <= k < s.len() ==> !p(#[trigger] s[k]),
        },
    decreases s.len() - i,
{
    if 0 <= i < s.len() && !p(s[i]) {
        lemma_first_from(s, p, i + 1);
    }
}

/// What `first` finds: the first match, or no match at all.
pub proof fn lemma_first<A>(s: Seq<A>, p: spec_fn(A) -> bool)
    ensures
        match first(s, p) {
            Some(j) => 0 <= j < s.len() && p(s[j]) && forall|k: int| 0 <= k < j ==> !p(#[trigger] s[k]),
            None => forall|k: int| 0 <= k < s.len() ==> !p(#[trigger] s[k]),
        },
{
    lemma_first_from(s, p, 0);
}

/// `first` is characterised by the index it returns.
pub proof fn lemma_first_is<A>(s: Seq<A>, p: spec_fn(A) -> bool, j: int)
    requires
        0 <= j < s.len(),
        p(s[j]),
        forall|k: int| 0 <= k < j ==> !p(#[trigger] s[k]),
    ensures
        first(s, p) == Some(j),
{
    lemma_first(s, p);
    match first(s, p) {
        Some(m) => {
            if m < j {
                assert(!p(s[m]));
            } else if m > j {
                assert(!p(s[j]));
            }
        },
        None => {
            assert(!p(s[j]));
        },
    }
}

/// No element satisfies `p`.
pub proof fn lemma_first_none<A>(s: Seq<A>, p: spec_fn(A) -> bool)
    requires
        forall|k: int| 0 <= k < s.len() ==> !p(#[trigger] s[k]),
    ensures
        first(s, p) is None,
{
    lemma_first(s, p);
    if let Some(m) = first(s, p) {
        assert(!p(s[m]));
    }
}

} // verus!
