//! Specifications of linear search: the first position of a sequence that satisfies a predicate.
use vstd::prelude::*;

verus! {

/// `i` is the first position of `s` whose element satisfies `p`.
pub open spec fn is_first_match<A>(s: Seq<A>, p: spec_fn(A) -> bool, i: int) -> bool {
    &&& 0 <= i < s.len()
    &&& p(s[i])
    &&& forall|j: int| 0 <= j < i ==> !p(#[trigger] s[j])
}

/// The first position of `s` whose element satisfies `p`, if there is one.
pub open spec fn find_first<A>(s: Seq<A>, p: spec_fn(A) -> bool) -> Option<int> {
    if exists|i: int| is_first_match(s, p, i) {
        Some(choose|i: int| is_first_match(s, p, i))
    } else {
        None
    }
}

/// The element found by `find_first`, if any.
pub open spec fn find_first_elem<A>(s: Seq<A>, p: spec_fn(A) -> bool) -> Option<A> {
    match find_first(s, p) {
        Some(i) => Some(s[i]),
        None => None,
    }
}

/// A first match is unique, so `find_first` returns it.
pub proof fn lemma_find_first_is<A>(s: Seq<A>, p: spec_fn(A) -> bool, i: int)
    requires
        is_first_match(s, p, i),
    ensures
        find_first(s, p) == Some(i),
{
    let k = choose|k: int| is_first_match(s, p, k);
    assert(is_first_match(s, p, k));
    if k < i {
        assert(!p(s[k]));
    } else if i < k {
        assert(!p(s[i]));
    }
}

/// When no element satisfies `p`, `find_first` returns `None`.
pub proof fn lemma_find_first_none<A>(s: Seq<A>, p: spec_fn(A) -> bool)
    requires
        forall|j: int| 0 <= j < s.len() ==> !p(#[trigger] s[j]),
    ensures
        find_first(s, p) is None,
{
    if exists|i: int| is_first_match(s, p, i) {
        let k = choose|i: int| is_first_match(s, p, i);
        assert(p(s[k]));
    }
}

/// Any element satisfying `p` means that `find_first` succeeds at or before it.
pub proof fn lemma_find_first_some<A>(s: Seq<A>, p: spec_fn(A) -> bool, i: int)
    requires
        0 <= i < s.len(),
        p(s[i]),
    ensures
        find_first(s, p) matches Some(k) && k <= i && is_first_match(s, p, k),
    decreases i,
{
    if forall|j: int| 0 <= j < i ==> !p(#[trigger] s[j]) {
        lemma_find_first_is(s, p, i);
    } else {
        let j = choose|j: int| 0 <= j < i && p(#[trigger] s[j]);
        lemma_find_first_some(s, p, j);
    }
}

} // verus!

verus! {

/// `i` is the last position of `s` whose element satisfies `p`.
pub open spec fn is_last_match<A>(s: Seq<A>, p: spec_fn(A) -> bool, i: int) -> bool {
    &&& 0 <= i < s.len()
    &&& p(s[i])
    &&& forall|j: int| i < j < s.len() ==> !p(#[trigger] s[j])
}

/// The last position of `s` whose element satisfies `p`, if there is one.
pub open spec fn find_last<A>(s: Seq<A>, p: spec_fn(A) -> bool) -> Option<int> {
    if exists|i: int| is_last_match(s, p, i) {
        Some(choose|i: int| is_last_match(s, p, i))
    } else {
        None
    }
}

pub proof fn lemma_find_last_is<A>(s: Seq<A>, p: spec_fn(A) -> bool, i: int)
    requires
        is_last_match(s, p, i),
    ensures
        find_last(s, p) == Some(i),
{
    let k = choose|k: int| is_last_match(s, p, k);
    assert(is_last_match(s, p, k));
    if k < i {
        assert(!p(s[i]));
    } else if i < k {
        assert(!p(s[k]));
    }
}

pub proof fn lemma_find_last_none<A>(s: Seq<A>, p: spec_fn(A) -> bool)
    requires
        forall|j: int| 0 <= j < s.len() ==> !p(#[trigger] s[j]),
    ensures
        find_last(s, p) is None,
{
    if exists|i: int| is_last_match(s, p, i) {
        let k = choose|i: int| is_last_match(s, p, i);
        assert(p(s[k]));
    }
}

} // verus!
