//! Filtering and stable insertion sorting of sequences, and the lexicographic order of text.
use vstd::prelude::*;

use crate::search::{find_first, lemma_find_first_is, lemma_find_first_none};

verus! {

/// The elements of `s` that satisfy `p`, in order.
pub open spec fn filter_seq<A>(s: Seq<A>, p: spec_fn(A) -> bool) -> Seq<A>
    decreases s.len(),
{
    if s.len() == 0 {
        Seq::empty()
    } else if p(s.last()) {
        filter_seq(s.drop_last(), p).push(s.last())
    } else {
        filter_seq(s.drop_last(), p)
    }
}

/// Predicate: `y` comes strictly after `x` in the order `gt`.
pub open spec fn after<A>(x: A, gt: spec_fn(A, A) -> bool) -> spec_fn(A) -> bool {
    |y: A| gt(y, x)
}

/// Where a stable insertion puts `x` into `s`: before the first element that comes strictly after it.
pub open spec fn insert_pos<A>(s: Seq<A>, x: A, gt: spec_fn(A, A) -> bool) -> int {
    match find_first(s, after(x, gt)) {
        Some(i) => i,
        None => s.len() as int,
    }
}

/// `s` with `x` inserted at its stable position.
pub open spec fn insert_sorted<A>(s: Seq<A>, x: A, gt: spec_fn(A, A) -> bool) -> Seq<A> {
    s.insert(insert_pos(s, x, gt), x)
}

/// The stable sort of `s` by `gt`, element by element in order (insertion sort).
pub open spec fn insertion_sort<A>(s: Seq<A>, gt: spec_fn(A, A) -> bool) -> Seq<A>
    decreases s.len(),
{
    if s.len() == 0 {
        s
    } else {
        insert_sorted(insertion_sort(s.drop_last(), gt), s.last(), gt)
    }
}

/// Extending the input by one element extends the filter by that element when it satisfies `p`.
pub proof fn lemma_filter_push<A>(s: Seq<A>, i: int, p: spec_fn(A) -> bool)
    requires
        0 <= i < s.len(),
    ensures
        filter_seq(s.take(i + 1), p) == if p(s[i]) {
            filter_seq(s.take(i), p).push(s[i])
        } else {
            filter_seq(s.take(i), p)
        },
{
    assert(s.take(i + 1).drop_last() =~= s.take(i));
}

/// Extending the input by one element extends the insertion sort by inserting that element.
pub proof fn lemma_insertion_sort_push<A>(s: Seq<A>, i: int, gt: spec_fn(A, A) -> bool)
    requires
        0 <= i < s.len(),
    ensures
        insertion_sort(s.take(i + 1), gt) == insert_sorted(insertion_sort(s.take(i), gt), s[i], gt),
{
    assert(s.take(i + 1).drop_last() =~= s.take(i));
}

/// The stable position is the first index whose element comes strictly after `x`.
pub proof fn lemma_insert_pos_is<A>(s: Seq<A>, x: A, gt: spec_fn(A, A) -> bool, i: int)
    requires
        0 <= i <= s.len(),
        forall|j: int| 0 <= j < i ==> !gt(#[trigger] s[j], x),
        i < s.len() ==> gt(s[i], x),
    ensures
        insert_pos(s, x, gt) == i,
{
    if i < s.len() {
        assert forall|j: int| 0 <= j < i implies !after(x, gt)(#[trigger] s[j]) by {
            assert(!gt(s[j], x));
        }
        lemma_find_first_is(s, after(x, gt), i);
    } else {
        assert forall|j: int| 0 <= j < s.len() implies !after(x, gt)(#[trigger] s[j]) by {
            assert(!gt(s[j], x));
        }
        lemma_find_first_none(s, after(x, gt));
    }
}

/// `a` comes strictly before `b` in the lexicographic order of their character codes (the order of
/// `String`s, since UTF-8 encoding keeps code-point order).
pub open spec fn text_lt(a: Seq<char>, b: Seq<char>) -> bool
    decreases a.len(),
{
    if a.len() == 0 {
        b.len() > 0
    } else if b.len() == 0 {
        false
    } else if a[0] != b[0] {
        (a[0] as u32) < (b[0] as u32)
    } else {
        text_lt(a.drop_first(), b.drop_first())
    }
}

/// Whether `a` comes strictly before `b` lexicographically.
pub fn str_lt(a: &str, b: &str) -> (r: bool)
    ensures
        r == text_lt(a@, b@),
{
    let n = a.unicode_len();
    let m = b.unicode_len();
    let mut i: usize = 0;
    assert(a@.skip(0) =~= a@);
    assert(b@.skip(0) =~= b@);
    while i < n && i < m
        invariant
            n == a@.len(),
            m == b@.len(),
            i <= n,
            i <= m,
            a@.take(i as int) == b@.take(i as int),
            text_lt(a@, b@) == text_lt(a@.skip(i as int), b@.skip(i as int)),
        decreases n - i,
    {
        let x = a.get_char(i);
        let y = b.get_char(i);
        proof {
            assert(a@.skip(i as int)[0] == x);
            assert(b@.skip(i as int)[0] == y);
            assert(a@.skip(i as int).drop_first() =~= a@.skip(i + 1));
            assert(b@.skip(i as int).drop_first() =~= b@.skip(i + 1));
        }
        if x != y {
            return (x as u32) < (y as u32);
        }
        i += 1;
        proof {
            assert(a@.take(i as int) =~= a@.take(i - 1).push(x));
            assert(b@.take(i as int) =~= b@.take(i - 1).push(y));
        }
    }
    proof {
        assert(a@.skip(i as int).len() == n - i);
        assert(b@.skip(i as int).len() == m - i);
    }
    i == n && i < m
}

/// The stable position lies within the sequence's bounds.
pub proof fn lemma_insert_pos_bounds<A>(s: Seq<A>, x: A, gt: spec_fn(A, A) -> bool)
    ensures
        0 <= insert_pos(s, x, gt) <= s.len(),
{
    if let Some(i) = find_first(s, after(x, gt)) {
        assert(crate::search::is_first_match(s, after(x, gt), i));
    }
}

/// Insertion sorting keeps the length.
pub proof fn lemma_insertion_sort_len<A>(s: Seq<A>, gt: spec_fn(A, A) -> bool)
    ensures
        insertion_sort(s, gt).len() == s.len(),
    decreases s.len(),
{
    if s.len() > 0 {
        lemma_insertion_sort_len(s.drop_last(), gt);
        lemma_insert_pos_bounds(insertion_sort(s.drop_last(), gt), s.last(), gt);
    }
}

/// An element of an insertion is an old element or the inserted one.
pub proof fn lemma_insert_sorted_contains<A>(s: Seq<A>, x: A, gt: spec_fn(A, A) -> bool, y: A)
    requires
        insert_sorted(s, x, gt).contains(y),
    ensures
        s.contains(y) || y == x,
{
    lemma_insert_pos_bounds(s, x, gt);
    let pos = insert_pos(s, x, gt);
    let t = insert_sorted(s, x, gt);
    let k = choose|k: int| 0 <= k < t.len() && t[k] == y;
    if k < pos {
        assert(s[k] == y);
    } else if k > pos {
        assert(s[k - 1] == y);
    }
}

/// A filter keeps at least one element when some element satisfies the predicate.
pub proof fn lemma_filter_nonempty<A>(s: Seq<A>, p: spec_fn(A) -> bool, i: int)
    requires
        0 <= i < s.len(),
        p(s[i]),
    ensures
        filter_seq(s, p).len() > 0,
    decreases s.len(),
{
    if i < s.len() - 1 {
        lemma_filter_nonempty(s.drop_last(), p, i);
        if p(s.last()) {
        }
    }
}


/// No text comes strictly before itself.
pub proof fn lemma_text_lt_irreflexive(a: Seq<char>)
    ensures
        !text_lt(a, a),
    decreases a.len(),
{
    if a.len() > 0 {
        lemma_text_lt_irreflexive(a.drop_first());
    }
}

/// The lexicographic order is transitive.
pub proof fn lemma_text_lt_transitive(a: Seq<char>, b: Seq<char>, c: Seq<char>)
    requires
        text_lt(a, b),
        text_lt(b, c),
    ensures
        text_lt(a, c),
    decreases a.len(),
{
    if a.len() > 0 && b.len() > 0 && c.len() > 0 && a[0] == b[0] && b[0] == c[0] {
        lemma_text_lt_transitive(a.drop_first(), b.drop_first(), c.drop_first());
    }
}

proof fn lemma_char_code_injective(x: char, y: char)
    requires
        x != y,
    ensures
        (x as u32) != (y as u32),
{
    assert((x as int) != (y as int));
}

/// Two different texts are ordered one way or the other.
pub proof fn lemma_text_lt_total(a: Seq<char>, b: Seq<char>)
    requires
        a != b,
    ensures
        text_lt(a, b) || text_lt(b, a),
    decreases a.len(),
{
    if a.len() > 0 && b.len() > 0 && a[0] == b[0] {
        if a.drop_first() == b.drop_first() {
            assert(a =~= seq![a[0]] + a.drop_first());
            assert(b =~= seq![b[0]] + b.drop_first());
        }
        lemma_text_lt_total(a.drop_first(), b.drop_first());
    } else if a.len() > 0 && b.len() > 0 {
        lemma_char_code_injective(a[0], b[0]);
    } else if a.len() == 0 && b.len() == 0 {
        assert(a =~= b);
    }
}

/// Predicate: text `a` comes strictly after text `b`.
pub open spec fn text_gt() -> spec_fn(Seq<char>, Seq<char>) -> bool {
    |a: Seq<char>, b: Seq<char>| text_lt(b, a)
}

/// `s` with `x` added at its place in text order, unless it is already there.
pub open spec fn insert_text(s: Seq<Seq<char>>, x: Seq<char>) -> Seq<Seq<char>> {
    if s.contains(x) {
        s
    } else {
        insert_sorted(s, x, text_gt())
    }
}

/// Texts in strictly increasing lexicographic order (so none occurs twice).
pub open spec fn strictly_sorted(s: Seq<Seq<char>>) -> bool {
    forall|i: int, j: int| 0 <= i < j < s.len() ==> text_lt(s[i], s[j])
}

/// The texts of a sequence of strings.
pub open spec fn texts(s: Seq<String>) -> Seq<Seq<char>> {
    s.map_values(|t: String| t@)
}

/// Adds `x` to a strictly sorted set of strings, unless it is already there.
pub fn insert_sorted_unique(v: &mut Vec<String>, x: String)
    requires
        strictly_sorted(texts(old(v)@)),
    ensures
        strictly_sorted(texts(final(v)@)),
        texts(final(v)@) == insert_text(texts(old(v)@), x@),
        forall|t: Seq<char>| texts(final(v)@).contains(t) <==> (texts(old(v)@).contains(t) || t == x@),
{
    let ghost old_t = texts(v@);
    let mut pos: usize = 0;
    while pos < v.len() && str_lt(v[pos].as_str(), x.as_str())
        invariant
            old_t == texts(v@),
            pos <= v@.len(),
            forall|j: int| 0 <= j < pos ==> text_lt(#[trigger] old_t[j], x@),
        decreases v@.len() - pos,
    {
        pos += 1;
    }
    if pos < v.len() && crate::mem_layout::str_eq(v[pos].as_str(), x.as_str()) {
        assert(old_t[pos as int] == x@);
        assert forall|t: Seq<char>| old_t.contains(t) <==> (old_t.contains(t) || t == x@) by {
            if t == x@ {
                assert(old_t[pos as int] == t);
            }
        }
        return;
    }
    proof {
        if pos < old_t.len() {
            lemma_text_lt_total(old_t[pos as int], x@);
        }
        assert forall|j: int| 0 <= j < pos implies !text_gt()(#[trigger] old_t[j], x@) by {
            if text_lt(x@, old_t[j]) {
                lemma_text_lt_transitive(x@, old_t[j], x@);
                lemma_text_lt_irreflexive(x@);
            }
        }
        lemma_insert_pos_is(old_t, x@, text_gt(), pos as int);
        assert(!old_t.contains(x@)) by {
            if old_t.contains(x@) {
                let k = choose|k: int| 0 <= k < old_t.len() && old_t[k] == x@;
                if k < pos {
                    lemma_text_lt_irreflexive(x@);
                } else if k > pos {
                    lemma_text_lt_transitive(x@, old_t[pos as int], old_t[k]);
                    lemma_text_lt_irreflexive(x@);
                }
            }
        }
    }
    v.insert(pos, x);
    let ghost nt = texts(v@);
    assert(nt =~= old_t.insert(pos as int, x@));
    assert forall|i: int, j: int| 0 <= i < j < nt.len() implies text_lt(nt[i], nt[j]) by {
        if j < pos {
            assert(nt[i] == old_t[i] && nt[j] == old_t[j]);
        } else if j == pos {
            assert(nt[i] == old_t[i]);
        } else if i == pos {
            assert(nt[j] == old_t[j - 1]);
            if j - 1 > pos {
                lemma_text_lt_transitive(x@, old_t[pos as int], old_t[j - 1]);
            }
        } else if i < pos {
            assert(nt[i] == old_t[i] && nt[j] == old_t[j - 1]);
        } else {
            assert(nt[i] == old_t[i - 1] && nt[j] == old_t[j - 1]);
        }
    }
    assert forall|t: Seq<char>| nt.contains(t) <==> (old_t.contains(t) || t == x@) by {
        if nt.contains(t) {
            let k = choose|k: int| 0 <= k < nt.len() && nt[k] == t;
            if k < pos {
                assert(old_t[k] == t);
            } else if k > pos {
                assert(old_t[k - 1] == t);
            }
        }
        if old_t.contains(t) {
            let k = choose|k: int| 0 <= k < old_t.len() && old_t[k] == t;
            if k < pos {
                assert(nt[k] == t);
            } else {
                assert(nt[k + 1] == t);
            }
        }
        if t == x@ {
            assert(nt[pos as int] == t);
        }
    }
}


/// Every element of the input is an element of its insertion sort.
pub proof fn lemma_insertion_sort_keeps<A>(s: Seq<A>, gt: spec_fn(A, A) -> bool, y: A)
    requires
        s.contains(y),
    ensures
        insertion_sort(s, gt).contains(y),
    decreases s.len(),
{
    let k = choose|k: int| 0 <= k < s.len() && s[k] == y;
    let rest = insertion_sort(s.drop_last(), gt);
    lemma_insert_pos_bounds(rest, s.last(), gt);
    let pos = insert_pos(rest, s.last(), gt);
    let t = insert_sorted(rest, s.last(), gt);
    if k == s.len() - 1 {
        assert(t[pos] == y);
    } else {
        assert(s.drop_last()[k] == y);
        lemma_insertion_sort_keeps(s.drop_last(), gt, y);
        let j = choose|j: int| 0 <= j < rest.len() && rest[j] == y;
        if j < pos {
            assert(t[j] == y);
        } else {
            assert(t[j + 1] == y);
        }
    }
}

/// Every element of an insertion sort is an element of the input.
pub proof fn lemma_insertion_sort_contains<A>(s: Seq<A>, gt: spec_fn(A, A) -> bool, y: A)
    requires
        insertion_sort(s, gt).contains(y),
    ensures
        s.contains(y),
    decreases s.len(),
{
    if s.len() > 0 {
        lemma_insert_sorted_contains(insertion_sort(s.drop_last(), gt), s.last(), gt, y);
        if insertion_sort(s.drop_last(), gt).contains(y) {
            lemma_insertion_sort_contains(s.drop_last(), gt, y);
            let k = choose|k: int| 0 <= k < s.drop_last().len() && s.drop_last()[k] == y;
            assert(s[k] == y);
        } else {
            assert(s[s.len() - 1] == y);
        }
    }
}

} // verus!
