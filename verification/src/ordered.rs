//! Ascending sequences.
//!
//! The view of a tree is the sequence of its elements from left to right. This
//! module says what it means for such a sequence to be ascending, to hold an
//! element, and to receive one more element at its sorted place.

use crate::order::{
    lemma_lt_transitive, lemma_same_congruent, lemma_same_reflexive, lemma_trichotomy, lt, same,
    total_order,
};
use vstd::prelude::*;

verus! {

/// Each element sorts strictly before all that follow it.
pub open spec fn ascending<T: Ord>(s: Seq<T>) -> bool {
    forall|i: int, j: int| 0 <= i < j < s.len() ==> #[trigger] lt(s[i], s[j])
}

/// `s` holds an element that takes the place of `e` in the order.
pub open spec fn has<T: Ord>(s: Seq<T>, e: T) -> bool {
    exists|i: int| 0 <= i < s.len() && #[trigger] same(s[i], e)
}

/// Sorting strictly before `e`, as a predicate.
pub open spec fn before<T: Ord>(e: T) -> spec_fn(T) -> bool {
    |x: T| lt(x, e)
}

/// Sorting strictly after `e`, as a predicate.
pub open spec fn after<T: Ord>(e: T) -> spec_fn(T) -> bool {
    |x: T| lt(e, x)
}

/// `s` after `e` was put in: the elements that sort before `e`, then `e`,
/// then the elements that sort after `e`. An element that takes the place of
/// `e` gives way to it.
pub open spec fn insert_sorted<T: Ord>(s: Seq<T>, e: T) -> Seq<T> {
    s.filter(before(e)).push(e) + s.filter(after(e))
}

/// Every element of `s` satisfies `p`.
pub open spec fn all<T>(s: Seq<T>, p: spec_fn(T) -> bool) -> bool {
    forall|i: int| 0 <= i < s.len() ==> #[trigger] p(s[i])
}

/// No element of `s` satisfies `p`.
pub open spec fn none<T>(s: Seq<T>, p: spec_fn(T) -> bool) -> bool {
    forall|i: int| 0 <= i < s.len() ==> !#[trigger] p(s[i])
}

/// A filter that every element passes keeps the sequence.
pub proof fn lemma_filter_all<T>(s: Seq<T>, p: spec_fn(T) -> bool)
    requires
        all(s, p),
    ensures
        s.filter(p) == s,
    decreases s.len(),
{
    reveal(Seq::filter);
    if s.len() > 0 {
        assert(p(s[s.len() - 1]));
        lemma_filter_all(s.drop_last(), p);
        assert(s.drop_last().push(s.last()) =~= s);
    }
}

/// A filter that no element passes leaves nothing.
pub proof fn lemma_filter_none<T>(s: Seq<T>, p: spec_fn(T) -> bool)
    requires
        none(s, p),
    ensures
        s.filter(p) == Seq::<T>::empty(),
    decreases s.len(),
{
    reveal(Seq::filter);
    if s.len() > 0 {
        assert(!p(s[s.len() - 1]));
        lemma_filter_none(s.drop_last(), p);
    }
}

/// The parts of an ascending sequence around one of its elements: both parts
/// are ascending, the front sorts before the element and the back after it.
pub proof fn lemma_ascending_parts<T: Ord>(l: Seq<T>, k: T, r: Seq<T>)
    requires
        ascending(l.push(k) + r),
    ensures
        ascending(l),
        ascending(r),
        all(l, before(k)),
        all(r, after(k)),
{
    let s = l.push(k) + r;
    assert forall|i: int, j: int| 0 <= i < j < l.len() implies #[trigger] lt(l[i], l[j]) by {
        assert(lt(s[i], s[j]));
    }
    assert forall|i: int, j: int| 0 <= i < j < r.len() implies #[trigger] lt(r[i], r[j]) by {
        assert(lt(s[l.len() + 1 + i], s[l.len() + 1 + j]));
    }
    assert forall|i: int| 0 <= i < l.len() implies #[trigger] before(k)(l[i]) by {
        assert(lt(s[i], s[l.len() as int]));
    }
    assert forall|i: int| 0 <= i < r.len() implies #[trigger] after(k)(r[i]) by {
        assert(lt(s[l.len() as int], s[l.len() + 1 + i]));
    }
}

/// Two ascending sequences around an element that sorts between them make one
/// ascending sequence.
pub proof fn lemma_ascending_joined<T: Ord>(l: Seq<T>, k: T, r: Seq<T>)
    requires
        total_order::<T>(),
        ascending(l),
        ascending(r),
        all(l, before(k)),
        all(r, after(k)),
    ensures
        ascending(l.push(k) + r),
{
    let s = l.push(k) + r;
    assert forall|i: int, j: int| 0 <= i < j < s.len() implies #[trigger] lt(s[i], s[j]) by {
        if j < l.len() {
            assert(lt(l[i], l[j]));
        } else if j == l.len() {
            assert(before(k)(l[i]));
        } else if i < l.len() {
            assert(before(k)(l[i]));
            assert(after(k)(r[j - l.len() - 1]));
            lemma_lt_transitive(l[i], k, r[j - l.len() - 1]);
        } else if i == l.len() {
            assert(after(k)(r[j - l.len() - 1]));
        } else {
            assert(lt(r[i - l.len() - 1], r[j - l.len() - 1]));
        }
    }
}

/// Putting `e` into an ascending sequence around `k`, where `e` sorts before
/// `k`, puts it into the front part.
pub proof fn lemma_insert_sorted_front<T: Ord>(l: Seq<T>, k: T, r: Seq<T>, e: T)
    requires
        total_order::<T>(),
        ascending(l.push(k) + r),
        lt(e, k),
    ensures
        insert_sorted(l.push(k) + r, e) == insert_sorted(l, e).push(k) + r,
{
    lemma_ascending_parts(l, k, r);
    let one = Seq::<T>::empty().push(k);
    assert(l.push(k) =~= l + one);
    lemma_trichotomy(e, k);
    assert forall|i: int| 0 <= i < r.len() implies #[trigger] after(e)(r[i]) by {
        assert(after(k)(r[i]));
        lemma_lt_transitive(e, k, r[i]);
    }
    assert forall|i: int| 0 <= i < r.len() implies !#[trigger] before(e)(r[i]) by {
        assert(after(e)(r[i]));
        lemma_trichotomy(e, r[i]);
    }
    assert(all(one, after(e)));
    assert(none(one, before(e)));
    lemma_filter_all(r, after(e));
    lemma_filter_none(r, before(e));
    lemma_filter_all(one, after(e));
    lemma_filter_none(one, before(e));
    Seq::filter_distributes_over_add(l, one, before(e));
    Seq::filter_distributes_over_add(l + one, r, before(e));
    Seq::filter_distributes_over_add(l, one, after(e));
    Seq::filter_distributes_over_add(l + one, r, after(e));
    assert(insert_sorted(l.push(k) + r, e) =~= insert_sorted(l, e).push(k) + r);
}

/// Putting `e` into an ascending sequence around `k`, where `e` sorts after
/// `k`, puts it into the back part.
pub proof fn lemma_insert_sorted_back<T: Ord>(l: Seq<T>, k: T, r: Seq<T>, e: T)
    requires
        total_order::<T>(),
        ascending(l.push(k) + r),
        lt(k, e),
    ensures
        insert_sorted(l.push(k) + r, e) == l.push(k) + insert_sorted(r, e),
{
    lemma_ascending_parts(l, k, r);
    let one = Seq::<T>::empty().push(k);
    assert(l.push(k) =~= l + one);
    lemma_trichotomy(k, e);
    assert forall|i: int| 0 <= i < l.len() implies #[trigger] before(e)(l[i]) by {
        assert(before(k)(l[i]));
        lemma_lt_transitive(l[i], k, e);
    }
    assert forall|i: int| 0 <= i < l.len() implies !#[trigger] after(e)(l[i]) by {
        assert(before(e)(l[i]));
        lemma_trichotomy(l[i], e);
    }
    assert(all(one, before(e)));
    assert(none(one, after(e)));
    lemma_filter_all(l, before(e));
    lemma_filter_none(l, after(e));
    lemma_filter_all(one, before(e));
    lemma_filter_none(one, after(e));
    Seq::filter_distributes_over_add(l, one, before(e));
    Seq::filter_distributes_over_add(l + one, r, before(e));
    Seq::filter_distributes_over_add(l, one, after(e));
    Seq::filter_distributes_over_add(l + one, r, after(e));
    assert(insert_sorted(l.push(k) + r, e) =~= l.push(k) + insert_sorted(r, e));
}

/// Putting `e` into an ascending sequence around `k`, where `e` takes the
/// place of `k`, replaces `k`.
pub proof fn lemma_insert_sorted_here<T: Ord>(l: Seq<T>, k: T, r: Seq<T>, e: T)
    requires
        total_order::<T>(),
        ascending(l.push(k) + r),
        same(k, e),
    ensures
        insert_sorted(l.push(k) + r, e) == l.push(e) + r,
{
    lemma_ascending_parts(l, k, r);
    let one = Seq::<T>::empty().push(k);
    assert(l.push(k) =~= l + one);
    lemma_trichotomy(k, e);
    lemma_trichotomy(e, k);
    assert forall|i: int| 0 <= i < l.len() implies #[trigger] before(e)(l[i]) by {
        assert(before(k)(l[i]));
        lemma_same_congruent(k, e, l[i]);
    }
    assert forall|i: int| 0 <= i < l.len() implies !#[trigger] after(e)(l[i]) by {
        assert(before(e)(l[i]));
        lemma_trichotomy(l[i], e);
    }
    assert forall|i: int| 0 <= i < r.len() implies #[trigger] after(e)(r[i]) by {
        assert(after(k)(r[i]));
        lemma_same_congruent(k, e, r[i]);
    }
    assert forall|i: int| 0 <= i < r.len() implies !#[trigger] before(e)(r[i]) by {
        assert(after(e)(r[i]));
        lemma_trichotomy(e, r[i]);
    }
    assert(none(one, before(e)));
    assert(none(one, after(e)));
    lemma_filter_all(l, before(e));
    lemma_filter_none(l, after(e));
    lemma_filter_all(r, after(e));
    lemma_filter_none(r, before(e));
    lemma_filter_none(one, before(e));
    lemma_filter_none(one, after(e));
    Seq::filter_distributes_over_add(l, one, before(e));
    Seq::filter_distributes_over_add(l + one, r, before(e));
    Seq::filter_distributes_over_add(l, one, after(e));
    Seq::filter_distributes_over_add(l + one, r, after(e));
    assert(insert_sorted(l.push(k) + r, e) =~= l.push(e) + r);
}

/// Where an ascending sequence around `k` can hold `e`: in its front part if
/// `e` sorts before `k`, in its back part if `e` sorts after `k`, and at `k`
/// itself otherwise.
pub proof fn lemma_has_around<T: Ord>(l: Seq<T>, k: T, r: Seq<T>, e: T)
    requires
        total_order::<T>(),
        ascending(l.push(k) + r),
    ensures
        lt(e, k) ==> has(l.push(k) + r, e) == has(l, e),
        lt(k, e) ==> has(l.push(k) + r, e) == has(r, e),
        same(k, e) ==> has(l.push(k) + r, e),
{
    let s = l.push(k) + r;
    lemma_ascending_parts(l, k, r);
    lemma_trichotomy(k, e);
    lemma_trichotomy(e, k);
    assert(s[l.len() as int] == k);
    if has(l, e) {
        let i = choose|i: int| 0 <= i < l.len() && #[trigger] same(l[i], e);
        assert(same(s[i], e));
    }
    if has(r, e) {
        let i = choose|i: int| 0 <= i < r.len() && #[trigger] same(r[i], e);
        assert(same(s[l.len() + 1 + i], e));
    }
    if has(s, e) && !same(k, e) {
        let i = choose|i: int| 0 <= i < s.len() && #[trigger] same(s[i], e);
        if i < l.len() {
            assert(same(l[i], e));
            assert(before(k)(l[i]));
            lemma_same_congruent(l[i], e, k);
        } else {
            assert(same(r[i - l.len() - 1], e));
            assert(after(k)(r[i - l.len() - 1]));
            lemma_same_congruent(r[i - l.len() - 1], e, k);
        }
    }
}

/// What holds of every element of a sequence holds of every element that
/// passes a filter.
pub proof fn lemma_filter_keeps<T>(s: Seq<T>, p: spec_fn(T) -> bool, q: spec_fn(T) -> bool)
    requires
        all(s, q),
    ensures
        all(s.filter(p), q),
    decreases s.len(),
{
    reveal(Seq::filter);
    if s.len() > 0 {
        let front = s.drop_last();
        assert forall|i: int| 0 <= i < front.len() implies #[trigger] q(front[i]) by {
            assert(q(s[i]));
        }
        lemma_filter_keeps(front, p, q);
        assert(q(s[s.len() - 1]));
    }
}

/// The elements of an ascending sequence that pass a filter are ascending.
pub proof fn lemma_filter_ascending<T: Ord>(s: Seq<T>, p: spec_fn(T) -> bool)
    requires
        ascending(s),
    ensures
        ascending(s.filter(p)),
    decreases s.len(),
{
    reveal(Seq::filter);
    if s.len() > 0 {
        let front = s.drop_last();
        let x = s.last();
        assert forall|i: int, j: int| 0 <= i < j < front.len() implies #[trigger] lt(
            front[i],
            front[j],
        ) by {
            assert(lt(s[i], s[j]));
        }
        lemma_filter_ascending(front, p);
        assert forall|i: int| 0 <= i < front.len() implies #[trigger] before(x)(front[i]) by {
            assert(lt(s[i], s[s.len() - 1]));
        }
        lemma_filter_keeps(front, p, before(x));
        let kept = front.filter(p);
        assert forall|i: int, j: int| 0 <= i < j < kept.push(x).len() implies #[trigger] lt(
            kept.push(x)[i],
            kept.push(x)[j],
        ) by {
            if j < kept.len() {
                assert(lt(kept[i], kept[j]));
            } else {
                assert(before(x)(kept[i]));
            }
        }
    }
}

/// Putting an element into an ascending sequence leaves it ascending.
pub proof fn lemma_insert_sorted_ascending<T: Ord>(s: Seq<T>, e: T)
    requires
        total_order::<T>(),
        ascending(s),
    ensures
        ascending(insert_sorted(s, e)),
{
    let front = s.filter(before(e));
    let back = s.filter(after(e));
    lemma_filter_ascending(s, before(e));
    lemma_filter_ascending(s, after(e));
    assert forall|i: int| 0 <= i < front.len() implies #[trigger] before(e)(front[i]) by {
        s.lemma_filter_pred(before(e), i);
    }
    assert forall|i: int| 0 <= i < back.len() implies #[trigger] after(e)(back[i]) by {
        s.lemma_filter_pred(after(e), i);
    }
    lemma_ascending_joined(front, e, back);
}

/// After `e` was put in, a sequence holds what it held before and `e`.
pub proof fn lemma_insert_sorted_has<T: Ord>(s: Seq<T>, e: T, x: T)
    requires
        total_order::<T>(),
    ensures
        has(insert_sorted(s, e), x) == (has(s, x) || same(e, x)),
{
    let front = s.filter(before(e));
    let back = s.filter(after(e));
    let out = insert_sorted(s, e);
    assert(out[front.len() as int] == e);
    if has(s, x) && !same(e, x) {
        let i = choose|i: int| 0 <= i < s.len() && #[trigger] same(s[i], x);
        lemma_trichotomy(s[i], e);
        if same(s[i], e) {
            lemma_same_congruent(s[i], e, x);
        } else if lt(s[i], e) {
            s.lemma_filter_contains(before(e), i);
            let j = choose|j: int| 0 <= j < front.len() && front[j] == s[i];
            assert(same(out[j], x));
        } else {
            s.lemma_filter_contains(after(e), i);
            let j = choose|j: int| 0 <= j < back.len() && back[j] == s[i];
            assert(same(out[front.len() + 1 + j], x));
        }
    }
    if has(out, x) && !same(e, x) {
        let i = choose|i: int| 0 <= i < out.len() && #[trigger] same(out[i], x);
        if i < front.len() {
            assert(front.contains(front[i]));
            s.lemma_filter_contains_rev(before(e), front[i]);
            let j = choose|j: int| 0 <= j < s.len() && s[j] == front[i];
            assert(same(s[j], x));
        } else {
            let k = i - front.len() - 1;
            assert(back.contains(back[k]));
            s.lemma_filter_contains_rev(after(e), back[k]);
            let j = choose|j: int| 0 <= j < s.len() && s[j] == back[k];
            assert(same(s[j], x));
        }
    }
}

/// Putting an element into an ascending sequence that holds it already keeps
/// the length; otherwise the sequence grows by one.
pub proof fn lemma_insert_sorted_len<T: Ord>(s: Seq<T>, e: T)
    requires
        total_order::<T>(),
        ascending(s),
    ensures
        insert_sorted(s, e).len() == if has(s, e) {
            s.len()
        } else {
            s.len() + 1
        },
    decreases s.len(),
{
    reveal(Seq::filter);
    if s.len() > 0 {
        let front = s.drop_last();
        let x = s.last();
        assert forall|i: int, j: int| 0 <= i < j < front.len() implies #[trigger] lt(
            front[i],
            front[j],
        ) by {
            assert(lt(s[i], s[j]));
        }
        lemma_insert_sorted_len(front, e);
        lemma_trichotomy(x, e);
        lemma_trichotomy(e, x);
        if has(front, e) {
            let i = choose|i: int| 0 <= i < front.len() && #[trigger] same(front[i], e);
            assert(same(s[i], e));
            assert(lt(s[i], s[s.len() - 1]));
            lemma_same_congruent(s[i], e, x);
        }
        if same(x, e) {
            assert(same(s[s.len() - 1], e));
        }
        if has(s, e) && !same(x, e) {
            let i = choose|i: int| 0 <= i < s.len() && #[trigger] same(s[i], e);
            assert(same(front[i], e));
        }
    } else {
        assert(s.filter(before(e)).len() == 0);
        assert(s.filter(after(e)).len() == 0);
    }
}

/// An ascending sequence without its first element is ascending, and that
/// first element sorts before all the others.
pub proof fn lemma_ascending_rest<T: Ord>(s: Seq<T>)
    requires
        ascending(s),
        s.len() > 0,
    ensures
        ascending(s.drop_first()),
        all(s.drop_first(), after(s.first())),
{
    let rest = s.drop_first();
    assert forall|i: int, j: int| 0 <= i < j < rest.len() implies #[trigger] lt(rest[i], rest[j]) by {
        assert(lt(s[i + 1], s[j + 1]));
    }
    assert forall|i: int| 0 <= i < rest.len() implies #[trigger] after(s.first())(rest[i]) by {
        assert(lt(s[0], s[i + 1]));
    }
}

/// Putting an element into the empty sequence gives the sequence of that
/// element alone.
pub proof fn lemma_insert_sorted_empty<T: Ord>(e: T)
    ensures
        insert_sorted(Seq::<T>::empty(), e) == seq![e],
{
    let empty = Seq::<T>::empty();
    assert(none(empty, before(e)));
    assert(none(empty, after(e)));
    lemma_filter_none(empty, before(e));
    lemma_filter_none(empty, after(e));
    assert(insert_sorted(empty, e) =~= seq![e]);
}

/// Where an element goes in an ascending sequence, told from the first
/// element: in front of it, in its place, or somewhere behind it.
pub proof fn lemma_insert_sorted_first<T: Ord>(s: Seq<T>, e: T)
    requires
        total_order::<T>(),
        ascending(s),
        s.len() > 0,
    ensures
        lt(e, s.first()) ==> insert_sorted(s, e) == seq![e] + s,
        same(s.first(), e) ==> insert_sorted(s, e) == seq![e] + s.drop_first(),
        lt(s.first(), e) ==> insert_sorted(s, e) == seq![s.first()] + insert_sorted(
            s.drop_first(),
            e,
        ),
{
    let empty = Seq::<T>::empty();
    let k = s.first();
    let r = s.drop_first();
    assert(s =~= empty.push(k) + r);
    lemma_insert_sorted_empty(e);
    if lt(e, k) {
        lemma_insert_sorted_front(empty, k, r, e);
        assert(seq![e].push(k) + r =~= seq![e] + s);
    }
    if same(k, e) {
        lemma_insert_sorted_here(empty, k, r, e);
        assert(empty.push(e) + r =~= seq![e] + r);
    }
    if lt(k, e) {
        lemma_insert_sorted_back(empty, k, r, e);
        assert(empty.push(k) + insert_sorted(r, e) =~= seq![k] + insert_sorted(r, e));
    }
}

/// Where no other element takes the place of `e` in the order, a sequence
/// holds `e` exactly if `e` is one of its elements.
pub proof fn lemma_has_contains<T: Ord>(s: Seq<T>, e: T)
    requires
        total_order::<T>(),
        forall|x: T| #[trigger] same(x, e) ==> x == e,
    ensures
        has(s, e) == s.contains(e),
{
    lemma_same_reflexive(e);
    if has(s, e) {
        let i = choose|i: int| 0 <= i < s.len() && #[trigger] same(s[i], e);
        assert(s[i] == e);
    }
    if s.contains(e) {
        let i = choose|i: int| 0 <= i < s.len() && s[i] == e;
        assert(same(s[i], e));
    }
}

} // verus!
