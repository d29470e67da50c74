//! Runs of operations.
//!
//! What a set holds after several insertions, and in which order its elements
//! come out when the smallest one is taken again and again.

use crate::order::{lemma_trichotomy, lt, same, total_order};
use crate::ordered::{
    after, ascending, before, has, insert_sorted, lemma_insert_sorted_ascending,
    lemma_insert_sorted_has, lemma_insert_sorted_len,
};
use vstd::prelude::*;

verus! {

/// `s` after the elements of `elems` were put in, one after the other.
pub open spec fn insert_all<T: Ord>(s: Seq<T>, elems: Seq<T>) -> Seq<T>
    decreases elems.len(),
{
    if elems.len() == 0 {
        s
    } else {
        insert_sorted(insert_all(s, elems.drop_last()), elems.last())
    }
}

/// No two elements of `s` take the same place in the order.
pub open spec fn distinct<T: Ord>(s: Seq<T>) -> bool {
    forall|i: int, j: int| 0 <= i < j < s.len() ==> !#[trigger] same(s[i], s[j])
}

/// After any run of insertions into an ascending sequence, the sequence is
/// ascending: no element comes twice and none comes out of order.
pub proof fn lemma_insert_all_ascending<T: Ord>(s: Seq<T>, elems: Seq<T>)
    requires
        total_order::<T>(),
        ascending(s),
    ensures
        ascending(insert_all(s, elems)),
    decreases elems.len(),
{
    if elems.len() > 0 {
        lemma_insert_all_ascending(s, elems.drop_last());
        lemma_insert_sorted_ascending(insert_all(s, elems.drop_last()), elems.last());
    }
}

/// After any run of insertions, a sequence holds what it held before and
/// what was put in, and nothing else.
pub proof fn lemma_insert_all_has<T: Ord>(s: Seq<T>, elems: Seq<T>, x: T)
    requires
        total_order::<T>(),
    ensures
        has(insert_all(s, elems), x) == (has(s, x) || has(elems, x)),
    decreases elems.len(),
{
    if elems.len() > 0 {
        let front = elems.drop_last();
        let e = elems.last();
        lemma_insert_all_has(s, front, x);
        lemma_insert_sorted_has(insert_all(s, front), e, x);
        if has(front, x) {
            let i = choose|i: int| 0 <= i < front.len() && #[trigger] same(front[i], x);
            assert(same(elems[i], x));
        }
        if same(e, x) {
            assert(same(elems[elems.len() - 1], x));
        }
        if has(elems, x) && !same(e, x) {
            let i = choose|i: int| 0 <= i < elems.len() && #[trigger] same(elems[i], x);
            assert(same(front[i], x));
        }
    }
}

/// After a run of insertions into an ascending sequence, the sequence has
/// grown by one for each element that it did not hold when that element was
/// put in. An element that it held already leaves the length as it was.
pub proof fn lemma_insert_all_len<T: Ord>(s: Seq<T>, elems: Seq<T>)
    requires
        total_order::<T>(),
        ascending(s),
        elems.len() > 0,
    ensures
        insert_all(s, elems).len() == insert_all(s, elems.drop_last()).len() + if has(s, elems.last())
            || has(elems.drop_last(), elems.last()) {
            0int
        } else {
            1int
        },
{
    let front = elems.drop_last();
    let e = elems.last();
    lemma_insert_all_ascending(s, front);
    lemma_insert_all_has(s, front, e);
    lemma_insert_sorted_len(insert_all(s, front), e);
}

/// After a run of insertions of distinct elements into the empty sequence,
/// the sequence is as long as the run.
pub proof fn lemma_insert_all_distinct_len<T: Ord>(elems: Seq<T>)
    requires
        total_order::<T>(),
        distinct(elems),
    ensures
        insert_all(Seq::<T>::empty(), elems).len() == elems.len(),
    decreases elems.len(),
{
    if elems.len() > 0 {
        let front = elems.drop_last();
        let e = elems.last();
        assert forall|i: int, j: int| 0 <= i < j < front.len() implies !#[trigger] same(
            front[i],
            front[j],
        ) by {
            assert(!same(elems[i], elems[j]));
        }
        lemma_insert_all_distinct_len(front);
        assert(ascending(Seq::<T>::empty()));
        lemma_insert_all_len(Seq::<T>::empty(), elems);
        if has(front, e) {
            let i = choose|i: int| 0 <= i < front.len() && #[trigger] same(front[i], e);
            assert(!same(elems[i], elems[elems.len() - 1]));
        }
    }
}

/// The element that is put in is in the sequence afterwards, and so is every
/// element that was there and does not take its place.
pub proof fn lemma_insert_sorted_contains<T: Ord>(s: Seq<T>, e: T)
    requires
        total_order::<T>(),
    ensures
        insert_sorted(s, e).contains(e),
        forall|i: int|
            0 <= i < s.len() && !same(s[i], e) ==> insert_sorted(s, e).contains(#[trigger] s[i]),
        forall|i: int|
            0 <= i < insert_sorted(s, e).len() ==> insert_sorted(s, e)[i] == e || s.contains(
                #[trigger] insert_sorted(s, e)[i],
            ),
{
    let front = s.filter(before(e));
    let back = s.filter(after(e));
    let out = insert_sorted(s, e);
    assert(out[front.len() as int] == e);
    assert forall|i: int| 0 <= i < s.len() && !same(s[i], e) implies out.contains(
        #[trigger] s[i],
    ) by {
        lemma_trichotomy(s[i], e);
        if lt(s[i], e) {
            s.lemma_filter_contains(before(e), i);
            let j = choose|j: int| 0 <= j < front.len() && front[j] == s[i];
            assert(out[j] == s[i]);
        } else {
            s.lemma_filter_contains(after(e), i);
            let j = choose|j: int| 0 <= j < back.len() && back[j] == s[i];
            assert(out[front.len() + 1 + j] == s[i]);
        }
    }
    assert forall|i: int| 0 <= i < out.len() implies out[i] == e || s.contains(
        #[trigger] out[i],
    ) by {
        if i < front.len() {
            assert(front.contains(front[i]));
            s.lemma_filter_contains_rev(before(e), front[i]);
        } else if i > front.len() {
            let k = i - front.len() - 1;
            assert(back.contains(back[k]));
            s.lemma_filter_contains_rev(after(e), back[k]);
        }
    }
}

/// A run of insertions of distinct elements into the empty sequence gives
/// the sorted arrangement of those elements: an ascending sequence of the
/// same length that is made of exactly the elements of the run.
pub proof fn lemma_insert_all_arranges<T: Ord>(elems: Seq<T>)
    requires
        total_order::<T>(),
        distinct(elems),
    ensures
        ascending(insert_all(Seq::<T>::empty(), elems)),
        insert_all(Seq::<T>::empty(), elems).len() == elems.len(),
        forall|j: int|
            0 <= j < elems.len() ==> insert_all(Seq::<T>::empty(), elems).contains(
                #[trigger] elems[j],
            ),
        forall|i: int|
            0 <= i < insert_all(Seq::<T>::empty(), elems).len() ==> elems.contains(
                #[trigger] insert_all(Seq::<T>::empty(), elems)[i],
            ),
    decreases elems.len(),
{
    let empty = Seq::<T>::empty();
    let out = insert_all(empty, elems);
    assert(ascending(empty));
    lemma_insert_all_ascending(empty, elems);
    lemma_insert_all_distinct_len(elems);
    if elems.len() > 0 {
        let front = elems.drop_last();
        let e = elems.last();
        let mid = insert_all(empty, front);
        assert forall|i: int, j: int| 0 <= i < j < front.len() implies !#[trigger] same(
            front[i],
            front[j],
        ) by {
            assert(!same(elems[i], elems[j]));
        }
        lemma_insert_all_arranges(front);
        lemma_insert_sorted_contains(mid, e);
        assert forall|j: int| 0 <= j < elems.len() implies out.contains(#[trigger] elems[j]) by {
            if j < front.len() {
                assert(mid.contains(front[j]));
                let i = choose|i: int| 0 <= i < mid.len() && mid[i] == front[j];
                assert(!same(elems[j], elems[elems.len() - 1]));
                assert(out.contains(mid[i]));
            }
        }
        assert forall|i: int| 0 <= i < out.len() implies elems.contains(#[trigger] out[i]) by {
            if out[i] == e {
                assert(elems[elems.len() - 1] == e);
            } else {
                assert(mid.contains(out[i]));
                let k = choose|k: int| 0 <= k < mid.len() && mid[k] == out[i];
                assert(front.contains(mid[k]));
                let j = choose|j: int| 0 <= j < front.len() && front[j] == mid[k];
                assert(elems[j] == out[i]);
            }
        }
    }
}

/// Taking the smallest element again and again gives the elements of an
/// ascending sequence from first to last: after `k` of them are gone, the
/// next one taken is the element at `k`, it sorts strictly before every
/// element that is taken later, and what is left is the rest behind it.
pub proof fn lemma_minima_in_order<T: Ord>(s: Seq<T>, k: int)
    requires
        ascending(s),
        0 <= k < s.len(),
    ensures
        s.skip(k).len() > 0,
        s.skip(k).first() == s[k],
        s.skip(k).drop_first() == s.skip(k + 1),
        forall|j: int| k < j < s.len() ==> lt(s[k], #[trigger] s[j]),
        s.skip(s.len() as int).len() == 0,
{
    assert(s.skip(k).drop_first() =~= s.skip(k + 1));
    assert forall|j: int| k < j < s.len() implies lt(s[k], #[trigger] s[j]) by {
        assert(lt(s[k], s[j]));
    }
}

} // verus!
