//! The ordering vocabulary of the crate.
//!
//! Elements are compared through `Ord`. Everything the tree needs from that
//! comparison is collected here: the strict order `lt`, the equivalence `same`
//! that goes with it, the assumption `total_order` under which the two behave
//! as a strict total order, and the consequences of that assumption.

use core::cmp::Ordering;
use vstd::prelude::*;
use vstd::std_specs::cmp::OrdSpec;
use vstd::std_specs::cmp::PartialOrdSpec;

verus! {

/// The comparison of `T` is the one its specification describes, and that
/// specification is a total order.
pub open spec fn total_order<T: Ord>() -> bool {
    vstd::laws_cmp::obeys_cmp::<T>()
}

/// `a` sorts strictly before `b`.
pub open spec fn lt<T: Ord>(a: T, b: T) -> bool {
    a.cmp_spec(&b) == Ordering::Less
}

/// `a` and `b` take the same place in the order.
pub open spec fn same<T: Ord>(a: T, b: T) -> bool {
    a.cmp_spec(&b) == Ordering::Equal
}

/// The outcome of comparing two elements.
#[derive(Clone, Copy, Debug, PartialEq, Eq, Structural)]
pub enum Rel {
    Less,
    Equal,
    Greater,
}

/// Of `lt(a, b)`, `same(a, b)` and `lt(b, a)` exactly one holds.
pub proof fn lemma_trichotomy<T: Ord>(a: T, b: T)
    requires
        total_order::<T>(),
    ensures
        lt(a, b) || same(a, b) || lt(b, a),
        !(lt(a, b) && same(a, b)),
        !(lt(a, b) && lt(b, a)),
        !(same(a, b) && lt(b, a)),
        same(a, b) == same(b, a),
{
    reveal(vstd::laws_cmp::obeys_cmp_ord);
    reveal(vstd::laws_cmp::obeys_cmp_partial_ord);
    reveal(vstd::laws_cmp::obeys_partial_cmp_spec_properties);
    reveal(vstd::laws_eq::obeys_eq_spec_properties);
    let ab = a.partial_cmp_spec(&b);
    let ba = b.partial_cmp_spec(&a);
    assert(ab == Some(a.cmp_spec(&b)));
    assert(ba == Some(b.cmp_spec(&a)));
}

/// Every element takes its own place.
pub proof fn lemma_same_reflexive<T: Ord>(a: T)
    requires
        total_order::<T>(),
    ensures
        same(a, a),
{
    lemma_trichotomy(a, a);
}

/// `lt` is transitive.
pub proof fn lemma_lt_transitive<T: Ord>(a: T, b: T, c: T)
    requires
        total_order::<T>(),
        lt(a, b),
        lt(b, c),
    ensures
        lt(a, c),
{
    reveal(vstd::laws_cmp::obeys_cmp_ord);
    reveal(vstd::laws_cmp::obeys_partial_cmp_spec_properties);
    assert(a.partial_cmp_spec(&b) == Some(Ordering::Less));
    assert(b.partial_cmp_spec(&c) == Some(Ordering::Less));
    assert(a.partial_cmp_spec(&c) == Some(Ordering::Less));
}

/// `same` is transitive.
pub proof fn lemma_same_transitive<T: Ord>(a: T, b: T, c: T)
    requires
        total_order::<T>(),
        same(a, b),
        same(b, c),
    ensures
        same(a, c),
{
    reveal(vstd::laws_cmp::obeys_cmp_ord);
    reveal(vstd::laws_cmp::obeys_cmp_partial_ord);
    reveal(vstd::laws_cmp::obeys_partial_cmp_spec_properties);
    reveal(vstd::laws_eq::obeys_eq_spec_properties);
    assert(a.partial_cmp_spec(&b) == Some(Ordering::Equal));
    assert(b.partial_cmp_spec(&c) == Some(Ordering::Equal));
    assert(a.partial_cmp_spec(&c) == Some(a.cmp_spec(&c)));
}

/// Elements that take the same place stand alike to every third element.
pub proof fn lemma_same_congruent<T: Ord>(a: T, b: T, c: T)
    requires
        total_order::<T>(),
        same(a, b),
    ensures
        lt(a, c) == lt(b, c),
        lt(c, a) == lt(c, b),
        same(a, c) == same(b, c),
{
    lemma_trichotomy(a, b);
    lemma_trichotomy(a, c);
    lemma_trichotomy(b, c);
    if lt(a, c) {
        if same(b, c) {
            lemma_same_transitive(a, b, c);
        }
        if lt(c, b) {
            lemma_lt_transitive(a, c, b);
        }
    }
    if lt(b, c) {
        if same(a, c) {
            lemma_trichotomy(c, a);
            lemma_same_transitive(b, a, c);
        }
        if lt(c, a) {
            lemma_lt_transitive(b, c, a);
        }
    }
    if same(a, c) {
        lemma_same_transitive(b, a, c);
    }
    if same(b, c) {
        lemma_same_transitive(a, b, c);
    }
}

/// Compares two elements. Where the order of `T` is total, the outcome says
/// how `a` stands to `b`.
pub fn compare<T: Ord>(a: &T, b: &T) -> (r: Rel)
    ensures
        total_order::<T>() ==> match r {
            Rel::Less => lt(*a, *b),
            Rel::Equal => same(*a, *b),
            Rel::Greater => lt(*b, *a),
        },
{
    proof {
        if total_order::<T>() {
            reveal(vstd::laws_cmp::obeys_cmp_ord);
            lemma_trichotomy(*a, *b);
        }
    }
    match a.cmp(b) {
        Ordering::Less => Rel::Less,
        Ordering::Equal => Rel::Equal,
        Ordering::Greater => Rel::Greater,
    }
}

} // verus!
