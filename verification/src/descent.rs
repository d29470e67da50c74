//! The three descents: looking an element up, putting one in, and taking the
//! smallest one out. Each works on the subtree under a link of the arena and
//! says what it does in terms of the tree that the arena stores there.

use crate::arena::{unchanged_outside, Arena, Color, Handle};
use crate::model::Tree;
use crate::order::{compare, lemma_trichotomy, same, total_order, Rel};
use crate::ordered::{
    ascending, has, insert_sorted, lemma_ascending_parts, lemma_has_around,
    lemma_insert_sorted_back, lemma_insert_sorted_front, lemma_insert_sorted_here,
};
use vstd::prelude::*;

verus! {

impl<T: Ord> Arena<T> {
    /// Whether the subtree under `link` holds an element that takes the place
    /// of `elem`.
    pub(crate) fn member_at(&self, link: Option<Handle>, elem: &T, Ghost(t): Ghost<Tree<T>>) -> (found:
        bool)
        requires
            t.stored_in(self@),
            t.root() == link,
            total_order::<T>() ==> ascending(t.inorder()),
        ensures
            total_order::<T>() ==> found == has(t.inorder(), *elem),
        decreases t,
    {
        match link {
            None => {
                assert(t.inorder().len() == 0);
                false
            },
            Some(h) => {
                let node = self.read(h);
                proof {
                    if total_order::<T>() {
                        lemma_has_around(t.left().inorder(), node.elem, t.right().inorder(), *elem);
                        lemma_ascending_parts(t.left().inorder(), node.elem, t.right().inorder());
                    }
                }
                match compare(&node.elem, elem) {
                    Rel::Less => self.member_at(node.right, elem, Ghost(t.right())),
                    Rel::Greater => self.member_at(node.left, elem, Ghost(t.left())),
                    Rel::Equal => true,
                }
            },
        }
    }

    /// Puts `elem` into the subtree under `link`. Returns the handle of the
    /// new top of that subtree, the tree that is now stored under it, and the
    /// handle of the node that holds `elem`.
    pub(crate) fn insert_at(&mut self, link: Option<Handle>, elem: T, Ghost(t): Ghost<Tree<T>>) -> (res: (
        Handle,
        Ghost<Tree<T>>,
        Ghost<Handle>,
    ))
        requires
            old(self).wf(),
            t.stored_in(old(self)@),
            t.root() == link,
            t.red_black(),
            total_order::<T>() ==> ascending(t.inorder()),
        ensures
            final(self).wf(),
            res.1@.stored_in(final(self)@),
            res.1@.root() == Some(res.0),
            total_order::<T>() ==> res.1@.inorder() == insert_sorted(t.inorder(), elem),
            t.may_grow_to(res.1@),
            unchanged_outside(old(self)@, final(self)@, t.handles()),
            old(self).puts(*final(self), res.2@, elem),
            old(self).live(res.2@) == t.handles().contains(res.2@),
            total_order::<T>() && old(self).live(res.2@) ==> same(old(self)@[res.2@].elem, elem),
            total_order::<T>() ==> res.2@ == t.home_of(elem, old(self).next_handle()),
            total_order::<T>() ==> res.1@ == t.grown(elem, res.2@),
            res.1@.handles() == t.handles().insert(res.2@),
            res.1@.size() == t.size() + if old(self).live(res.2@) {
                0int
            } else {
                1int
            },
        decreases t,
    {
        proof {
            old(self).lemma_handles();
            t.lemma_stored_handles(self@);
        }
        match link {
            None => {
                let h = self.allocate(elem, Color::Red);
                let ghost leaf = Tree::Fork {
                    left: Box::new(Tree::Empty),
                    at: h,
                    elem,
                    color: Color::Red,
                    right: Box::new(Tree::Empty),
                };
                proof {
                    leaf.lemma_grow_leaf();
                    reveal(Seq::filter);
                    reveal_with_fuel(Tree::stored_in, 2);
                    reveal_with_fuel(Tree::handles, 2);
                    reveal_with_fuel(Tree::size, 2);
                    assert(leaf.inorder() =~= insert_sorted(t.inorder(), elem));
                    assert(leaf.handles() =~= t.handles().insert(h));
                    assert(self@.dom() =~= old(self)@.dom().insert(h));
                }
                (h, Ghost(leaf), Ghost(h))
            },
            Some(h) => {
                let ghost l = t.left();
                let ghost r = t.right();
                let ghost k = t->elem;
                proof {
                    if total_order::<T>() {
                        lemma_ascending_parts(l.inorder(), k, r.inorder());
                        lemma_trichotomy(k, elem);
                        lemma_trichotomy(elem, k);
                    }
                    l.lemma_stored_handles(self@);
                    r.lemma_stored_handles(self@);
                }
                let ghost mid;
                let ghost at;
                match compare(&self.read(h).elem, &elem) {
                    Rel::Less => {
                        let right = self.read(h).right;
                        let (new_right, Ghost(r2), Ghost(put)) = self.insert_at(
                            right,
                            elem,
                            Ghost(r),
                        );
                        let ghost grown = *self;
                        self.write(h).right = Some(new_right);
                        proof {
                            mid = t.with_right(r2);
                            at = put;
                            l.lemma_stored_frame(old(self)@, self@, r.handles().insert(h));
                            r2.lemma_stored_frame(grown@, self@, set![h]);
                            if total_order::<T>() {
                                lemma_insert_sorted_back(l.inorder(), k, r.inorder(), elem);
                                assert(at == t.home_of(elem, old(self).next_handle()));
                                assert(mid.fixup() == t.grown(elem, at));
                            }
                            t.lemma_grow_right(r2);
                            assert(self@.dom() =~= grown@.dom());
                            assert(mid.size() - r2.size() == t.size() - r.size());
                            assert(mid.handles() =~= t.handles().insert(at));
                            assert(unchanged_outside(old(self)@, self@, t.handles()));
                        }
                    },
                    Rel::Greater => {
                        let left = self.read(h).left;
                        let (new_left, Ghost(l2), Ghost(put)) = self.insert_at(
                            left,
                            elem,
                            Ghost(l),
                        );
                        let ghost grown = *self;
                        self.write(h).left = Some(new_left);
                        proof {
                            mid = t.with_left(l2);
                            at = put;
                            r.lemma_stored_frame(old(self)@, self@, l.handles().insert(h));
                            l2.lemma_stored_frame(grown@, self@, set![h]);
                            if total_order::<T>() {
                                lemma_insert_sorted_front(l.inorder(), k, r.inorder(), elem);
                                assert(at == t.home_of(elem, old(self).next_handle()));
                                assert(mid.fixup() == t.grown(elem, at));
                            }
                            t.lemma_grow_left(l2);
                            assert(self@.dom() =~= grown@.dom());
                            assert(mid.size() - l2.size() == t.size() - l.size());
                            assert(mid.handles() =~= t.handles().insert(at));
                            assert(unchanged_outside(old(self)@, self@, t.handles()));
                        }
                    },
                    Rel::Equal => {
                        self.write(h).elem = elem;
                        proof {
                            mid = t.holding(elem);
                            at = h;
                            l.lemma_stored_frame(old(self)@, self@, set![h]);
                            r.lemma_stored_frame(old(self)@, self@, set![h]);
                            if total_order::<T>() {
                                lemma_insert_sorted_here(l.inorder(), k, r.inorder(), elem);
                                assert(at == t.home_of(elem, old(self).next_handle()));
                                assert(mid.fixup() == t.grown(elem, at));
                            }
                            t.lemma_grow_here(elem);
                            assert(self@.dom() =~= old(self)@.dom());
                            assert(mid.size() == t.size());
                            assert(mid.handles() =~= t.handles().insert(at));
                            assert(unchanged_outside(old(self)@, self@, t.handles()));
                        }
                    },
                }
                assert(mid.stored_in(self@));
                assert(old(self).puts(*self, at, elem));
                let ghost linked = *self;
                let top = self.fixup(h, Ghost(mid));
                proof {
                    mid.lemma_fixup();
                    assert forall|g: Handle| #[trigger]
                        old(self)@.dom().contains(g) && !t.handles().contains(
                            g,
                        ) implies self@.dom().contains(g) && self@[g] == old(self)@[g] by {
                        assert(linked@.dom().contains(g));
                        assert(!mid.handles().contains(g));
                    }
                    assert forall|g: Handle| #[trigger]
                        old(self)@.dom().contains(g) && !set![at].contains(
                            g,
                        ) implies self@.dom().contains(g) && self@[g].elem == old(self)@[g].elem by {
                        assert(linked@.dom().contains(g));
                    }
                    assert(linked@.dom().contains(at));
                }
                (top, Ghost(mid.fixup()), Ghost(at))
            },
        }
    }

    /// Takes the smallest element out of the subtree under `node`. Returns
    /// that element, the link to what is left of the subtree, the tree that
    /// is now stored under that link, and the handle of the slot that was
    /// freed.
    pub(crate) fn take_min_at(&mut self, node: Handle, Ghost(t): Ghost<Tree<T>>) -> (res: (
        T,
        Option<Handle>,
        Ghost<Tree<T>>,
        Ghost<Handle>,
    ))
        requires
            old(self).wf(),
            t.stored_in(old(self)@),
            t.root() == Some(node),
            t.red_black(),
        ensures
            final(self).wf(),
            res.2@.stored_in(final(self)@),
            res.2@.root() == res.1,
            t.inorder().len() > 0,
            res.0 == t.inorder().first(),
            res.2@.inorder() == t.inorder().drop_first(),
            t.may_shrink_to(res.2@),
            unchanged_outside(old(self)@, final(self)@, t.handles()),
            old(self).frees(*final(self), res.3@),
            old(self)@[res.3@].elem == res.0,
            Some(res.3@) == t.first_handle(),
            res.2@ == t.shrunk(),
            t.handles().contains(res.3@),
            res.2@.handles() == t.handles().remove(res.3@),
            res.2@.size() == t.size() - 1,
        decreases t.size(),
    {
        let mut node = node;
        proof {
            old(self).lemma_handles();
            t.lemma_stored_handles(self@);
        }
        match self.read(node).left {
            None => {
                proof {
                    t.lemma_shrink_last();
                    reveal_with_fuel(Tree::inorder, 2);
                    reveal_with_fuel(Tree::size, 2);
                    reveal_with_fuel(Tree::handles, 2);
                }
                let min = self.free(node);
                proof {
                    assert(t.inorder().drop_first() =~= Seq::<T>::empty());
                    assert(Tree::<T>::Empty.handles() =~= t.handles().remove(node));
                }
                (min, None, Ghost(Tree::Empty), Ghost(node))
            },
            Some(left) => {
                proof {
                    t.lemma_shrink_descend();
                    t.lemma_prepared_first();
                }
                assert(t.left().stored_in(self@));
                assert(t.left().left().stored_in(self@));
                if !self.is_red(Some(left)) && !self.is_red(self.read(left).left) {
                    node = self.move_red_left(node, Ghost(t));
                    proof {
                        t.lemma_move_red_left();
                    }
                }
                let ghost m = t.prepared();
                let ghost ready = *self;
                proof {
                    m.left().lemma_stored_handles(self@);
                    m.right().lemma_stored_handles(self@);
                }
                let left = self.read(node).left.unwrap();
                let (min, new_left, Ghost(l2), Ghost(at)) = self.take_min_at(
                    left,
                    Ghost(m.left()),
                );
                let ghost taken = *self;
                self.write(node).left = new_left;
                let ghost mid = m.with_left(l2);
                proof {
                    m.right().lemma_stored_frame(ready@, self@, m.left().handles().insert(node));
                    l2.lemma_stored_frame(taken@, self@, set![node]);
                    assert(self@.dom() =~= taken@.dom());
                    assert(mid.size() - l2.size() == m.size() - m.left().size());
                    assert(mid.stored_in(self@));
                    assert(mid.inorder() =~= t.inorder().drop_first());
                    assert(mid.handles() =~= t.handles().remove(at));
                    t.lemma_shrink_ascend(l2);
                    mid.lemma_fixup();
                }
                let ghost linked = *self;
                let top = self.fixup(node, Ghost(mid));
                proof {
                    assert forall|g: Handle| #[trigger]
                        old(self)@.dom().contains(g) && !set![at].contains(
                            g,
                        ) implies self@.dom().contains(g) && self@[g].elem == old(self)@[g].elem by {
                        assert(ready@.dom().contains(g));
                        assert(taken@.dom().contains(g));
                        assert(linked@.dom().contains(g));
                    }
                    assert(ready@.dom().contains(at));
                }
                (min, Some(top), Ghost(mid.fixup()), Ghost(at))
            },
        }
    }
}

} // verus!
