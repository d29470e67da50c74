//! Why the repair works.
//!
//! An insertion or a removal of the minimum leaves each subtree on its way in
//! a state that is described here, and the repair at the parent turns the
//! state of the child into the state of the parent.

use crate::arena::Color;
use crate::model::Tree;
use vstd::prelude::*;

verus! {

impl<T> Tree<T> {
    /// The balance rules hold below the top, whose two subtrees are of equal
    /// black height and whose right link is black. Only the top may be red
    /// with a red left child.
    pub open spec fn nearly_red_black(self) -> bool {
        &&& self.left().red_black()
        &&& self.right().red_black()
        &&& !self.right().is_red()
        &&& self.left().black_height() == self.right().black_height()
    }

    /// What an insertion into `self` may return: a tree of the same black
    /// height that keeps the balance rules where `self` was black, and that
    /// is red and breaks them at most by a red left child of its top where
    /// `self` was red.
    pub open spec fn may_grow_to(self, after: Tree<T>) -> bool {
        &&& after is Fork
        &&& after.black_height() == self.black_height()
        &&& if self.is_red() {
            after.is_red() && after.nearly_red_black()
        } else {
            after.red_black()
        }
    }

    /// The tree in which the descent for the minimum goes on from `self`:
    /// where neither the left child nor its left child is red, a red link is
    /// pushed to the left first.
    pub open spec fn prepared(self) -> Tree<T> {
        if !self.left().is_red() && !self.left().left().is_red() {
            self.move_red_left()
        } else {
            self
        }
    }

    /// What the removal of the minimum of `self` may return. Below a red link
    /// the black height stays. Below a black link over a red one it stays too
    /// and the top stays black. At a node with no red link at hand, which only
    /// the top of the whole tree can be, the result keeps the balance rules
    /// once its top is painted black.
    pub open spec fn may_shrink_to(self, after: Tree<T>) -> bool {
        if self.is_red() {
            after.red_black() && after.black_height() == self.black_height()
        } else if self.left().is_red() {
            after.red_black() && !after.is_red() && after.black_height() == self.black_height()
        } else {
            after.painted(Color::Black).red_black()
        }
    }

    /// A new red leaf is what an insertion into the empty tree returns.
    pub proof fn lemma_grow_leaf(self)
        requires
            self is Fork,
            self.left() is Empty,
            self.right() is Empty,
            self.is_red(),
        ensures
            Tree::<T>::Empty.may_grow_to(self),
    {
        reveal_with_fuel(Tree::red_black, 2);
        reveal_with_fuel(Tree::black_height, 2);
    }

    /// Replacing the element at the top changes neither colours nor shape, and
    /// the repair has nothing to do.
    pub proof fn lemma_grow_here(self, e: T)
        requires
            self is Fork,
            self.red_black(),
        ensures
            self.holding(e).fixup() == self.holding(e),
            self.may_grow_to(self.holding(e)),
    {
        reveal(Tree::fixup);
        reveal_with_fuel(Tree::red_black, 2);
        reveal_with_fuel(Tree::black_height, 2);
    }

    /// The repair after an insertion into the left subtree.
    pub proof fn lemma_grow_left(self, l: Tree<T>)
        requires
            self is Fork,
            self.red_black(),
            self.left().may_grow_to(l),
        ensures
            self.may_grow_to(self.with_left(l).fixup()),
    {
        reveal(Tree::fixup);
        reveal(Tree::move_red_left);
        reveal(Tree::rotate_left);
        reveal(Tree::rotate_right);
        reveal(Tree::flip_colors);
        reveal_with_fuel(Tree::red_black, 4);
        reveal_with_fuel(Tree::black_height, 4);
    }

    /// The repair after an insertion into the right subtree.
    pub proof fn lemma_grow_right(self, r: Tree<T>)
        requires
            self is Fork,
            self.red_black(),
            self.right().may_grow_to(r),
        ensures
            self.may_grow_to(self.with_right(r).fixup()),
    {
        reveal(Tree::fixup);
        reveal(Tree::move_red_left);
        reveal(Tree::rotate_left);
        reveal(Tree::rotate_right);
        reveal(Tree::flip_colors);
        reveal_with_fuel(Tree::red_black, 4);
        reveal_with_fuel(Tree::black_height, 4);
    }

    /// A node without a left child that keeps the balance rules has no right
    /// child either, and removing it leaves the empty tree.
    pub proof fn lemma_shrink_last(self)
        requires
            self is Fork,
            self.red_black(),
            self.left() is Empty,
        ensures
            self.right() is Empty,
            self.may_shrink_to(Tree::Empty),
    {
        reveal_with_fuel(Tree::red_black, 2);
        reveal_with_fuel(Tree::black_height, 2);
    }

    /// Before the descent to the left: a node with a left child that has no
    /// red link at hand has a right child too, and the tree in which the
    /// descent goes on has a left subtree that keeps the balance rules.
    pub proof fn lemma_shrink_descend(self)
        requires
            self is Fork,
            self.red_black(),
            self.left() is Fork,
        ensures
            !self.left().is_red() && !self.left().left().is_red() ==> self.right() is Fork,
            self.prepared() is Fork,
            self.prepared().left() is Fork,
            self.prepared().left().red_black(),
    {
        reveal(Tree::fixup);
        reveal(Tree::move_red_left);
        reveal(Tree::rotate_left);
        reveal(Tree::rotate_right);
        reveal(Tree::flip_colors);
        reveal_with_fuel(Tree::red_black, 4);
        reveal_with_fuel(Tree::black_height, 4);
    }

    /// The repair after the minimum was removed from the left subtree.
    pub proof fn lemma_shrink_ascend(self, l: Tree<T>)
        requires
            self is Fork,
            self.red_black(),
            self.left() is Fork,
            self.prepared().left().may_shrink_to(l),
        ensures
            self.may_shrink_to(self.prepared().with_left(l).fixup()),
    {
        reveal(Tree::fixup);
        reveal(Tree::move_red_left);
        reveal(Tree::rotate_left);
        reveal(Tree::rotate_right);
        reveal(Tree::flip_colors);
        reveal_with_fuel(Tree::red_black, 4);
        reveal_with_fuel(Tree::black_height, 4);
    }
}

} // verus!
