//! The shape of the tree after an operation.
//!
//! The view of a set says which elements it holds. What is said here goes
//! further: which node holds which element after an insertion or a removal of
//! the minimum, and how the nodes are linked and coloured then.

use crate::arena::{Color, Handle};
use crate::model::Tree;
use crate::order::lt;
use vstd::prelude::*;

verus! {

impl<T: Ord> Tree<T> {
    /// The handle of the node that holds an element in the place of `e`,
    /// looked for from the top by the order.
    pub open spec fn handle_of(self, e: T) -> Option<Handle>
        decreases self,
    {
        match self {
            Tree::Empty => None,
            Tree::Fork { left, at, elem, right, .. } => if lt(e, elem) {
                left.handle_of(e)
            } else if lt(elem, e) {
                right.handle_of(e)
            } else {
                Some(at)
            },
        }
    }

    /// The handle of the node that holds `e` once it is put in: the node that
    /// holds an element in its place, or else the new node `fresh`.
    pub open spec fn home_of(self, e: T, fresh: Handle) -> Handle {
        match self.handle_of(e) {
            Some(at) => at,
            None => fresh,
        }
    }

    /// The tree after `e` was put in. Where no element takes the place of
    /// `e`, a red leaf at `fresh` is hung where the descent by the order
    /// ends; otherwise `e` replaces the element in its place. Every node on
    /// the way back up is repaired.
    pub open spec fn grown(self, e: T, fresh: Handle) -> Tree<T>
        decreases self,
    {
        match self {
            Tree::Empty => Tree::Fork {
                left: Box::new(Tree::Empty),
                at: fresh,
                elem: e,
                color: Color::Red,
                right: Box::new(Tree::Empty),
            },
            Tree::Fork { left, elem, right, .. } => if lt(e, elem) {
                self.with_left(left.grown(e, fresh)).fixup()
            } else if lt(elem, e) {
                self.with_right(right.grown(e, fresh)).fixup()
            } else {
                self.holding(e).fixup()
            },
        }
    }
}

impl<T> Tree<T> {
    /// The handle of the leftmost node.
    pub open spec fn first_handle(self) -> Option<Handle>
        decreases self,
    {
        match self {
            Tree::Empty => None,
            Tree::Fork { left, at, .. } => if *left is Empty {
                Some(at)
            } else {
                left.first_handle()
            },
        }
    }

    /// The tree after its leftmost node was taken out. On the way down a red
    /// link is pushed to the left wherever the next node has none at hand,
    /// and every node on the way back up is repaired.
    pub open spec fn shrunk(self) -> Tree<T>
        decreases self.size(),
    {
        if self.left() is Empty {
            Tree::Empty
        } else {
            proof {
                reveal(Tree::move_red_left);
                reveal(Tree::rotate_left);
                reveal(Tree::rotate_right);
                reveal(Tree::flip_colors);
                reveal_with_fuel(Tree::size, 4);
            }
            self.prepared().with_left(self.prepared().left().shrunk()).fixup()
        }
    }

    /// Pushing a red link to the left leaves the leftmost node where it is.
    pub proof fn lemma_prepared_first(self)
        requires
            self.left() is Fork,
        ensures
            self.prepared().left().first_handle() == self.left().first_handle(),
            self.first_handle() == self.left().first_handle(),
    {
        reveal(Tree::move_red_left);
        reveal(Tree::rotate_left);
        reveal(Tree::rotate_right);
        reveal(Tree::flip_colors);
        reveal_with_fuel(Tree::first_handle, 4);
    }
}

} // verus!
