//! The tree as a mathematical value.
//!
//! A `Tree` says which element, colour and handle sit at each position. It is
//! what the contracts of the crate speak of; the arena holds the same
//! information spread over its slots, and `stored_in` ties the two together.

use crate::arena::{unchanged_outside, Color, Handle, Node};
use vstd::prelude::*;

verus! {

/// A binary tree whose nodes carry an element, a colour and the handle of the
/// slot that stores them.
pub enum Tree<T> {
    Empty,
    Fork { left: Box<Tree<T>>, at: Handle, elem: T, color: Color, right: Box<Tree<T>> },
}

impl<T> Tree<T> {
    /// The handle of the topmost node.
    pub open spec fn root(self) -> Option<Handle> {
        match self {
            Tree::Empty => None,
            Tree::Fork { at, .. } => Some(at),
        }
    }

    /// The left subtree; empty for the empty tree.
    pub open spec fn left(self) -> Tree<T> {
        match self {
            Tree::Empty => Tree::Empty,
            Tree::Fork { left, .. } => *left,
        }
    }

    /// The right subtree; empty for the empty tree.
    pub open spec fn right(self) -> Tree<T> {
        match self {
            Tree::Empty => Tree::Empty,
            Tree::Fork { right, .. } => *right,
        }
    }

    /// The link that leads to this tree is red. The empty tree counts as black.
    pub open spec fn is_red(self) -> bool {
        match self {
            Tree::Empty => false,
            Tree::Fork { color, .. } => color == Color::Red,
        }
    }

    /// The number of nodes.
    pub open spec fn size(self) -> nat
        decreases self,
    {
        match self {
            Tree::Empty => 0,
            Tree::Fork { left, right, .. } => left.size() + 1 + right.size(),
        }
    }

    /// The handles of all nodes.
    pub open spec fn handles(self) -> Set<Handle>
        decreases self,
    {
        match self {
            Tree::Empty => Set::empty(),
            Tree::Fork { left, at, right, .. } => left.handles().union(right.handles()).insert(at),
        }
    }

    /// The elements from left to right.
    pub open spec fn inorder(self) -> Seq<T>
        decreases self,
    {
        match self {
            Tree::Empty => Seq::empty(),
            Tree::Fork { left, elem, right, .. } => left.inorder().push(elem) + right.inorder(),
        }
    }

    /// The number of black links on the way from above this tree down its
    /// leftmost path to an empty link.
    pub open spec fn black_height(self) -> nat
        decreases self,
    {
        match self {
            Tree::Empty => 0,
            Tree::Fork { left, color, .. } => left.black_height() + if color == Color::Black {
                1nat
            } else {
                0nat
            },
        }
    }

    /// The balance rules of a left-leaning red-black tree, at every node:
    /// no right link is red, no red link is followed by a red link, and both
    /// subtrees have the same black height, so that every path from the top to
    /// an empty link crosses the same number of black links.
    pub open spec fn red_black(self) -> bool
        decreases self,
    {
        match self {
            Tree::Empty => true,
            Tree::Fork { left, color, right, .. } => {
                &&& left.red_black()
                &&& right.red_black()
                &&& !right.is_red()
                &&& color == Color::Red ==> !left.is_red()
                &&& left.black_height() == right.black_height()
            },
        }
    }

    /// The arena content `nodes` holds this tree: each node sits in the slot
    /// that its handle names, with links to the slots of its children, and no
    /// slot is used twice.
    pub open spec fn stored_in(self, nodes: Map<Handle, Node<T>>) -> bool
        decreases self,
    {
        match self {
            Tree::Empty => true,
            Tree::Fork { left, at, elem, color, right } => {
                &&& nodes.dom().contains(at)
                &&& nodes[at] == (Node { elem, color, left: left.root(), right: right.root() })
                &&& !left.handles().contains(at)
                &&& !right.handles().contains(at)
                &&& left.handles().disjoint(right.handles())
                &&& left.stored_in(nodes)
                &&& right.stored_in(nodes)
            },
        }
    }

    /// The same tree with the topmost node painted `c`.
    pub open spec fn painted(self, c: Color) -> Tree<T> {
        match self {
            Tree::Empty => Tree::Empty,
            Tree::Fork { left, at, elem, color, right } => Tree::Fork {
                left,
                at,
                elem,
                color: c,
                right,
            },
        }
    }

    /// The same tree with the colour of the topmost node flipped.
    pub open spec fn repainted(self) -> Tree<T> {
        match self {
            Tree::Empty => Tree::Empty,
            Tree::Fork { left, at, elem, color, right } => Tree::Fork {
                left,
                at,
                elem,
                color: color.flipped(),
                right,
            },
        }
    }

    /// The same tree with `l` as its left subtree.
    pub open spec fn with_left(self, l: Tree<T>) -> Tree<T> {
        match self {
            Tree::Empty => Tree::Empty,
            Tree::Fork { left, at, elem, color, right } => Tree::Fork {
                left: Box::new(l),
                at,
                elem,
                color,
                right,
            },
        }
    }

    /// The same tree with `r` as its right subtree.
    pub open spec fn with_right(self, r: Tree<T>) -> Tree<T> {
        match self {
            Tree::Empty => Tree::Empty,
            Tree::Fork { left, at, elem, color, right } => Tree::Fork {
                left,
                at,
                elem,
                color,
                right: Box::new(r),
            },
        }
    }

    /// The same tree with `e` as the element of the topmost node.
    pub open spec fn holding(self, e: T) -> Tree<T> {
        match self {
            Tree::Empty => Tree::Empty,
            Tree::Fork { left, at, elem, color, right } => Tree::Fork {
                left,
                at,
                elem: e,
                color,
                right,
            },
        }
    }

    /// The right child becomes the top and takes the colour of the old top,
    /// which becomes its red left child.
    #[verifier::opaque]
    pub open spec fn rotate_left(self) -> Tree<T>
        recommends
            self is Fork,
            self.right() is Fork,
    {
        self.right().painted(self->color).with_left(
            self.painted(Color::Red).with_right(self.right().left()),
        )
    }

    /// The left child becomes the top and takes the colour of the old top,
    /// which becomes its red right child.
    #[verifier::opaque]
    pub open spec fn rotate_right(self) -> Tree<T>
        recommends
            self is Fork,
            self.left() is Fork,
    {
        self.left().painted(self->color).with_right(
            self.painted(Color::Red).with_left(self.left().right()),
        )
    }

    /// The colours of the topmost node and of its two children are flipped.
    #[verifier::opaque]
    pub open spec fn flip_colors(self) -> Tree<T>
        recommends
            self is Fork,
            self.left() is Fork,
            self.right() is Fork,
    {
        self.repainted().with_left(self.left().repainted()).with_right(self.right().repainted())
    }

    /// The repair that is made at each node on the way back up: a red right
    /// link is rotated to the left, two red links in a row on the left are
    /// rotated to the right, and two red children hand their colour up.
    #[verifier::opaque]
    pub open spec fn fixup(self) -> Tree<T> {
        let a = if self.right().is_red() && !self.left().is_red() {
            self.rotate_left()
        } else {
            self
        };
        let b = if a.left().is_red() && a.left().left().is_red() {
            a.rotate_right()
        } else {
            a
        };
        if b.left().is_red() && b.right().is_red() {
            b.flip_colors()
        } else {
            b
        }
    }

    /// A red link is pushed into the left subtree, borrowing a node from the
    /// right sibling where that one has a red link to spare.
    #[verifier::opaque]
    pub open spec fn move_red_left(self) -> Tree<T> {
        let a = self.flip_colors();
        if a.right().left().is_red() {
            a.with_right(a.right().rotate_right()).rotate_left().flip_colors()
        } else {
            a
        }
    }

    /// A left rotation keeps the handles, the elements in their order and the
    /// number of nodes.
    pub proof fn lemma_rotate_left(self)
        requires
            self is Fork,
            self.right() is Fork,
        ensures
            self.rotate_left() == self.right().painted(self->color).with_left(
                self.painted(Color::Red).with_right(self.right().left()),
            ),
            self.rotate_left() is Fork,
            self.rotate_left().handles() == self.handles(),
            self.rotate_left().inorder() == self.inorder(),
            self.rotate_left().size() == self.size(),
    {
        reveal(Tree::rotate_left);
        reveal_with_fuel(Tree::handles, 3);
        reveal_with_fuel(Tree::inorder, 3);
        reveal_with_fuel(Tree::size, 3);
        assert(self.rotate_left().handles() =~= self.handles());
        assert(self.rotate_left().inorder() =~= self.inorder());
    }

    /// A right rotation keeps the handles, the elements in their order and the
    /// number of nodes.
    pub proof fn lemma_rotate_right(self)
        requires
            self is Fork,
            self.left() is Fork,
        ensures
            self.rotate_right() == self.left().painted(self->color).with_right(
                self.painted(Color::Red).with_left(self.left().right()),
            ),
            self.rotate_right() is Fork,
            self.rotate_right().handles() == self.handles(),
            self.rotate_right().inorder() == self.inorder(),
            self.rotate_right().size() == self.size(),
    {
        reveal(Tree::rotate_right);
        reveal_with_fuel(Tree::handles, 3);
        reveal_with_fuel(Tree::inorder, 3);
        reveal_with_fuel(Tree::size, 3);
        assert(self.rotate_right().handles() =~= self.handles());
        assert(self.rotate_right().inorder() =~= self.inorder());
    }

    /// A colour flip keeps the handles, the elements in their order and the
    /// number of nodes.
    pub proof fn lemma_flip_colors(self)
        requires
            self is Fork,
            self.left() is Fork,
            self.right() is Fork,
        ensures
            self.flip_colors() == self.repainted().with_left(self.left().repainted()).with_right(
                self.right().repainted(),
            ),
            self.flip_colors() is Fork,
            self.flip_colors().handles() == self.handles(),
            self.flip_colors().inorder() == self.inorder(),
            self.flip_colors().size() == self.size(),
    {
        reveal(Tree::flip_colors);
        reveal_with_fuel(Tree::handles, 3);
        reveal_with_fuel(Tree::inorder, 3);
        reveal_with_fuel(Tree::size, 3);
        assert(self.flip_colors().handles() =~= self.handles());
        assert(self.flip_colors().inorder() =~= self.inorder());
    }

    /// The repair keeps the handles, the elements in their order and the number
    /// of nodes.
    pub proof fn lemma_fixup(self)
        requires
            self is Fork,
        ensures
            self.fixup() is Fork,
            self.fixup().handles() == self.handles(),
            self.fixup().inorder() == self.inorder(),
            self.fixup().size() == self.size(),
    {
        reveal(Tree::fixup);
        let a = if self.right().is_red() && !self.left().is_red() {
            self.lemma_rotate_left();
            self.rotate_left()
        } else {
            self
        };
        let b = if a.left().is_red() && a.left().left().is_red() {
            a.lemma_rotate_right();
            a.rotate_right()
        } else {
            a
        };
        if b.left().is_red() && b.right().is_red() {
            b.lemma_flip_colors();
        }
    }

    /// Pushing a red link to the left keeps the handles, the elements in their
    /// order and the number of nodes.
    pub proof fn lemma_move_red_left(self)
        requires
            self is Fork,
            self.left() is Fork,
            self.right() is Fork,
        ensures
            self.move_red_left() is Fork,
            self.move_red_left().left() is Fork,
            self.move_red_left().handles() == self.handles(),
            self.move_red_left().inorder() == self.inorder(),
            self.move_red_left().size() == self.size(),
    {
        reveal(Tree::move_red_left);
        let a = self.flip_colors();
        self.lemma_flip_colors();
        if a.right().left().is_red() {
            let r = a.right().rotate_right();
            a.right().lemma_rotate_right();
            let b = a.with_right(r);
            assert(b.handles() =~= a.handles());
            assert(b.inorder() =~= a.inorder());
            b.lemma_rotate_left();
            b.rotate_left().lemma_flip_colors();
        }
    }

    /// The number of elements read from left to right is the number of nodes.
    pub proof fn lemma_inorder_len(self)
        ensures
            self.inorder().len() == self.size(),
        decreases self,
    {
        match self {
            Tree::Empty => {},
            Tree::Fork { left, right, .. } => {
                left.lemma_inorder_len();
                right.lemma_inorder_len();
            },
        }
    }

    /// A tree that is stored uses live handles only.
    pub proof fn lemma_stored_handles(self, nodes: Map<Handle, Node<T>>)
        requires
            self.stored_in(nodes),
        ensures
            self.handles().subset_of(nodes.dom()),
        decreases self,
    {
        match self {
            Tree::Empty => {},
            Tree::Fork { left, right, .. } => {
                left.lemma_stored_handles(nodes);
                right.lemma_stored_handles(nodes);
            },
        }
    }

    /// A tree stays stored when the slots of its nodes keep their content.
    pub proof fn lemma_stored_frame(
        self,
        before: Map<Handle, Node<T>>,
        after: Map<Handle, Node<T>>,
        region: Set<Handle>,
    )
        requires
            self.stored_in(before),
            unchanged_outside(before, after, region),
            self.handles().disjoint(region),
        ensures
            self.stored_in(after),
        decreases self,
    {
        match self {
            Tree::Empty => {},
            Tree::Fork { left, at, right, .. } => {
                assert(self.handles().contains(at));
                assert(before.dom().contains(at));
                assert forall|h: Handle| left.handles().contains(h) implies !region.contains(h) by {
                    assert(self.handles().contains(h));
                }
                assert forall|h: Handle| right.handles().contains(h) implies !region.contains(
                    h,
                ) by {
                    assert(self.handles().contains(h));
                }
                left.lemma_stored_frame(before, after, region);
                right.lemma_stored_frame(before, after, region);
            },
        }
    }

    /// An arena content holds at most one tree under a given root.
    pub proof fn lemma_stored_unique(self, other: Tree<T>, nodes: Map<Handle, Node<T>>)
        requires
            self.stored_in(nodes),
            other.stored_in(nodes),
            self.root() == other.root(),
        ensures
            self == other,
        decreases self,
    {
        match self {
            Tree::Empty => {},
            Tree::Fork { left, right, .. } => {
                left.lemma_stored_unique(other.left(), nodes);
                right.lemma_stored_unique(other.right(), nodes);
            },
        }
    }
}

} // verus!
