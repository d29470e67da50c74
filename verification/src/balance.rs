//! The balancing primitives: rotations, the colour flip and the repair that
//! combines them. Each rewrites a few links and colours in the arena and
//! leaves every slot outside the subtree it works on as it was.

use crate::arena::{elems_kept, unchanged_outside, Arena, Color, Handle};
use crate::model::Tree;
use core::ops::Not;
use vstd::prelude::*;

verus! {

/// `after` comes from `before` by rewriting links and colours inside
/// `region`: no slot was allocated or freed, every element is in the slot in
/// which it was, and nothing outside `region` was touched.
pub open spec fn rewritten<T>(before: Arena<T>, after: Arena<T>, region: Set<Handle>) -> bool {
    &&& after.wf()
    &&& after@.dom() == before@.dom()
    &&& before.same_books(after)
    &&& elems_kept(before@, after@, Set::empty())
    &&& unchanged_outside(before@, after@, region)
}

impl<T> Arena<T> {
    /// Whether the link `link` is red. An empty link is black.
    pub fn is_red(&self, link: Option<Handle>) -> (red: bool)
        requires
            link matches Some(h) ==> self.live(h),
        ensures
            red == (link matches Some(h) && self@[h].color == Color::Red),
    {
        match link {
            None => false,
            Some(h) => match self.read(h).color {
                Color::Red => true,
                Color::Black => false,
            },
        }
    }

    /// Rotates the subtree under `h` to the left and returns the handle of its
    /// new top.
    pub(crate) fn rotate_left(&mut self, h: Handle, Ghost(t): Ghost<Tree<T>>) -> (x: Handle)
        requires
            old(self).wf(),
            t.stored_in(old(self)@),
            t.root() == Some(h),
            t.right() is Fork,
        ensures
            rewritten(*old(self), *final(self), t.handles()),
            t.rotate_left().stored_in(final(self)@),
            t.rotate_left().root() == Some(x),
    {
        assert(t.right().stored_in(self@));
        let x = self.read(h).right.unwrap();
        let inner = self.read(x).left;
        self.write(h).right = inner;
        self.write(x).left = Some(h);
        let color = self.read(h).color;
        self.write(x).color = color;
        self.write(h).color = Color::Red;
        proof {
            let a = t.left();
            let b = t.right().left();
            let c = t.right().right();
            let region = set![h, x];
            assert(t.right().handles().contains(x));
            a.lemma_stored_frame(old(self)@, self@, region);
            b.lemma_stored_frame(old(self)@, self@, region);
            c.lemma_stored_frame(old(self)@, self@, region);
            assert(self@.dom() =~= old(self)@.dom());
            let low = t.painted(Color::Red).with_right(b);
            assert(low.stored_in(self@));
            t.lemma_rotate_left();
            assert(t.rotate_left().stored_in(self@));
        }
        x
    }

    /// Rotates the subtree under `h` to the right and returns the handle of its
    /// new top.
    pub(crate) fn rotate_right(&mut self, h: Handle, Ghost(t): Ghost<Tree<T>>) -> (x: Handle)
        requires
            old(self).wf(),
            t.stored_in(old(self)@),
            t.root() == Some(h),
            t.left() is Fork,
        ensures
            rewritten(*old(self), *final(self), t.handles()),
            t.rotate_right().stored_in(final(self)@),
            t.rotate_right().root() == Some(x),
    {
        assert(t.left().stored_in(self@));
        let x = self.read(h).left.unwrap();
        let inner = self.read(x).right;
        self.write(h).left = inner;
        self.write(x).right = Some(h);
        let color = self.read(h).color;
        self.write(x).color = color;
        self.write(h).color = Color::Red;
        proof {
            let a = t.left().left();
            let b = t.left().right();
            let c = t.right();
            let region = set![h, x];
            assert(t.left().handles().contains(x));
            a.lemma_stored_frame(old(self)@, self@, region);
            b.lemma_stored_frame(old(self)@, self@, region);
            c.lemma_stored_frame(old(self)@, self@, region);
            assert(self@.dom() =~= old(self)@.dom());
            let low = t.painted(Color::Red).with_left(b);
            assert(low.stored_in(self@));
            t.lemma_rotate_right();
            assert(t.rotate_right().stored_in(self@));
        }
        x
    }

    /// Flips the colour of the node under `h` and of both its children.
    pub(crate) fn flip_colors(&mut self, h: Handle, Ghost(t): Ghost<Tree<T>>)
        requires
            old(self).wf(),
            t.stored_in(old(self)@),
            t.root() == Some(h),
            t.left() is Fork,
            t.right() is Fork,
        ensures
            rewritten(*old(self), *final(self), t.handles()),
            t.flip_colors().stored_in(final(self)@),
            t.flip_colors().root() == Some(h),
    {
        assert(t.left().stored_in(self@));
        assert(t.right().stored_in(self@));
        let color = self.read(h).color.not();
        self.write(h).color = color;
        let left = self.read(h).left.unwrap();
        let left_color = self.read(left).color.not();
        self.write(left).color = left_color;
        let right = self.read(h).right.unwrap();
        let right_color = self.read(right).color.not();
        self.write(right).color = right_color;
        proof {
            let region = set![h, left, right];
            assert(t.left().handles().contains(left));
            assert(t.right().handles().contains(right));
            t.left().left().lemma_stored_frame(old(self)@, self@, region);
            t.left().right().lemma_stored_frame(old(self)@, self@, region);
            t.right().left().lemma_stored_frame(old(self)@, self@, region);
            t.right().right().lemma_stored_frame(old(self)@, self@, region);
            assert(self@.dom() =~= old(self)@.dom());
            assert(t.left().repainted().stored_in(self@));
            assert(t.right().repainted().stored_in(self@));
            assert(t.left().repainted().handles() =~= t.left().handles());
            assert(t.right().repainted().handles() =~= t.right().handles());
            t.lemma_flip_colors();
            assert(t.flip_colors().stored_in(self@));
        }
    }

    /// Repairs the balance rules at the node under `h` after its subtrees have
    /// changed, and returns the handle of the new top of the subtree.
    pub(crate) fn fixup(&mut self, h: Handle, Ghost(t): Ghost<Tree<T>>) -> (top: Handle)
        requires
            old(self).wf(),
            t.stored_in(old(self)@),
            t.root() == Some(h),
        ensures
            rewritten(*old(self), *final(self), t.handles()),
            t.fixup().stored_in(final(self)@),
            t.fixup().root() == Some(top),
    {
        let mut node = h;
        let ghost mut cur = t;
        proof {
            reveal(Tree::fixup);
        }
        assert(t.left().stored_in(self@));
        assert(t.right().stored_in(self@));
        if self.is_red(self.read(node).right) && !self.is_red(self.read(node).left) {
            node = self.rotate_left(node, Ghost(cur));
            proof {
                cur.lemma_rotate_left();
                cur = cur.rotate_left();
            }
        }
        assert(cur.left().stored_in(self@));
        assert(cur.left().left().stored_in(self@));
        if self.is_red(self.read(node).left) && self.is_red(
            self.read(self.read(node).left.unwrap()).left,
        ) {
            node = self.rotate_right(node, Ghost(cur));
            proof {
                cur.lemma_rotate_right();
                cur = cur.rotate_right();
            }
        }
        assert(cur.left().stored_in(self@));
        assert(cur.right().stored_in(self@));
        if self.is_red(self.read(node).left) && self.is_red(self.read(node).right) {
            self.flip_colors(node, Ghost(cur));
            proof {
                cur.lemma_flip_colors();
                cur = cur.flip_colors();
            }
        }
        node
    }

    /// Pushes a red link into the left subtree of the node under `h`, so that
    /// the descent to the left does not arrive at a node without a red link.
    /// Returns the handle of the new top of the subtree.
    pub(crate) fn move_red_left(&mut self, h: Handle, Ghost(t): Ghost<Tree<T>>) -> (top: Handle)
        requires
            old(self).wf(),
            t.stored_in(old(self)@),
            t.root() == Some(h),
            t.left() is Fork,
            t.right() is Fork,
        ensures
            rewritten(*old(self), *final(self), t.handles()),
            t.move_red_left().stored_in(final(self)@),
            t.move_red_left().root() == Some(top),
    {
        let mut node = h;
        self.flip_colors(node, Ghost(t));
        let ghost a = t.flip_colors();
        proof {
            reveal(Tree::move_red_left);
            t.lemma_flip_colors();
        }
        assert(a.right().stored_in(self@));
        assert(a.right().left().stored_in(self@));
        let right = self.read(node).right.unwrap();
        if self.is_red(self.read(right).left) {
            let ghost mid = *self;
            let new_right = self.rotate_right(right, Ghost(a.right()));
            let ghost turned = *self;
            self.write(node).right = Some(new_right);
            let ghost b = a.with_right(a.right().rotate_right());
            proof {
                a.right().lemma_rotate_right();
                assert(b.handles() =~= a.handles());
                let region = a.right().handles().insert(node);
                assert(unchanged_outside(mid@, self@, region));
                a.left().lemma_stored_frame(mid@, self@, region);
                a.right().rotate_right().lemma_stored_frame(turned@, self@, set![node]);
                assert(self@.dom() =~= old(self)@.dom());
                assert(b.stored_in(self@));
            }
            node = self.rotate_left(node, Ghost(b));
            proof {
                b.lemma_rotate_left();
            }
            self.flip_colors(node, Ghost(b.rotate_left()));
            proof {
                b.rotate_left().lemma_flip_colors();
            }
        }
        node
    }
}

} // verus!
