//! The balance rules, said of paths.
//!
//! `Tree::red_black` states the rules node by node. Here they are restated
//! for the paths that lead from the top of a tree downwards: every path to an
//! empty link crosses the same number of black links, and on no path does a
//! red link follow a red link or lean to the right. It follows that no path
//! is long: a tree that keeps the rules is at most about twice as deep as the
//! logarithm of its size.

use crate::arena::Color;
use crate::model::Tree;
use vstd::prelude::*;

verus! {

impl<T> Tree<T> {
    /// The subtree that is reached from the top by the turns of `path`, where
    /// `true` is a turn to the right and `false` one to the left. Past an
    /// empty link there is only the empty tree.
    pub open spec fn subtree(self, path: Seq<bool>) -> Tree<T>
        decreases path.len(),
    {
        if path.len() == 0 {
            self
        } else if path.first() {
            self.right().subtree(path.drop_first())
        } else {
            self.left().subtree(path.drop_first())
        }
    }

    /// `path` leads from the top through nodes to an empty link, and ends
    /// there.
    pub open spec fn reaches_empty_link(self, path: Seq<bool>) -> bool
        decreases path.len(),
    {
        if path.len() == 0 {
            self is Empty
        } else if path.first() {
            self is Fork && self.right().reaches_empty_link(path.drop_first())
        } else {
            self is Fork && self.left().reaches_empty_link(path.drop_first())
        }
    }

    /// The number of black links that `path` crosses, the link that leads to
    /// the top included.
    pub open spec fn black_links_on(self, path: Seq<bool>) -> nat
        decreases path.len(),
    {
        let here: nat = if self is Fork && self->color == Color::Black {
            1
        } else {
            0
        };
        if path.len() == 0 {
            here
        } else if path.first() {
            here + self.right().black_links_on(path.drop_first())
        } else {
            here + self.left().black_links_on(path.drop_first())
        }
    }

    /// In a tree that keeps the balance rules, every path from the top to an
    /// empty link crosses the same number of black links: the black height.
    pub proof fn lemma_black_balance(self, path: Seq<bool>)
        requires
            self.red_black(),
            self.reaches_empty_link(path),
        ensures
            self.black_links_on(path) == self.black_height(),
        decreases path.len(),
    {
        if path.len() > 0 {
            if path.first() {
                self.right().lemma_black_balance(path.drop_first());
            } else {
                self.left().lemma_black_balance(path.drop_first());
            }
        }
    }

    /// In a tree that keeps the balance rules, the rules hold at the end of
    /// every path: no node has a red right child, and no red node has a red
    /// child.
    pub proof fn lemma_rules_on_paths(self, path: Seq<bool>)
        requires
            self.red_black(),
        ensures
            self.subtree(path).red_black(),
            !self.subtree(path).right().is_red(),
            self.subtree(path).is_red() ==> !self.subtree(path).left().is_red(),
        decreases path.len(),
    {
        if path.len() > 0 {
            if path.first() {
                self.right().lemma_rules_on_paths(path.drop_first());
            } else {
                self.left().lemma_rules_on_paths(path.drop_first());
            }
        }
    }

    /// The number of nodes on the longest path from the top to an empty link.
    pub open spec fn height(self) -> nat
        decreases self,
    {
        match self {
            Tree::Empty => 0,
            Tree::Fork { left, right, .. } => 1 + if left.height() >= right.height() {
                left.height()
            } else {
                right.height()
            },
        }
    }

    /// A path from the top to an empty link passes at most as many nodes as
    /// the tree is high.
    pub proof fn lemma_path_within_height(self, path: Seq<bool>)
        requires
            self.reaches_empty_link(path),
        ensures
            path.len() <= self.height(),
        decreases path.len(),
    {
        if path.len() > 0 {
            if path.first() {
                self.right().lemma_path_within_height(path.drop_first());
            } else {
                self.left().lemma_path_within_height(path.drop_first());
            }
        }
    }

    /// A tree that keeps the balance rules is at most twice as high as its
    /// black height, and one more where its top is red: between two black
    /// links of a path there is at most one red link.
    pub proof fn lemma_height_bound(self)
        requires
            self.red_black(),
        ensures
            self.height() <= 2 * self.black_height() + if self.is_red() {
                1int
            } else {
                0int
            },
        decreases self,
    {
        match self {
            Tree::Empty => {},
            Tree::Fork { left, right, .. } => {
                left.lemma_height_bound();
                right.lemma_height_bound();
            },
        }
    }

    /// A tree that keeps the balance rules has at least as many nodes as a
    /// full binary tree of its black height: one less than two to the power
    /// of the black height.
    pub proof fn lemma_size_bound(self)
        requires
            self.red_black(),
        ensures
            pow2(self.black_height()) <= self.size() + 1,
        decreases self,
    {
        match self {
            Tree::Empty => {},
            Tree::Fork { left, right, .. } => {
                left.lemma_size_bound();
                right.lemma_size_bound();
            },
        }
    }

    /// The depth of a tree that keeps the balance rules under a black top is
    /// logarithmic in its size: with `b` its black height, no path is longer
    /// than `2 * b`, and the tree has at least `2^b - 1` nodes.
    pub proof fn lemma_shallow(self, path: Seq<bool>)
        requires
            self.red_black(),
            !self.is_red(),
            self.reaches_empty_link(path),
        ensures
            path.len() <= 2 * self.black_height(),
            pow2(self.black_height()) <= self.size() + 1,
    {
        self.lemma_path_within_height(path);
        self.lemma_height_bound();
        self.lemma_size_bound();
    }
}

/// Two to the power of `n`.
pub open spec fn pow2(n: nat) -> nat
    decreases n,
{
    if n == 0 {
        1
    } else {
        2 * pow2((n - 1) as nat)
    }
}

} // verus!
