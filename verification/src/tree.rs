//! The ordered set.
//!
//! A `BST` is an arena and the handle of the topmost node. Seen from outside
//! it is the ascending sequence of its elements, and every operation says
//! what it makes of that sequence. Seen from inside it is a tree, and every
//! operation says as well what becomes of the nodes and their slots.

use crate::arena::{Arena, Color, Handle, Node};
use crate::model::Tree;
use crate::order::total_order;
use crate::ordered::{
    after, all, ascending, has, insert_sorted, lemma_ascending_rest,
    lemma_insert_sorted_ascending, lemma_insert_sorted_len,
};
use vstd::prelude::*;

verus! {

/// An ordered set of elements, kept in a left-leaning red-black tree whose
/// nodes live in an arena.
#[derive(Clone, Debug)]
pub struct BST<T> {
    arena: Arena<T>,
    root: Option<Handle>,
}

impl<T> View for BST<T> {
    type V = Seq<T>;

    /// The elements from left to right, which is their ascending order.
    open spec fn view(&self) -> Seq<T> {
        self.tree().inorder()
    }
}

impl<T> BST<T> {
    /// The arena that holds the nodes.
    pub closed spec fn arena(&self) -> Arena<T> {
        self.arena
    }

    /// The link to the topmost node.
    pub closed spec fn top(&self) -> Option<Handle> {
        self.root
    }

    /// The arena stores `t` under the root.
    spec fn keeps(&self, t: Tree<T>) -> bool {
        t.stored_in(self.arena@) && t.root() == self.root
    }

    /// The tree that the arena stores under the root.
    pub closed spec fn tree(&self) -> Tree<T> {
        choose|t: Tree<T>| self.keeps(t)
    }

    /// The arena keeps its books, it stores a tree under the root, and the
    /// nodes of that tree are all the nodes there are.
    pub closed spec fn stored(&self) -> bool {
        &&& self.arena.wf()
        &&& exists|t: Tree<T>| self.keeps(t)
        &&& self.tree().handles() == self.arena@.dom()
        &&& self.tree().size() == self.arena@.dom().len()
    }

    /// The tree of the set is `t` if the arena stores `t` under the root.
    proof fn lemma_tree_is(&self, t: Tree<T>)
        requires
            self.keeps(t),
        ensures
            self.keeps(self.tree()),
            self.tree() == t,
    {
        self.tree().lemma_stored_unique(t, self.arena@);
    }

    /// The tree of a set that is stored sits in the arena under the link to
    /// the topmost node, its nodes are all the occupied slots, and there are
    /// as many of them as the set has elements.
    pub proof fn lemma_stored(&self)
        requires
            self.stored(),
        ensures
            self.arena().wf(),
            self.tree().stored_in(self.arena()@),
            self.tree().root() == self.top(),
            self.tree().handles() == self.arena()@.dom(),
            self.arena()@.dom().finite(),
            self.arena()@.dom().len() == self@.len(),
            self@.len() == self.tree().size(),
    {
        self.arena.lemma_handles();
        self.tree().lemma_inorder_len();
    }
}

impl<T: Ord> BST<T> {
    /// The invariant of the set: it is stored, its tree keeps the balance
    /// rules under a black root, and its elements are ascending, as far as
    /// the order of `T` is total.
    pub open spec fn wf(&self) -> bool {
        &&& self.stored()
        &&& self.tree().red_black()
        &&& !self.tree().is_red()
        &&& total_order::<T>() ==> ascending(self@)
    }

    /// The empty set.
    pub fn new() -> (set: Self)
        ensures
            set.wf(),
            set@ == Seq::<T>::empty(),
            set.tree() == Tree::<T>::Empty,
            set.arena()@ == Map::<Handle, Node<T>>::empty(),
            set.arena().free_list() == Seq::<Handle>::empty(),
            set.arena().slot_count() == 0,
    {
        let set = BST { arena: Arena::new(), root: None };
        proof {
            set.lemma_tree_is(Tree::Empty);
            assert(set.tree().handles() =~= set.arena@.dom());
        }
        set
    }

    /// The set that holds `elem` and nothing else, in a black node in the
    /// first slot.
    pub fn singleton(elem: T) -> (set: Self)
        ensures
            set.wf(),
            set@ == seq![elem],
            set.tree() == (Tree::Fork {
                left: Box::new(Tree::Empty),
                at: Handle(0),
                elem,
                color: Color::Black,
                right: Box::new(Tree::Empty),
            }),
            set.arena().free_list() == Seq::<Handle>::empty(),
            set.arena().slot_count() == 1,
    {
        let mut arena = Arena::new();
        let root = arena.allocate(elem, Color::Black);
        let set = BST { arena, root: Some(root) };
        proof {
            let t = Tree::Fork {
                left: Box::new(Tree::Empty),
                at: root,
                elem,
                color: Color::Black,
                right: Box::new(Tree::Empty),
            };
            reveal_with_fuel(Tree::stored_in, 2);
            reveal_with_fuel(Tree::handles, 2);
            reveal_with_fuel(Tree::size, 2);
            reveal_with_fuel(Tree::red_black, 2);
            reveal_with_fuel(Tree::inorder, 2);
            set.lemma_tree_is(t);
            assert(t.inorder() =~= seq![elem]);
            assert(t.handles() =~= set.arena@.dom());
        }
        set
    }

    /// The handle of the topmost node, or `None` for the empty set.
    pub fn root(&self) -> (top: Option<Handle>)
        ensures
            top == self.top(),
            self.stored() ==> top == self.tree().root(),
    {
        proof {
            if self.stored() {
                self.lemma_stored();
            }
        }
        self.root
    }

    /// The node that `h` names: its element, its colour and the handles of its
    /// children. `None` where `h` names no node of the set.
    pub fn node(&self, h: Handle) -> (node: Option<&Node<T>>)
        ensures
            node == if self.arena().live(h) {
                Some(&self.arena()@[h])
            } else {
                None
            },
    {
        self.arena.get(h)
    }

    /// The number of elements, which is the number of occupied slots.
    pub fn len(&self) -> (n: usize)
        requires
            self.wf(),
        ensures
            n == self@.len(),
            n == self.arena()@.dom().len(),
            n == self.arena().slot_count() - self.arena().free_list().len(),
    {
        proof {
            self.lemma_stored();
        }
        self.arena.occupied_count()
    }

    /// Whether the set holds no element.
    pub fn is_empty(&self) -> (empty: bool)
        requires
            self.wf(),
        ensures
            empty == (self@.len() == 0),
    {
        proof {
            self.lemma_stored();
        }
        self.root.is_none()
    }

    /// Whether the set holds an element that takes the place of `elem` in the
    /// order.
    pub fn member(&self, elem: &T) -> (found: bool)
        requires
            self.wf(),
        ensures
            total_order::<T>() ==> found == has(self@, *elem),
    {
        self.arena.member_at(self.root, elem, Ghost(self.tree()))
    }

    /// Puts `elem` into the set. An element that takes the same place in the
    /// order gives way to it, in the node in which it was; otherwise `elem`
    /// gets a node of its own, in the slot that the arena hands out next.
    /// Every other element stays in its node.
    pub fn insert(&mut self, elem: T)
        requires
            old(self).wf(),
        ensures
            final(self).wf(),
            total_order::<T>() ==> final(self)@ == insert_sorted(old(self)@, elem),
            exists|at: Handle|
                {
                    &&& #[trigger] old(self).arena().puts(final(self).arena(), at, elem)
                    &&& total_order::<T>() ==> {
                        &&& old(self).arena().live(at) == has(old(self)@, elem)
                        &&& at == old(self).tree().home_of(elem, old(self).arena().next_handle())
                        &&& final(self).tree() == old(self).tree().grown(elem, at).painted(
                            Color::Black,
                        )
                    }
                },
    {
        let ghost t = self.tree();
        proof {
            self.lemma_stored();
        }
        let (new_root, Ghost(u), Ghost(at)) = self.arena.insert_at(self.root, elem, Ghost(t));
        let ghost grown = self.arena;
        self.root = Some(new_root);
        self.arena.write(new_root).color = Color::Black;
        proof {
            let black = u.painted(Color::Black);
            let region = set![new_root];
            u.left().lemma_stored_frame(grown@, self.arena@, region);
            u.right().lemma_stored_frame(grown@, self.arena@, region);
            assert(self.arena@.dom() =~= grown@.dom());
            self.lemma_tree_is(black);
            assert(black.handles() =~= u.handles());
            if total_order::<T>() {
                lemma_insert_sorted_ascending(t.inorder(), elem);
                lemma_insert_sorted_len(t.inorder(), elem);
                t.lemma_inorder_len();
                u.lemma_inorder_len();
            }
            assert(old(self).arena().puts(self.arena(), at, elem));
        }
    }

    /// Takes every element out of the set and gives up every slot.
    pub fn clear(&mut self)
        ensures
            final(self).wf(),
            final(self)@ == Seq::<T>::empty(),
            final(self).tree() == Tree::<T>::Empty,
            final(self).arena()@ == Map::<Handle, Node<T>>::empty(),
            final(self).arena().free_list() == Seq::<Handle>::empty(),
            final(self).arena().slot_count() == 0,
    {
        self.root = None;
        self.arena.clear();
        proof {
            self.lemma_tree_is(Tree::Empty);
            assert(self.tree().handles() =~= self.arena@.dom());
        }
    }

    /// Takes the smallest element out of the set and returns it. Its slot is
    /// freed, and every other element stays in its node; where it was the only
    /// element, every slot is given up. Returns `None`, and changes nothing,
    /// if the set holds no element.
    pub fn take_min(&mut self) -> (min: Option<T>)
        requires
            old(self).wf(),
        ensures
            final(self).wf(),
            match min {
                Some(e) => {
                    &&& old(self)@.len() > 0
                    &&& e == old(self)@.first()
                    &&& final(self)@ == old(self)@.drop_first()
                    &&& total_order::<T>() ==> all(final(self)@, after(e))
                    &&& if old(self)@.len() == 1 {
                        &&& final(self).arena()@ == Map::<Handle, Node<T>>::empty()
                        &&& final(self).arena().free_list() == Seq::<Handle>::empty()
                        &&& final(self).arena().slot_count() == 0
                    } else {
                        &&& old(self).tree().first_handle() matches Some(at)
                        &&& old(self).arena().frees(final(self).arena(), at)
                        &&& old(self).arena()@[at].elem == e
                    }
                    &&& final(self).tree() == old(self).tree().shrunk().painted(Color::Black)
                },
                None => old(self)@.len() == 0 && *final(self) == *old(self),
            },
    {
        let ghost t = self.tree();
        proof {
            self.lemma_stored();
        }
        match self.root {
            None => None,
            Some(root) => {
                proof {
                    if total_order::<T>() {
                        lemma_ascending_rest(t.inorder());
                    }
                    t.left().lemma_inorder_len();
                    t.right().lemma_inorder_len();
                }
                if self.arena.read(root).left.is_none() {
                    proof {
                        t.lemma_shrink_last();
                        reveal_with_fuel(Tree::inorder, 2);
                        assert(t.shrunk() == Tree::<T>::Empty);
                    }
                    let min = self.arena.free(root);
                    self.root = None;
                    self.arena.clear();
                    proof {
                        self.lemma_tree_is(Tree::Empty);
                        assert(t.inorder().drop_first() =~= Seq::<T>::empty());
                        assert(self.tree().handles() =~= self.arena@.dom());
                    }
                    Some(min)
                } else {
                    let (min, new_root, Ghost(u), Ghost(at)) = self.arena.take_min_at(
                        root,
                        Ghost(t),
                    );
                    proof {
                        u.lemma_inorder_len();
                    }
                    let ghost shrunk = self.arena;
                    self.root = new_root;
                    self.arena.write(new_root.unwrap()).color = Color::Black;
                    proof {
                        let black = u.painted(Color::Black);
                        let region = set![new_root.unwrap()];
                        u.left().lemma_stored_frame(shrunk@, self.arena@, region);
                        u.right().lemma_stored_frame(shrunk@, self.arena@, region);
                        assert(self.arena@.dom() =~= shrunk@.dom());
                        self.lemma_tree_is(black);
                        assert(black.handles() =~= u.handles());
                        assert(old(self).arena().frees(self.arena(), at));
                    }
                    Some(min)
                }
            },
        }
    }
}

} // verus!
