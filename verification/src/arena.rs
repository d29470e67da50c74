//! Node storage.
//!
//! All nodes of a tree live in one growable vector of optional slots. A node is
//! named by a `Handle`, the index of its slot. A slot that has been freed is
//! remembered on a stack and handed out again before the vector grows.

use vstd::prelude::*;

verus! {

/// The name of a slot of an arena.
#[derive(Clone, Copy, Debug, PartialEq, Eq, Structural)]
pub struct Handle(pub usize);

/// The colour of the link that leads to a node from its parent.
#[derive(Clone, Copy, Debug, PartialEq, Eq, Structural)]
pub enum Color {
    Red,
    Black,
}

impl Color {
    /// The other colour.
    pub open spec fn flipped(self) -> Color {
        match self {
            Color::Red => Color::Black,
            Color::Black => Color::Red,
        }
    }
}

impl core::ops::Not for Color {
    type Output = Color;

    fn not(self) -> (c: Color) {
        match self {
            Color::Red => Color::Black,
            Color::Black => Color::Red,
        }
    }
}

impl vstd::std_specs::ops::NotSpecImpl for Color {
    open spec fn obeys_not_spec() -> bool {
        true
    }

    open spec fn not_req(self) -> bool {
        true
    }

    open spec fn not_spec(self) -> Color {
        self.flipped()
    }
}

/// One element with its colour and the handles of its two children.
#[derive(Clone, Debug)]
pub struct Node<T> {
    pub elem: T,
    pub color: Color,
    pub left: Option<Handle>,
    pub right: Option<Handle>,
}

impl<T> Node<T> {
    /// A node without children.
    pub fn new(elem: T, color: Color) -> (node: Self)
        ensures
            node == (Node { elem, color, left: None, right: None }),
    {
        Node { elem, color, left: None, right: None }
    }
}

/// The slots of a tree and the stack of those that are free.
#[derive(Clone, Debug)]
pub struct Arena<T> {
    slots: Vec<Option<Node<T>>>,
    free: Vec<Handle>,
}

impl<T> View for Arena<T> {
    type V = Map<Handle, Node<T>>;

    /// The occupied slots: each live handle with the node it names.
    closed spec fn view(&self) -> Map<Handle, Node<T>> {
        occupied(self.slots@)
    }
}

/// The occupied slots of a sequence of slots.
spec fn occupied<T>(slots: Seq<Option<Node<T>>>) -> Map<Handle, Node<T>> {
    Map::new(
        |h: Handle| h.0 < slots.len() && slots[h.0 as int] is Some,
        |h: Handle| slots[h.0 as int]->0,
    )
}

/// Every slot is either occupied or exactly once on the free list.
spec fn accounted<T>(slots: Seq<Option<Node<T>>>, free: Seq<Handle>) -> bool {
    &&& forall|j: int|
        0 <= j < free.len() ==> (#[trigger] free[j]).0 < slots.len() && slots[free[j].0 as int]
            is None
    &&& free.no_duplicates()
    &&& occupied(slots).dom().finite()
    &&& occupied(slots).dom().len() + free.len() == slots.len()
}

/// Every slot that is live in `before` and lies outside `region` has the same
/// content in `after`.
pub open spec fn unchanged_outside<T>(
    before: Map<Handle, Node<T>>,
    after: Map<Handle, Node<T>>,
    region: Set<Handle>,
) -> bool {
    forall|h: Handle| #[trigger]
        before.dom().contains(h) && !region.contains(h) ==> after.dom().contains(h) && after[h]
            == before[h]
}

/// Every slot that is live in `before`, but for those in `except`, is live in
/// `after` and holds the same element there.
pub open spec fn elems_kept<T>(
    before: Map<Handle, Node<T>>,
    after: Map<Handle, Node<T>>,
    except: Set<Handle>,
) -> bool {
    forall|h: Handle| #[trigger]
        before.dom().contains(h) && !except.contains(h) ==> after.dom().contains(h)
            && after[h].elem == before[h].elem
}

impl<T> Arena<T> {
    /// The free handles, the most recently freed one last.
    pub closed spec fn free_list(&self) -> Seq<Handle> {
        self.free@
    }

    /// The number of slots, occupied or free.
    pub closed spec fn slot_count(&self) -> nat {
        self.slots@.len()
    }

    /// Every slot is either occupied or exactly once on the free list.
    pub closed spec fn wf(&self) -> bool {
        accounted(self.slots@, self.free@)
    }

    /// `h` names an occupied slot.
    pub open spec fn live(&self, h: Handle) -> bool {
        self@.dom().contains(h)
    }

    /// The handle that the next allocation returns: the one that was freed
    /// last, or the one past the last slot where no slot is free.
    pub open spec fn next_handle(&self) -> Handle {
        if self.free_list().len() > 0 {
            self.free_list().last()
        } else {
            Handle(self.slot_count() as usize)
        }
    }

    /// `after` has the free list and the slot count of `self`.
    pub open spec fn same_books(&self, after: Arena<T>) -> bool {
        &&& after.free_list() == self.free_list()
        &&& after.slot_count() == self.slot_count()
    }

    /// `after` has the free list and the slot count that `self` has after one
    /// allocation: the free list has lost its last handle, or, where it was
    /// empty, there is one slot more.
    pub open spec fn allocates_to(&self, after: Arena<T>) -> bool {
        if self.free_list().len() > 0 {
            &&& after.free_list() == self.free_list().drop_last()
            &&& after.slot_count() == self.slot_count()
        } else {
            &&& after.free_list() == self.free_list()
            &&& after.slot_count() == self.slot_count() + 1
        }
    }

    /// `after` is `self` with `elem` put into the slot `at`, which either held
    /// an element before or is the slot of a new allocation. Every other
    /// element is in the slot in which it was.
    pub open spec fn puts(&self, after: Arena<T>, at: Handle, elem: T) -> bool {
        &&& after@.dom() == self@.dom().insert(at)
        &&& after@[at].elem == elem
        &&& elems_kept(self@, after@, set![at])
        &&& if self.live(at) {
            self.same_books(after)
        } else {
            at == self.next_handle() && self.allocates_to(after)
        }
    }

    /// `after` is `self` with the slot `at` freed. Every other element is in
    /// the slot in which it was.
    pub open spec fn frees(&self, after: Arena<T>, at: Handle) -> bool {
        &&& self.live(at)
        &&& after@.dom() == self@.dom().remove(at)
        &&& elems_kept(self@, after@, set![at])
        &&& after.free_list() == self.free_list().push(at)
        &&& after.slot_count() == self.slot_count()
    }

    /// Live handles lie below the slot count, free handles too, and no handle
    /// is both live and free.
    pub proof fn lemma_handles(&self)
        requires
            self.wf(),
        ensures
            self@.dom().finite(),
            self@.dom().len() + self.free_list().len() == self.slot_count(),
            self.free_list().no_duplicates(),
            forall|h: Handle| self.live(h) ==> h.0 < self.slot_count(),
            forall|j: int|
                0 <= j < self.free_list().len() ==> (#[trigger] self.free_list()[j]).0
                    < self.slot_count() && !self.live(self.free_list()[j]),
    {
    }

    /// An arena without slots.
    pub fn new() -> (arena: Self)
        ensures
            arena.wf(),
            arena@ == Map::<Handle, Node<T>>::empty(),
            arena.free_list() == Seq::<Handle>::empty(),
            arena.slot_count() == 0,
    {
        let arena = Arena { slots: Vec::new(), free: Vec::new() };
        assert(arena@ =~= Map::<Handle, Node<T>>::empty());
        arena
    }

    /// Stores a new node without children and returns its handle. The most
    /// recently freed slot is taken if there is one; otherwise the arena grows
    /// by one slot.
    pub fn allocate(&mut self, elem: T, color: Color) -> (h: Handle)
        requires
            old(self).wf(),
        ensures
            final(self).wf(),
            !old(self).live(h),
            final(self)@ == old(self)@.insert(h, Node { elem, color, left: None, right: None }),
            h == old(self).next_handle(),
            old(self).allocates_to(*final(self)),
    {
        let node = Some(Node::new(elem, color));
        if let Some(index) = self.free.pop() {
            self.slots[index.0] = node;
            assert(self@ =~= old(self)@.insert(index, node->0));
            index
        } else {
            self.slots.push(node);
            let index = Handle(self.slots.len() - 1);
            assert(self@ =~= old(self)@.insert(index, node->0));
            index
        }
    }

    /// The node that `h` names.
    pub fn read(&self, h: Handle) -> (node: &Node<T>)
        requires
            self.live(h),
        ensures
            *node == self@[h],
    {
        self.slots[h.0].as_ref().unwrap()
    }

    /// The node that `h` names, or `None` where `h` names no occupied slot.
    pub fn get(&self, h: Handle) -> (node: Option<&Node<T>>)
        ensures
            node == if self.live(h) {
                Some(&self@[h])
            } else {
                None
            },
    {
        if h.0 < self.slots.len() {
            self.slots[h.0].as_ref()
        } else {
            None
        }
    }

    /// The node that `h` names, for writing.
    pub fn write(&mut self, h: Handle) -> (node: &mut Node<T>)
        requires
            old(self).wf(),
            old(self).live(h),
        ensures
            *node == old(self)@[h],
            final(self)@ == old(self)@.insert(h, *final(node)),
            final(self).wf(),
            final(self).free_list() == old(self).free_list(),
            final(self).slot_count() == old(self).slot_count(),
    {
        proof {
            let slots = self.slots@;
            let free = self.free@;
            assert forall|slot: Option<Node<T>>| slot is Some implies {
                &&& occupied(#[trigger] slots.update(h.0 as int, slot)) == occupied(slots).insert(
                    h,
                    slot->0,
                )
                &&& accounted(slots.update(h.0 as int, slot), free)
            } by {
                let after = slots.update(h.0 as int, slot);
                assert(occupied(after) =~= occupied(slots).insert(h, slot->0));
                assert(occupied(after).dom() =~= occupied(slots).dom());
            }
        }
        self.slots[h.0].as_mut().unwrap()
    }

    /// Frees the slot that `h` names and returns the element that was in it.
    pub fn free(&mut self, h: Handle) -> (elem: T)
        requires
            old(self).wf(),
            old(self).live(h),
        ensures
            elem == old(self)@[h].elem,
            final(self)@ == old(self)@.remove(h),
            final(self).wf(),
            final(self).free_list() == old(self).free_list().push(h),
            final(self).slot_count() == old(self).slot_count(),
    {
        self.free.push(h);
        let node = self.slots[h.0].take().unwrap();
        assert(self@ =~= old(self)@.remove(h));
        node.elem
    }

    /// The number of occupied slots.
    pub fn occupied_count(&self) -> (n: usize)
        requires
            self.wf(),
        ensures
            n == self@.dom().len(),
            n == self.slot_count() - self.free_list().len(),
    {
        self.slots.len() - self.free.len()
    }

    /// Drops every slot.
    pub fn clear(&mut self)
        ensures
            final(self).wf(),
            final(self)@ == Map::<Handle, Node<T>>::empty(),
            final(self).free_list() == Seq::<Handle>::empty(),
            final(self).slot_count() == 0,
    {
        self.slots.clear();
        self.free.clear();
        assert(self@ =~= Map::<Handle, Node<T>>::empty());
    }
}

} // verus!
