use llrb::arena::{Arena, Color, Handle, Node};

#[test]
fn new_arena_has_no_slots() {
    let arena: Arena<i32> = Arena::new();
    assert_eq!(arena.occupied_count(), 0);
    assert!(arena.get(Handle(0)).is_none());
}

#[test]
fn allocation_grows_from_the_first_slot() {
    let mut arena: Arena<&str> = Arena::new();
    assert_eq!(arena.allocate("a", Color::Red), Handle(0));
    assert_eq!(arena.allocate("b", Color::Black), Handle(1));
    assert_eq!(arena.allocate("c", Color::Red), Handle(2));
    assert_eq!(arena.occupied_count(), 3);
    assert_eq!(arena.read(Handle(0)).elem, "a");
    assert_eq!(arena.read(Handle(1)).elem, "b");
    assert_eq!(arena.read(Handle(2)).elem, "c");
}

#[test]
fn new_node_has_no_children() {
    let mut arena: Arena<i32> = Arena::new();
    let h = arena.allocate(5, Color::Red);
    let node = arena.read(h);
    assert_eq!(node.elem, 5);
    assert!(node.color == Color::Red);
    assert_eq!(node.left, None);
    assert_eq!(node.right, None);
    let node = Node::new(6, Color::Black);
    assert_eq!(node.elem, 6);
    assert!(node.color == Color::Black);
    assert_eq!(node.left, None);
    assert_eq!(node.right, None);
}

#[test]
fn free_returns_the_element_and_empties_the_slot() {
    let mut arena: Arena<String> = Arena::new();
    let a = arena.allocate(String::from("a"), Color::Red);
    let b = arena.allocate(String::from("b"), Color::Red);
    assert_eq!(arena.free(a), "a");
    assert!(arena.get(a).is_none());
    assert_eq!(arena.get(b).expect("the slot is occupied").elem, "b");
    assert_eq!(arena.occupied_count(), 1);
}

#[test]
fn freed_slot_is_taken_last_in_first_out() {
    let mut arena: Arena<i32> = Arena::new();
    for e in 0..5 {
        arena.allocate(e, Color::Red);
    }
    arena.free(Handle(1));
    arena.free(Handle(3));
    arena.free(Handle(0));
    assert_eq!(arena.occupied_count(), 2);
    assert_eq!(arena.allocate(10, Color::Red), Handle(0));
    assert_eq!(arena.allocate(11, Color::Red), Handle(3));
    assert_eq!(arena.allocate(12, Color::Red), Handle(1));
    // No slot is free any more: the arena grows.
    assert_eq!(arena.allocate(13, Color::Red), Handle(5));
    assert_eq!(arena.occupied_count(), 6);
    assert_eq!(arena.read(Handle(3)).elem, 11);
    assert_eq!(arena.read(Handle(2)).elem, 2);
}

#[test]
fn occupied_count_is_slots_less_free_slots() {
    let mut arena: Arena<i32> = Arena::new();
    for e in 0..7 {
        arena.allocate(e, Color::Black);
    }
    arena.free(Handle(2));
    arena.free(Handle(6));
    arena.free(Handle(4));
    // Seven slots, three of them free.
    assert_eq!(arena.occupied_count(), 4);
}

#[test]
fn write_changes_the_node_in_place() {
    let mut arena: Arena<i32> = Arena::new();
    let a = arena.allocate(1, Color::Red);
    let b = arena.allocate(2, Color::Red);
    arena.write(a).right = Some(b);
    arena.write(a).color = Color::Black;
    arena.write(b).elem = 20;
    let node = arena.read(a);
    assert_eq!(node.elem, 1);
    assert!(node.color == Color::Black);
    assert_eq!(node.left, None);
    assert_eq!(node.right, Some(b));
    assert_eq!(arena.read(b).elem, 20);
    assert_eq!(arena.occupied_count(), 2);
}

#[test]
fn get_answers_for_every_handle() {
    let mut arena: Arena<i32> = Arena::new();
    let a = arena.allocate(1, Color::Red);
    assert_eq!(arena.get(a).expect("the slot is occupied").elem, 1);
    assert!(arena.get(Handle(1)).is_none());
    assert!(arena.get(Handle(usize::MAX)).is_none());
    arena.free(a);
    assert!(arena.get(a).is_none());
}

#[test]
fn clear_drops_every_slot() {
    let mut arena: Arena<i32> = Arena::new();
    for e in 0..4 {
        arena.allocate(e, Color::Red);
    }
    arena.free(Handle(2));
    arena.clear();
    assert_eq!(arena.occupied_count(), 0);
    for i in 0..4 {
        assert!(arena.get(Handle(i)).is_none());
    }
    // The free list is gone with the slots.
    assert_eq!(arena.allocate(9, Color::Red), Handle(0));
}

#[test]
fn is_red_tells_the_colour_of_a_link() {
    let mut arena: Arena<i32> = Arena::new();
    let red = arena.allocate(1, Color::Red);
    let black = arena.allocate(2, Color::Black);
    assert!(arena.is_red(Some(red)));
    assert!(!arena.is_red(Some(black)));
    assert!(!arena.is_red(None));
}

#[test]
fn not_flips_a_colour() {
    assert!(!Color::Red == Color::Black);
    assert!(!Color::Black == Color::Red);
    assert!(!!Color::Red == Color::Red);
}
