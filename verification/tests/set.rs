use llrb::arena::{Color, Handle};
use llrb::BST;

/// Walks the subtree under `link` and returns its black height, checking on
/// the way the order of the elements between `low` and `high` and the balance
/// rules at every node. Pushes the elements from left to right onto `out`.
fn check_subtree(
    tree: &BST<i32>,
    link: Option<Handle>,
    low: Option<i32>,
    high: Option<i32>,
    parent_red: bool,
    out: &mut Vec<i32>,
) -> usize {
    let handle = match link {
        None => return 0,
        Some(handle) => handle,
    };
    let node = tree.node(handle).expect("a link leads to a node");
    if let Some(low) = low {
        assert!(low < node.elem);
    }
    if let Some(high) = high {
        assert!(node.elem < high);
    }
    let red = node.color == Color::Red;
    assert!(!(parent_red && red), "two red links in a row");
    let right_red = match node.right {
        None => false,
        Some(right) => tree.node(right).expect("a link leads to a node").color == Color::Red,
    };
    assert!(!right_red, "a red right link");
    let left = check_subtree(tree, node.left, low, Some(node.elem), red, out);
    out.push(node.elem);
    let right = check_subtree(tree, node.right, Some(node.elem), high, red, out);
    assert_eq!(left, right, "black heights differ");
    if red {
        left
    } else {
        left + 1
    }
}

/// Checks every invariant of the set and returns its elements in order.
fn check_invariants(tree: &BST<i32>) -> Vec<i32> {
    let mut out = Vec::new();
    let root = tree.root();
    if let Some(root) = root {
        let top = tree.node(root).expect("the root is a node");
        assert!(top.color == Color::Black, "the root is red");
    }
    check_subtree(tree, root, None, None, false, &mut out);
    assert_eq!(out.len(), tree.len());
    assert_eq!(out.is_empty(), tree.is_empty());
    out
}

#[test]
fn basics() {
    let e: BST<i32> = BST::new();
    let s = BST::singleton(2);

    assert_eq!(false, e.member(&1));
    assert_eq!(false, e.member(&2));
    assert_eq!(false, e.member(&3));

    assert_eq!(false, s.member(&1));
    assert_eq!(true, s.member(&2));
    assert_eq!(false, s.member(&3));
}

#[test]
fn insertion() {
    let mut s = BST::singleton(2);
    s.insert(1);
    assert_eq!(true, s.member(&1));
    assert_eq!(true, s.member(&2));
    assert_eq!(false, s.member(&3));

    s.insert(4);
    assert_eq!(true, s.member(&1));
    assert_eq!(true, s.member(&2));
    assert_eq!(false, s.member(&3));
    assert_eq!(true, s.member(&4));

    {
        let mut thousand: BST<i32> = BST::new();
        for i in 0..1000 {
            thousand.insert(i);
        }
        for i in 0..1000 {
            assert_eq!(true, thousand.member(&i));
        }
        assert_eq!(false, thousand.member(&1000));
    }

    {
        let mut thousand: BST<i32> = BST::new();
        for i in 0..1000 {
            if i % 2 == 0 {
                thousand.insert(i);
            }
        }
        for i in 0..1000 {
            assert_eq!(i % 2 == 0, thousand.member(&i));
        }
        for i in 0..1000 {
            if i % 2 == 1 {
                thousand.insert(i);
            }
        }
        for i in 0..1000 {
            assert_eq!(true, thousand.member(&i));
        }
    }

    {
        let mut ex: BST<i32> = BST::new();
        for c in 0..64 {
            ex.insert(c);
            let elems = check_invariants(&ex);
            assert_eq!(elems, (0..=c).collect::<Vec<i32>>());
            println!("");
        }
    }

    {
        let mut ex: BST<i32> = BST::new();
        let v: [i32; 20] = [14, 9, 12, 6, 2, 10, 1, 18, 16, 5, 8, 17, 13, 3, 11, 15, 7, 19, 4, 20];
        for c in &v {
            ex.insert(*c);
            check_invariants(&ex);
            println!("");
        }
        assert_eq!(check_invariants(&ex), (1..=20).collect::<Vec<i32>>());
    }
}

#[test]
fn taking_minimum() {
    {
        let mut tree: BST<i32> = BST::new();
        tree.insert(2);
        tree.insert(3);
        tree.insert(5);
        assert_eq!(tree.take_min(), Some(2)); // [3,5]
        tree.insert(1); // [1,3,5]
        assert_eq!(tree.take_min(), Some(1)); // [3,5]
        assert_eq!(tree.take_min(), Some(3)); // [5]
        tree.insert(2); // [2,5]
        tree.insert(1); // [1,2,5]
        assert_eq!(tree.take_min(), Some(1));
        assert_eq!(tree.take_min(), Some(2));
        assert_eq!(tree.take_min(), Some(5));
        assert_eq!(tree.take_min(), None);
        println!("Passed: take_min for a manual test case with interleaved insertions and deletions")
    }

    {
        let mut tree: BST<i32> = BST::new();
        for size in 0..10 {
            for i in 0..size {
                tree.insert(i);
            }
            for i in 0..size {
                assert_eq!(tree.take_min(), Some(i));
            }
            assert_eq!(tree.take_min(), None);
            println!("Passed: take_min for tree with {} element(s)", size);
        }
    }
}

/// A small pseudo-random generator, so that the runs below are the same on
/// every machine.
fn next_random(state: &mut u64) -> u64 {
    *state = state.wrapping_mul(6364136223846793005).wrapping_add(1442695040888963407);
    *state >> 33
}

/// The handle of the node that holds `elem`, found by walking down from the
/// root.
fn handle_of(tree: &BST<i32>, elem: i32) -> Option<Handle> {
    let mut link = tree.root();
    while let Some(handle) = link {
        let node = tree.node(handle).expect("a link leads to a node");
        if node.elem == elem {
            return Some(handle);
        }
        link = if elem < node.elem { node.left } else { node.right };
    }
    None
}

#[test]
fn new_set_is_empty() {
    let mut e: BST<i32> = BST::new();
    assert_eq!(e.len(), 0);
    assert!(e.is_empty());
    assert_eq!(e.root(), None);
    assert!(e.node(Handle(0)).is_none());
    assert_eq!(e.take_min(), None);
    assert_eq!(e.len(), 0);
    assert!(e.is_empty());
    assert_eq!(check_invariants(&e), Vec::<i32>::new());
}

#[test]
fn singleton_is_one_black_node_in_the_first_slot() {
    let s = BST::singleton(7);
    assert_eq!(s.len(), 1);
    assert!(!s.is_empty());
    assert_eq!(s.root(), Some(Handle(0)));
    let node = s.node(Handle(0)).expect("the root is a node");
    assert_eq!(node.elem, 7);
    assert!(node.color == Color::Black);
    assert_eq!(node.left, None);
    assert_eq!(node.right, None);
    assert!(s.node(Handle(1)).is_none());
    assert_eq!(check_invariants(&s), vec![7]);
}

#[test]
fn first_insertion_makes_a_black_root() {
    let mut s: BST<i32> = BST::new();
    s.insert(7);
    assert_eq!(s.root(), Some(Handle(0)));
    assert!(s.node(Handle(0)).expect("the root is a node").color == Color::Black);
    assert_eq!(check_invariants(&s), vec![7]);
}

#[test]
fn second_insertion_leans_left() {
    let mut s: BST<i32> = BST::new();
    s.insert(1);
    s.insert(2);
    // The larger element came second and would hang to the right of the
    // first; the repair turns it into the root with the first as its red
    // left child.
    let root = s.root().expect("the set has a root");
    let top = s.node(root).expect("the root is a node");
    assert_eq!(top.elem, 2);
    assert!(top.color == Color::Black);
    assert_eq!(top.right, None);
    let left = s.node(top.left.expect("the root has a left child")).expect("a link leads to a node");
    assert_eq!(left.elem, 1);
    assert!(left.color == Color::Red);
    assert_eq!(check_invariants(&s), vec![1, 2]);
}

#[test]
fn third_insertion_splits_into_three_black_nodes() {
    let mut s: BST<i32> = BST::new();
    s.insert(1);
    s.insert(2);
    s.insert(3);
    let root = s.root().expect("the set has a root");
    let top = s.node(root).expect("the root is a node");
    assert_eq!(top.elem, 2);
    let left = s.node(top.left.expect("a left child")).expect("a link leads to a node");
    let right = s.node(top.right.expect("a right child")).expect("a link leads to a node");
    assert_eq!(left.elem, 1);
    assert_eq!(right.elem, 3);
    assert!(left.color == Color::Black);
    assert!(right.color == Color::Black);
    assert_eq!(check_invariants(&s), vec![1, 2, 3]);
}

#[test]
fn take_min_on_empty_set_changes_nothing() {
    let mut s: BST<i32> = BST::new();
    s.insert(4);
    assert_eq!(s.take_min(), Some(4));
    assert_eq!(s.take_min(), None);
    assert_eq!(s.take_min(), None);
    assert!(s.is_empty());
    assert_eq!(s.len(), 0);
    s.insert(9);
    assert_eq!(check_invariants(&s), vec![9]);
}

#[test]
fn duplicates_do_not_grow_the_set() {
    let mut s: BST<i32> = BST::new();
    let run = [5, 3, 5, 8, 3, 3, 1, 8, 5, 1];
    let mut distinct = std::collections::BTreeSet::new();
    for e in run {
        s.insert(e);
        distinct.insert(e);
        assert_eq!(s.len(), distinct.len());
        assert_eq!(check_invariants(&s), distinct.iter().copied().collect::<Vec<i32>>());
    }
    assert_eq!(s.len(), 4);
    for e in 0..10 {
        assert_eq!(s.member(&e), distinct.contains(&e));
    }
}

#[test]
fn member_reflects_what_was_inserted() {
    let mut state = 12345;
    let mut s: BST<i32> = BST::new();
    let mut model = std::collections::BTreeSet::new();
    for _ in 0..500 {
        let e = (next_random(&mut state) % 200) as i32;
        s.insert(e);
        model.insert(e);
    }
    for e in -5..205 {
        assert_eq!(s.member(&e), model.contains(&e));
    }
    assert_eq!(s.len(), model.len());
    assert_eq!(check_invariants(&s), model.iter().copied().collect::<Vec<i32>>());
}

#[test]
fn elements_stay_ascending_and_balanced_through_mixed_operations() {
    let mut state = 987654321;
    let mut s: BST<i32> = BST::new();
    let mut model = std::collections::BTreeSet::new();
    for step in 0..2000 {
        if next_random(&mut state) % 3 == 0 {
            let expected = model.iter().next().copied();
            if let Some(min) = expected {
                model.remove(&min);
            }
            assert_eq!(s.take_min(), expected);
        } else {
            let e = (next_random(&mut state) % 300) as i32;
            s.insert(e);
            model.insert(e);
        }
        if step % 7 == 0 {
            assert_eq!(check_invariants(&s), model.iter().copied().collect::<Vec<i32>>());
        }
        assert_eq!(s.len(), model.len());
        assert_eq!(s.is_empty(), model.is_empty());
    }
    assert_eq!(check_invariants(&s), model.iter().copied().collect::<Vec<i32>>());
}

#[test]
fn balance_rules_hold_while_the_set_is_drained() {
    let mut s: BST<i32> = BST::new();
    for e in [50, 20, 80, 10, 30, 70, 90, 5, 15, 25, 35, 65, 75, 85, 95, 1, 99, 42, 58] {
        s.insert(e);
    }
    let mut expected = check_invariants(&s);
    while !expected.is_empty() {
        assert_eq!(s.take_min(), Some(expected.remove(0)));
        assert_eq!(check_invariants(&s), expected);
    }
    assert_eq!(s.take_min(), None);
}

#[test]
fn take_min_yields_strictly_increasing_elements_until_empty() {
    let mut state = 2024;
    let mut s: BST<i32> = BST::new();
    for _ in 0..300 {
        s.insert((next_random(&mut state) % 1000) as i32);
    }
    let mut previous: Option<i32> = None;
    let mut taken = 0;
    let size = s.len();
    while let Some(e) = s.take_min() {
        if let Some(p) = previous {
            assert!(p < e);
        }
        previous = Some(e);
        taken += 1;
    }
    assert_eq!(taken, size);
    assert!(s.is_empty());
    assert_eq!(s.len(), 0);
    assert_eq!(s.take_min(), None);
}

#[test]
fn distinct_insertions_come_out_in_sorted_order() {
    let run = [31, 4, 15, 9, 26, 5, 35, 8, 97, 93, 2, 38, 46, 64, 33, 83, 27, 95, 0, 28];
    let mut s: BST<i32> = BST::new();
    for e in run {
        s.insert(e);
    }
    assert_eq!(s.len(), run.len());
    let mut out = Vec::new();
    for _ in 0..run.len() {
        out.push(s.take_min().expect("an element is left"));
    }
    let mut sorted = run.to_vec();
    sorted.sort();
    assert_eq!(out, sorted);
    assert_eq!(s.len(), 0);
    assert!(s.is_empty());
    assert_eq!(s.take_min(), None);
}

#[test]
fn descending_insertions_come_out_ascending() {
    let mut s: BST<i32> = BST::new();
    for e in (0..200).rev() {
        s.insert(e);
    }
    assert_eq!(check_invariants(&s), (0..200).collect::<Vec<i32>>());
    for e in 0..200 {
        assert_eq!(s.take_min(), Some(e));
    }
    assert_eq!(s.take_min(), None);
}

/// An element whose place in the order is given by its key alone.
#[derive(Debug, Clone)]
struct Keyed {
    key: u32,
    label: &'static str,
}

impl PartialEq for Keyed {
    fn eq(&self, other: &Self) -> bool {
        self.key == other.key
    }
}

impl Eq for Keyed {}

impl PartialOrd for Keyed {
    fn partial_cmp(&self, other: &Self) -> Option<std::cmp::Ordering> {
        Some(self.cmp(other))
    }
}

impl Ord for Keyed {
    fn cmp(&self, other: &Self) -> std::cmp::Ordering {
        self.key.cmp(&other.key)
    }
}

#[test]
fn insertion_replaces_the_element_that_takes_the_same_place() {
    let mut s: BST<Keyed> = BST::new();
    s.insert(Keyed { key: 2, label: "two" });
    s.insert(Keyed { key: 1, label: "one" });
    s.insert(Keyed { key: 3, label: "three" });
    let root_before = s.root();
    s.insert(Keyed { key: 1, label: "uno" });
    assert_eq!(s.len(), 3);
    assert_eq!(s.root(), root_before);
    assert!(s.member(&Keyed { key: 1, label: "" }));
    assert_eq!(s.take_min().expect("an element is left").label, "uno");
    assert_eq!(s.take_min().expect("an element is left").label, "two");
    assert_eq!(s.take_min().expect("an element is left").label, "three");
    assert!(s.take_min().is_none());
}

#[test]
fn insertion_keeps_every_element_in_its_node() {
    let mut s: BST<i32> = BST::new();
    let mut homes = Vec::new();
    for e in [8, 3, 10, 1, 6, 14, 4, 7, 13] {
        s.insert(e);
        for (elem, handle) in &homes {
            assert_eq!(handle_of(&s, *elem), Some(*handle));
        }
        homes.push((e, handle_of(&s, e).expect("the element was put in")));
    }
    // An element that is put in again keeps the node of the one it replaces.
    s.insert(6);
    for (elem, handle) in &homes {
        assert_eq!(handle_of(&s, *elem), Some(*handle));
    }
    // Nodes are allocated in the order of insertion.
    for (index, (_, handle)) in homes.iter().enumerate() {
        assert_eq!(*handle, Handle(index));
    }
}

#[test]
fn take_min_frees_one_slot_and_keeps_the_others() {
    let mut s: BST<i32> = BST::new();
    for e in [8, 3, 10, 1, 6, 14, 4, 7, 13] {
        s.insert(e);
    }
    let freed = handle_of(&s, 1).expect("the smallest element is in the set");
    let homes: Vec<(i32, Handle)> = [3, 4, 6, 7, 8, 10, 13, 14]
        .iter()
        .map(|e| (*e, handle_of(&s, *e).expect("the element is in the set")))
        .collect();
    assert_eq!(s.take_min(), Some(1));
    assert!(s.node(freed).is_none());
    for (elem, handle) in &homes {
        assert_eq!(handle_of(&s, *elem), Some(*handle));
    }
    assert_eq!(s.len(), 8);
}

#[test]
fn freed_slots_are_reused_last_in_first_out() {
    let mut s: BST<i32> = BST::new();
    for e in [10, 20, 30, 40, 50] {
        s.insert(e);
    }
    let first = handle_of(&s, 10).expect("the element is in the set");
    let second = handle_of(&s, 20).expect("the element is in the set");
    assert_eq!(s.take_min(), Some(10));
    assert_eq!(s.take_min(), Some(20));
    s.insert(60);
    assert_eq!(handle_of(&s, 60), Some(second));
    s.insert(70);
    assert_eq!(handle_of(&s, 70), Some(first));
    s.insert(80);
    assert_eq!(handle_of(&s, 80), Some(Handle(5)));
    assert_eq!(check_invariants(&s), vec![30, 40, 50, 60, 70, 80]);
}

#[test]
fn draining_the_last_element_gives_up_every_slot() {
    let mut s: BST<i32> = BST::new();
    for e in [3, 1, 2] {
        s.insert(e);
    }
    assert_eq!(s.take_min(), Some(1));
    assert_eq!(s.take_min(), Some(2));
    assert_eq!(s.take_min(), Some(3));
    assert!(s.node(Handle(0)).is_none());
    assert!(s.node(Handle(1)).is_none());
    assert!(s.node(Handle(2)).is_none());
    // With every slot given up, the next nodes start at the first slot again
    // rather than at the slot that was freed last.
    s.insert(9);
    assert_eq!(s.root(), Some(Handle(0)));
    s.insert(8);
    assert_eq!(handle_of(&s, 8), Some(Handle(1)));
}

#[test]
fn clear_gives_up_every_element_and_slot() {
    let mut s: BST<i32> = BST::new();
    for e in 0..50 {
        s.insert(e);
    }
    s.clear();
    assert_eq!(s.len(), 0);
    assert!(s.is_empty());
    assert_eq!(s.root(), None);
    for e in 0..50 {
        assert!(!s.member(&e));
        assert!(s.node(Handle(e as usize)).is_none());
    }
    assert_eq!(s.take_min(), None);
    s.insert(5);
    assert_eq!(s.root(), Some(Handle(0)));
    assert_eq!(check_invariants(&s), vec![5]);
    s.clear();
    s.clear();
    assert!(s.is_empty());
}

#[test]
fn len_counts_the_occupied_slots() {
    let mut s: BST<i32> = BST::new();
    for e in 0..10 {
        s.insert(e);
    }
    for _ in 0..4 {
        s.take_min();
    }
    // Ten slots, four of them free.
    assert_eq!(s.len(), 6);
    let occupied = (0..10).filter(|i| s.node(Handle(*i)).is_some()).count();
    assert_eq!(occupied, 6);
    assert!(s.node(Handle(10)).is_none());
}

#[test]
fn a_clone_goes_its_own_way() {
    let mut s: BST<i32> = BST::new();
    for e in [2, 1, 3] {
        s.insert(e);
    }
    let mut c = s.clone();
    assert_eq!(c.take_min(), Some(1));
    c.insert(7);
    assert_eq!(check_invariants(&s), vec![1, 2, 3]);
    assert_eq!(check_invariants(&c), vec![2, 3, 7]);
}

#[test]
fn large_set_stays_shallow() {
    let mut s: BST<i32> = BST::new();
    for e in 0..4096 {
        s.insert(e);
    }
    // No path is longer than twice the black height, and a tree of black
    // height b has at least 2^b - 1 nodes: with 4096 nodes the black height
    // is at most 12 and the leftmost path at most 24 nodes long.
    let mut depth = 0;
    let mut link = s.root();
    while let Some(handle) = link {
        depth += 1;
        link = s.node(handle).expect("a link leads to a node").left;
    }
    assert!(depth <= 24);
    assert_eq!(check_invariants(&s).len(), 4096);
}
