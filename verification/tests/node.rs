use bptree::node::{Node, NodeType};
use bptree::slot::{Either, Slot};

fn leaf_with(keys: &[u32]) -> Node<u32, u32> {
    let mut n: Node<u32, u32> = Node::new_leaf(8);
    for k in keys {
        n.insert(Slot::new_leaf(*k, *k * 10));
    }
    n
}

fn internal_with(seps: &[(u32, usize)]) -> Node<u32, u32> {
    let mut n: Node<u32, u32> = Node::new_internal(8);
    for (k, c) in seps {
        n.insert(Slot::new_internal(*k, *c));
    }
    n
}

#[test]
fn new_nodes_are_empty() {
    let l: Node<u32, u32> = Node::new_leaf(6);
    assert_eq!(l.t, NodeType::Leaf);
    assert!(l.is_leaf());
    assert!(l.is_empty());
    assert_eq!(l.values.len(), 0);
    assert_eq!(l.next, None);
    assert_eq!(l.max, 6);
    assert_eq!(l.threshold, 3);
    assert!(!l.is_root);
    let i: Node<u32, u32> = Node::new_internal(9);
    assert_eq!(i.t, NodeType::Internal);
    assert!(!i.is_leaf());
    assert!(i.is_empty());
    assert_eq!(i.next, None);
    assert_eq!(i.max, 9);
    assert_eq!(i.threshold, 4);
    assert!(!i.is_root);
}

#[test]
fn almost_full_at_half_of_max() {
    let mut n: Node<u32, u32> = Node::new_leaf(8);
    for k in 0..3 {
        n.insert(Slot::new_leaf(k, k));
        assert!(!n.almost_full());
    }
    n.insert(Slot::new_leaf(3, 3));
    assert!(n.almost_full());

    let mut odd: Node<u32, u32> = Node::new_leaf(5);
    odd.insert(Slot::new_leaf(1, 1));
    assert!(!odd.almost_full());
    odd.insert(Slot::new_leaf(2, 2));
    assert!(odd.almost_full());

    let none: Node<u32, u32> = Node::new_leaf(1);
    assert!(none.almost_full());

    // the threshold can be set apart from the capacity
    let mut late: Node<u32, u32> = Node::new_leaf(4);
    late.threshold = 3;
    late.insert(Slot::new_leaf(1, 1));
    late.insert(Slot::new_leaf(2, 2));
    assert!(!late.almost_full());
    late.insert(Slot::new_leaf(3, 3));
    assert!(late.almost_full());
}

#[test]
fn insert_keeps_order_and_first_value() {
    let mut n = leaf_with(&[5, 1, 3]);
    assert_eq!(n.iter(), vec![Slot::new_leaf(1, 10), Slot::new_leaf(3, 30), Slot::new_leaf(5, 50)]);
    n.insert(Slot::new_leaf(3, 999));
    assert_eq!(n.iter(), vec![Slot::new_leaf(1, 10), Slot::new_leaf(3, 30), Slot::new_leaf(5, 50)]);
    n.insert(Slot::new_leaf(0, 7));
    n.insert(Slot::new_leaf(9, 8));
    assert_eq!(
        n.iter(),
        vec![
            Slot::new_leaf(0, 7),
            Slot::new_leaf(1, 10),
            Slot::new_leaf(3, 30),
            Slot::new_leaf(5, 50),
            Slot::new_leaf(9, 8)
        ]
    );
}

#[test]
fn replace_overwrites_and_hands_back() {
    let mut n = leaf_with(&[1, 3, 5]);
    assert_eq!(n.replace(Slot::new_leaf(3, 333)), Some(Slot::new_leaf(3, 30)));
    assert_eq!(n.replace(Slot::new_leaf(4, 44)), None);
    assert_eq!(
        n.iter(),
        vec![Slot::new_leaf(1, 10), Slot::new_leaf(3, 333), Slot::new_leaf(4, 44), Slot::new_leaf(5, 50)]
    );
}

#[test]
fn delete_removes_from_leaves_only() {
    let mut n = leaf_with(&[1, 3, 5]);
    assert!(n.delete(3));
    assert!(!n.delete(3));
    assert!(!n.delete(4));
    assert_eq!(n.iter(), vec![Slot::new_leaf(1, 10), Slot::new_leaf(5, 50)]);
    assert!(n.delete(1));
    assert!(n.delete(5));
    assert!(n.is_empty());
    assert!(!n.delete(5));

    let mut i = internal_with(&[(10, 0), (20, 1)]);
    assert!(!i.delete(10));
    assert_eq!(i.iter(), vec![Slot::new_internal(10, 0), Slot::new_internal(20, 1)]);
}

#[test]
fn get_finds_by_key() {
    let n = leaf_with(&[1, 3, 5]);
    assert_eq!(n.get(3), Some(Slot::new_leaf(3, 30)));
    assert_eq!(n.get(1), Some(Slot::new_leaf(1, 10)));
    assert_eq!(n.get(5), Some(Slot::new_leaf(5, 50)));
    assert_eq!(n.get(0), None);
    assert_eq!(n.get(4), None);
    assert_eq!(n.get(6), None);
    let i = internal_with(&[(10, 4), (20, 7)]);
    assert_eq!(i.get(20), Some(Slot::new_internal(20, 7)));
    assert_eq!(i.get(15), None);
    let e: Node<u32, u32> = Node::new_leaf(4);
    assert_eq!(e.get(0), None);
}

#[test]
fn ends_of_a_node() {
    let n = leaf_with(&[4, 2, 8]);
    assert_eq!(n.first(), Some(&Slot::new_leaf(2, 20)));
    assert_eq!(n.last(), Some(&Slot::new_leaf(8, 80)));
    assert_eq!(n.first_k(), Some(2));
    assert_eq!(n.last_k(), Some(8));
    assert_eq!(n.first_v(), Some(Either::Left(20)));
    assert_eq!(n.last_v(), Some(Either::Left(80)));
    let e: Node<u32, u32> = Node::new_internal(4);
    assert_eq!(e.first(), None);
    assert_eq!(e.last(), None);
    assert_eq!(e.first_k(), None);
    assert_eq!(e.last_k(), None);
    assert_eq!(e.first_v(), None);
    assert_eq!(e.last_v(), None);
    let i = internal_with(&[(10, 4), (20, 7)]);
    assert_eq!(i.first_v(), Some(Either::Right(4)));
    assert_eq!(i.last_v(), Some(Either::Right(7)));
}

#[test]
fn position_counts_keys_up_to_the_probe() {
    let n = leaf_with(&[10, 20, 30]);
    assert_eq!(n.position(&5), 0);
    assert_eq!(n.position(&10), 1);
    assert_eq!(n.position(&15), 1);
    assert_eq!(n.position(&20), 2);
    assert_eq!(n.position(&30), 3);
    assert_eq!(n.position(&99), 3);
}

#[test]
fn find_child_takes_first_separator_strictly_above() {
    let i = internal_with(&[(10, 4), (20, 7), (30, 9)]);
    assert_eq!(i.find_child(Slot::new_leaf(0, 0)), Some(4));
    assert_eq!(i.find_child(Slot::new_leaf(9, 0)), Some(4));
    // a key equal to a separator belongs to the next child
    assert_eq!(i.find_child(Slot::new_leaf(10, 0)), Some(7));
    assert_eq!(i.find_child(Slot::new_leaf(19, 0)), Some(7));
    assert_eq!(i.find_child(Slot::new_leaf(20, 0)), Some(9));
    assert_eq!(i.find_child(Slot::new_leaf(29, 0)), Some(9));
    assert_eq!(i.find_child(Slot::new_leaf(30, 0)), None);
    assert_eq!(i.find_child(Slot::new_leaf(31, 0)), None);
    // the probe's payload plays no part
    assert_eq!(i.find_child(Slot::new_internal(10, 0)), Some(7));
}

#[test]
fn find_child_of_a_leaf_is_none() {
    let n = leaf_with(&[1, 3, 5]);
    assert_eq!(n.find_child(Slot::new_leaf(0, 0)), None);
    assert_eq!(n.find_child(Slot::new_leaf(3, 0)), None);
    let e: Node<u32, u32> = Node::new_internal(4);
    assert_eq!(e.find_child(Slot::new_leaf(3, 0)), None);
}

#[test]
fn split_moves_upper_half_from_the_median() {
    let mut n = leaf_with(&[1, 2, 3, 4, 5]);
    n.next = Some(17);
    n.is_root = true;
    let gt = n.split(23);
    assert_eq!(n.iter(), vec![Slot::new_leaf(1, 10), Slot::new_leaf(2, 20)]);
    assert_eq!(gt.iter(), vec![Slot::new_leaf(3, 30), Slot::new_leaf(4, 40), Slot::new_leaf(5, 50)]);
    assert_eq!(gt.t, NodeType::Leaf);
    assert_eq!(gt.max, 8);
    assert_eq!(gt.threshold, 4);
    assert!(!gt.is_root);
    assert!(n.is_root);
    // the new leaf takes its place in the chain right behind the old one
    assert_eq!(gt.next, Some(17));
    assert_eq!(n.next, Some(23));
}

#[test]
fn split_of_even_and_single() {
    let mut n = leaf_with(&[1, 2, 3, 4]);
    let gt = n.split(1);
    assert_eq!(n.iter(), vec![Slot::new_leaf(1, 10), Slot::new_leaf(2, 20)]);
    assert_eq!(gt.iter(), vec![Slot::new_leaf(3, 30), Slot::new_leaf(4, 40)]);
    assert_eq!(gt.next, None);
    assert_eq!(n.next, Some(1));

    let mut one = leaf_with(&[9]);
    let gt = one.split(2);
    assert!(one.is_empty());
    assert_eq!(gt.iter(), vec![Slot::new_leaf(9, 90)]);
}

#[test]
fn split_of_an_internal_node_leaves_the_chain_alone() {
    let mut i = internal_with(&[(10, 4), (20, 7), (30, 9)]);
    let gt = i.split(5);
    assert_eq!(i.iter(), vec![Slot::new_internal(10, 4)]);
    assert_eq!(gt.iter(), vec![Slot::new_internal(20, 7), Slot::new_internal(30, 9)]);
    assert_eq!(gt.t, NodeType::Internal);
    assert_eq!(i.next, None);
    assert_eq!(gt.next, None);
}

#[test]
fn separator_is_exclusive_bound() {
    let n = leaf_with(&[1, 3, 5]);
    assert_eq!(n.separator(12), Slot::new_internal(6, 12));
    let i = internal_with(&[(10, 4), (20, 7)]);
    assert_eq!(i.separator(3), Slot::new_internal(20, 3));
}

#[test]
fn get_separator_reports_only_after_a_split() {
    let n = leaf_with(&[1, 3, 5]);
    assert_eq!(n.get_separator(12, None), None);
    assert_eq!(n.get_separator(12, Some(13)), Some((Slot::new_internal(6, 12), 13)));
    let i = internal_with(&[(10, 4), (20, 7)]);
    assert_eq!(i.get_separator(2, Some(5)), Some((Slot::new_internal(20, 2), 5)));
    let e: Node<u32, u32> = Node::new_leaf(4);
    assert_eq!(e.get_separator(0, None), None);
}

#[test]
fn get_separators_gives_both_bounds() {
    let lower = leaf_with(&[1, 3]);
    let upper = leaf_with(&[5, 8]);
    assert_eq!(lower.get_separators(2, None), None);
    assert_eq!(
        lower.get_separators(2, Some((&upper, 6))),
        Some((Slot::new_internal(4, 2), Slot::new_internal(9, 6)))
    );
    let li = internal_with(&[(10, 4)]);
    let ui = internal_with(&[(20, 7), (30, 9)]);
    assert_eq!(
        li.get_separators(1, Some((&ui, 3))),
        Some((Slot::new_internal(10, 1), Slot::new_internal(30, 3)))
    );
}

#[test]
fn set_last_files_a_child_under_its_bound() {
    let mut parent = internal_with(&[(4, 0)]);
    let child = leaf_with(&[5, 8]);
    assert_eq!(parent.set_last(&child, 6), None);
    assert_eq!(parent.iter(), vec![Slot::new_internal(4, 0), Slot::new_internal(9, 6)]);
    // the same bound again evicts the slot that had it
    let other = leaf_with(&[8]);
    assert_eq!(parent.set_last(&other, 7), Some(Slot::new_internal(9, 6)));
    assert_eq!(parent.iter(), vec![Slot::new_internal(4, 0), Slot::new_internal(9, 7)]);
}
