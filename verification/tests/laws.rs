use bptree::btree::BTree;
use bptree::node::NodeType;
use bptree::slot::{Either, Slot};
use rand::seq::SliceRandom;
use rand::thread_rng;
use std::collections::BTreeMap;

fn shuffled(range: std::ops::Range<u8>) -> Vec<u8> {
    let mut keys = range.collect::<Vec<u8>>();
    keys.shuffle(&mut thread_rng());
    keys
}

/// Walks the chain of leaves and returns the arena indices in visiting order.
fn walk(tree: &BTree<u8, u8>) -> Vec<usize> {
    let mut seen = Vec::new();
    let mut cur = tree.get_leftmost_leaf();
    while let Some(id) = cur {
        assert!(seen.len() <= tree.len(), "the chain does not end");
        seen.push(id);
        cur = tree.node(id).next;
    }
    seen
}

fn check_shape(tree: &BTree<u8, u8>, max: usize) {
    check_shape_with(tree, max, max / 2);
}

fn check_shape_with(tree: &BTree<u8, u8>, max: usize, threshold: usize) {
    for id in 0..tree.len() {
        let node = tree.node(id);
        assert!(node.values.len() <= max);
        assert!(node.values.len() <= threshold.max(2));
        assert_eq!(node.max, max);
        assert_eq!(node.threshold, threshold);
        assert_eq!(node.is_root, tree.root() == Some(id));
        if node.t == NodeType::Internal {
            assert_eq!(node.next, None);
            assert!(!node.values.is_empty());
        }
        for w in node.values.windows(2) {
            assert!(w[0].0 < w[1].0);
        }
    }
    let chain = walk(tree);
    let mut sorted = chain.clone();
    sorted.sort();
    sorted.dedup();
    assert_eq!(sorted.len(), chain.len(), "a leaf was visited twice");
    let leaves: Vec<usize> =
        (0..tree.len()).filter(|id| tree.node(*id).t == NodeType::Leaf).collect();
    assert_eq!(sorted, leaves, "a leaf is missing from the chain");
}

#[test]
fn round_trip_last_write_wins() {
    let mut tree: BTree<u8, u8> = BTree::new(6);
    for round in 0..3u8 {
        for k in shuffled(0..120) {
            tree.insert(Slot::new_leaf(k, k.wrapping_mul(round + 1)));
        }
    }
    for k in 0..120u8 {
        assert_eq!(tree.get(k), Some(k.wrapping_mul(3)));
    }
    for k in 120..=255u8 {
        assert_eq!(tree.get(k), None);
    }
}

#[test]
fn deletion_removes_one_key_only() {
    let mut tree: BTree<u8, u8> = BTree::new(8);
    for k in shuffled(0..90) {
        tree.insert(Slot::new_leaf(k, k + 1));
    }
    assert!(tree.delete(40));
    assert_eq!(tree.get(40), None);
    for k in (0..90u8).filter(|k| *k != 40) {
        assert_eq!(tree.get(k), Some(k + 1));
    }
    assert!(!tree.delete(40));
    assert!(!tree.delete(200));
}

#[test]
fn upsert_does_not_duplicate() {
    let mut tree: BTree<u8, u8> = BTree::new(4);
    for k in shuffled(0..30) {
        tree.insert(Slot::new_leaf(k, 1));
    }
    tree.insert(Slot::new_leaf(17, 2));
    tree.insert(Slot::new_leaf(17, 3));
    let scan = tree.scan();
    assert_eq!(scan.iter().filter(|(k, _)| *k == 17).count(), 1);
    assert_eq!(scan.iter().find(|(k, _)| *k == 17), Some(&(17, 3)));
    assert_eq!(scan.len(), 30);
    assert_eq!(tree.get(17), Some(3));
}

#[test]
fn scan_is_ordered_and_complete() {
    for max in [2usize, 3, 4, 5, 8, 16] {
        let mut tree: BTree<u8, u8> = BTree::new(max);
        let mut model = BTreeMap::new();
        for k in shuffled(0..200) {
            tree.insert(Slot::new_leaf(k, k ^ 0x55));
            model.insert(k, k ^ 0x55);
        }
        for k in shuffled(50..150) {
            assert_eq!(tree.delete(k), model.remove(&k).is_some());
        }
        for k in shuffled(100..255) {
            tree.insert(Slot::new_leaf(k, k));
            model.insert(k, k);
        }
        let want: Vec<(u8, u8)> = model.iter().map(|(k, v)| (*k, *v)).collect();
        assert_eq!(tree.scan(), want);
        for k in 0..=255u8 {
            assert_eq!(tree.get(k), model.get(&k).copied());
        }
        check_shape(&tree, max);
    }
}

#[test]
fn leaf_chain_visits_every_leaf_once() {
    let mut tree: BTree<u8, u8> = BTree::new(4);
    check_shape(&tree, 4);
    assert_eq!(walk(&tree), Vec::<usize>::new());
    for k in shuffled(0..250) {
        tree.insert(Slot::new_leaf(k, k));
        check_shape(&tree, 4);
    }
    for k in shuffled(0..250) {
        tree.delete(k);
        check_shape(&tree, 4);
    }
}

#[test]
fn root_split_adds_one_level() {
    let max = 6usize;
    let mut tree: BTree<u8, u8> = BTree::new(max);
    assert_eq!(tree.height(), 0);
    let mut grown = 0;
    for k in shuffled(0..255) {
        let before = tree.height();
        let due = match tree.root() {
            None => false,
            Some(r) => {
                let n = tree.node(r).values.len();
                n >= max / 2 && n >= 2
            }
        };
        let old_root = tree.root();
        tree.insert(Slot::new_leaf(k, k));
        let after = tree.height();
        if before == 0 {
            assert_eq!(after, 1);
        } else if due {
            assert_eq!(after, before + 1);
            assert_ne!(tree.root(), old_root);
            grown += 1;
        } else {
            assert_eq!(after, before);
            assert_eq!(tree.root(), old_root);
        }
    }
    assert!(grown > 0);
}

#[test]
fn insert_fifty_delete_half_insert_more() {
    let mut tree: BTree<u8, u8> = BTree::new(8);
    let keys = shuffled(0..50);
    for k in &keys {
        tree.insert(Slot::new_leaf(*k, *k + 10));
    }
    for k in 0..50u8 {
        assert_eq!(tree.get(k), Some(k + 10));
    }

    // delete the lower half
    for k in 0..25u8 {
        assert!(tree.delete(k));
    }
    for k in 0..25u8 {
        assert_eq!(tree.get(k), None);
    }
    for k in 25..50u8 {
        assert_eq!(tree.get(k), Some(k + 10));
    }

    // insert an overlapping range
    for k in shuffled(25..100) {
        tree.insert(Slot::new_leaf(k, k + 10));
    }
    for k in 25..100u8 {
        assert_eq!(tree.get(k), Some(k + 10));
    }
    for k in 0..25u8 {
        assert_eq!(tree.get(k), None);
    }
}

#[test]
fn scan_of_ten_in_key_order() {
    let mut tree: BTree<u8, u8> = BTree::new(4);
    for k in shuffled(0..10) {
        tree.insert(Slot::new_leaf(k, k + 10));
    }
    assert_eq!(
        tree.scan(),
        vec![(0, 10), (1, 11), (2, 12), (3, 13), (4, 14), (5, 15), (6, 16), (7, 17), (8, 18), (9, 19)]
    );
}

#[test]
fn insert_then_delete_single_key() {
    let mut tree: BTree<u8, u8> = BTree::new(4);
    tree.insert(Slot::new_leaf(5, 50));
    let root = tree.root();
    assert!(root.is_some());
    assert!(tree.delete(5));
    assert_eq!(tree.scan(), vec![]);
    assert_eq!(tree.root(), root);
    assert_eq!(tree.height(), 1);
    tree.insert(Slot::new_leaf(3, 30));
    tree.insert(Slot::new_leaf(9, 90));
    assert_eq!(tree.scan(), vec![(3, 30), (9, 90)]);
    assert_eq!(tree.get(3), Some(30));
}

#[test]
fn empty_tree() {
    let mut tree: BTree<u32, u32> = BTree::new(2);
    assert_eq!(tree.get(0), None);
    assert!(!tree.delete(0));
    assert_eq!(tree.scan(), vec![]);
    assert_eq!(tree.height(), 0);
    assert_eq!(tree.root(), None);
    assert_eq!(tree.len(), 0);
    assert_eq!(tree.get_leftmost_leaf(), None);
}

#[test]
fn can_insert_refuses_the_greatest_key_and_child_slots() {
    assert!(BTree::<u8, u8>::can_insert(&Slot::new_leaf(254, 0)));
    assert!(!BTree::<u8, u8>::can_insert(&Slot::new_leaf(255, 0)));
    assert!(!BTree::<u8, u8>::can_insert(&Slot::new_internal(3, 0)));
    assert!(BTree::<i8, u8>::can_insert(&Slot::new_leaf(-128, 0)));
    assert!(!BTree::<i8, u8>::can_insert(&Slot::new_leaf(127, 0)));
}

#[test]
fn keys_up_to_the_last_but_one() {
    let mut tree: BTree<u8, u8> = BTree::new(4);
    for k in shuffled(200..255) {
        assert!(BTree::<u8, u8>::can_insert(&Slot::new_leaf(k, k)));
        tree.insert(Slot::new_leaf(k, k));
    }
    assert_eq!(tree.get(254), Some(254));
    assert_eq!(tree.get(255), None);
    assert!(!tree.delete(255));
    assert_eq!(tree.scan().last(), Some(&(254, 254)));
}

#[test]
fn signed_keys() {
    let mut tree: BTree<i16, i32> = BTree::new(5);
    let mut keys: Vec<i16> = (-300..300).collect();
    keys.shuffle(&mut thread_rng());
    for k in &keys {
        tree.insert(Slot::new_leaf(*k, *k as i32 * 2));
    }
    let want: Vec<(i16, i32)> = (-300..300).map(|k| (k, k as i32 * 2)).collect();
    assert_eq!(tree.scan(), want);
    assert_eq!(tree.get(-300), Some(-600));
    assert_eq!(tree.get(-301), None);
}

#[test]
fn shape_after_four_ascending_inserts() {
    // fanout 4: a node is due for a split at two slots
    let mut tree: BTree<u8, u8> = BTree::new(4);
    tree.insert(Slot::new_leaf(0, 10));
    tree.insert(Slot::new_leaf(1, 11));
    assert_eq!(tree.len(), 1);
    assert_eq!(tree.height(), 1);
    assert_eq!(tree.node(0).iter(), vec![Slot::new_leaf(0, 10), Slot::new_leaf(1, 11)]);

    // the third insert splits the root leaf at its median and grows a root
    tree.insert(Slot::new_leaf(2, 12));
    assert_eq!(tree.len(), 3);
    assert_eq!(tree.height(), 2);
    assert_eq!(tree.root(), Some(2));
    assert_eq!(tree.node(0).iter(), vec![Slot::new_leaf(0, 10)]);
    assert_eq!(tree.node(1).iter(), vec![Slot::new_leaf(1, 11), Slot::new_leaf(2, 12)]);
    // separators are one past the last key of each leaf
    assert_eq!(tree.node(2).iter(), vec![Slot::new_internal(1, 0), Slot::new_internal(3, 1)]);
    assert_eq!(tree.node(0).next, Some(1));
    assert_eq!(tree.node(1).next, None);
    assert!(tree.node(2).is_root);
    assert!(!tree.node(0).is_root);

    // the fourth splits the root; no separator lies above the key, so a
    // new leaf is hung at the end of the upper half
    tree.insert(Slot::new_leaf(3, 13));
    assert_eq!(tree.len(), 6);
    assert_eq!(tree.height(), 3);
    assert_eq!(tree.root(), Some(5));
    assert_eq!(tree.node(2).iter(), vec![Slot::new_internal(1, 0)]);
    assert_eq!(tree.node(3).iter(), vec![Slot::new_internal(3, 1), Slot::new_internal(4, 4)]);
    assert_eq!(tree.node(4).iter(), vec![Slot::new_leaf(3, 13)]);
    assert_eq!(tree.node(5).iter(), vec![Slot::new_internal(1, 2), Slot::new_internal(4, 3)]);
    assert_eq!(tree.node(1).next, Some(4));
    assert_eq!(tree.node(4).next, None);
    assert!(!tree.node(2).is_root);
    assert_eq!(tree.scan(), vec![(0, 10), (1, 11), (2, 12), (3, 13)]);
    assert_eq!(walk(&tree), vec![0, 1, 4]);
}

#[test]
fn key_on_the_split_boundary_stays_unique() {
    // keys 0 and 1 fill the leaf; writing 0 again splits it and must reach
    // the lower half, where key 0 lives
    let mut tree: BTree<u8, u8> = BTree::new(4);
    tree.insert(Slot::new_leaf(0, 1));
    tree.insert(Slot::new_leaf(1, 1));
    tree.insert(Slot::new_leaf(0, 2));
    assert_eq!(tree.scan(), vec![(0, 2), (1, 1)]);
    tree.insert(Slot::new_leaf(1, 3));
    assert_eq!(tree.scan(), vec![(0, 2), (1, 3)]);
}

#[test]
fn small_fanouts_keep_both_halves_filled() {
    for max in [2usize, 3] {
        let mut tree: BTree<u8, u8> = BTree::new(max);
        for k in shuffled(0..100) {
            tree.insert(Slot::new_leaf(k, k));
        }
        for id in 0..tree.len() {
            let n = tree.node(id);
            assert!(!n.values.is_empty());
            assert!(n.values.len() <= 2);
        }
        let want: Vec<(u8, u8)> = (0..100).map(|k| (k, k)).collect();
        assert_eq!(tree.scan(), want);
    }
}

#[test]
fn delete_keeps_nodes_and_separators() {
    let mut tree: BTree<u8, u8> = BTree::new(4);
    for k in 0..40u8 {
        tree.insert(Slot::new_leaf(k, k));
    }
    let nodes = tree.len();
    let height = tree.height();
    let root = tree.root();
    for k in 0..40u8 {
        assert!(tree.delete(k));
    }
    assert_eq!(tree.len(), nodes);
    assert_eq!(tree.height(), height);
    assert_eq!(tree.root(), root);
    assert_eq!(tree.scan(), vec![]);
    // the emptied leaves are still in the chain and can be filled again
    for k in shuffled(0..40) {
        tree.insert(Slot::new_leaf(k, k + 1));
    }
    let want: Vec<(u8, u8)> = (0..40).map(|k| (k, k + 1)).collect();
    assert_eq!(tree.scan(), want);
}

#[test]
fn leaf_payloads_are_values() {
    let mut tree: BTree<u8, u8> = BTree::new(4);
    for k in 0..20u8 {
        tree.insert(Slot::new_leaf(k, k));
    }
    for id in walk(&tree) {
        for s in tree.node(id).iter() {
            assert!(matches!(s.1, Either::Left(_)));
        }
    }
}

#[test]
fn delete_changes_one_leaf_only() {
    let mut tree: BTree<u8, u8> = BTree::new(4);
    for k in 0..30u8 {
        tree.insert(Slot::new_leaf(k, k));
    }
    let before: Vec<Vec<Slot<u8, u8>>> = (0..tree.len()).map(|id| tree.node(id).iter()).collect();
    assert!(tree.delete(13));
    let mut changed = Vec::new();
    for id in 0..tree.len() {
        if tree.node(id).iter() != before[id] {
            changed.push(id);
        }
    }
    assert_eq!(changed.len(), 1);
    let leaf = tree.node(changed[0]);
    assert_eq!(leaf.t, NodeType::Leaf);
    let mut want = before[changed[0]].clone();
    want.retain(|s| s.0 != 13);
    assert_eq!(leaf.iter(), want);
    // a key that is not there changes nothing
    assert!(!tree.delete(13));
}

#[test]
fn insert_keeps_kinds_and_nodes() {
    let mut tree: BTree<u8, u8> = BTree::new(4);
    for k in shuffled(0..200) {
        let kinds: Vec<NodeType> = (0..tree.len()).map(|id| tree.node(id).t).collect();
        tree.insert(Slot::new_leaf(k, k));
        assert!(tree.len() >= kinds.len());
        for (id, t) in kinds.iter().enumerate() {
            assert_eq!(tree.node(id).t, *t);
        }
    }
}

#[test]
fn new_root_stands_over_the_old_one() {
    let mut tree: BTree<u8, u8> = BTree::new(4);
    tree.insert(Slot::new_leaf(10, 0));
    assert_eq!(tree.root(), Some(0));
    assert_eq!(tree.len(), 1);
    tree.insert(Slot::new_leaf(20, 0));
    assert_eq!(tree.root(), Some(0));
    tree.insert(Slot::new_leaf(30, 0));
    let top = tree.root().unwrap();
    assert_eq!(top, tree.len() - 1);
    let node = tree.node(top);
    assert_eq!(node.t, NodeType::Internal);
    assert_eq!(node.values.len(), 2);
    assert_eq!(node.values[0].1, Either::Right(0));
    assert_ne!(node.values[1].1, Either::Right(0));
}

#[test]
fn threshold_sets_when_nodes_split() {
    for (max, threshold) in [(8usize, 8usize), (8, 5), (8, 1), (8, 0), (2, 2), (3, 1), (16, 3)] {
        let mut tree: BTree<u8, u8> = BTree::with_threshold(max, threshold);
        for k in shuffled(0..220) {
            tree.insert(Slot::new_leaf(k, k));
            check_shape_with(&tree, max, threshold);
        }
        for k in shuffled(0..110) {
            assert!(tree.delete(k));
        }
        let want: Vec<(u8, u8)> = (110..220).map(|k| (k, k)).collect();
        assert_eq!(tree.scan(), want);
        check_shape_with(&tree, max, threshold);
    }
}

#[test]
fn threshold_of_the_whole_fanout_fills_the_root_first() {
    let mut tree: BTree<u8, u8> = BTree::with_threshold(6, 6);
    for k in 0..6u8 {
        tree.insert(Slot::new_leaf(k, k));
        assert_eq!(tree.height(), 1);
        assert_eq!(tree.len(), 1);
    }
    assert_eq!(tree.node(0).values.len(), 6);
    // the seventh entry finds the root at its threshold
    tree.insert(Slot::new_leaf(6, 6));
    assert_eq!(tree.height(), 2);
    assert_eq!(tree.node(0).values.len(), 3);
    assert_eq!(tree.node(1).values.len(), 4);
}

#[test]
fn new_takes_half_the_fanout_as_threshold() {
    let mut tree: BTree<u8, u8> = BTree::new(9);
    tree.insert(Slot::new_leaf(1, 1));
    assert_eq!(tree.node(0).max, 9);
    assert_eq!(tree.node(0).threshold, 4);
}

/// The number of levels on the longest way from node `id` down to a leaf.
fn longest_way(tree: &BTree<u8, u8>, id: usize) -> usize {
    let node = tree.node(id);
    let mut below = 0;
    for s in node.iter() {
        if let Either::Right(c) = s.1 {
            below = below.max(longest_way(tree, c));
        }
    }
    1 + below
}

#[test]
fn height_is_the_longest_way_down() {
    for (max, threshold) in [(4usize, 2usize), (8, 4), (3, 1), (6, 6), (16, 3)] {
        let mut tree: BTree<u8, u8> = BTree::with_threshold(max, threshold);
        assert_eq!(tree.height(), 0);
        for k in shuffled(0..255) {
            tree.insert(Slot::new_leaf(k, k));
            assert_eq!(tree.height(), longest_way(&tree, tree.root().unwrap()));
        }
        for k in shuffled(0..255) {
            tree.delete(k);
            assert_eq!(tree.height(), longest_way(&tree, tree.root().unwrap()));
        }
    }
}
