use bptree::btree::BTree;
use bptree::slot::Slot;
use rand::seq::SliceRandom;
use rand::thread_rng;
use std::ops::Range;

fn get_inserts(key_range: Range<u8>) -> Vec<(u8, u8)> {
    let mut ret = Vec::with_capacity(key_range.len());

    let mut keys = key_range.collect::<Vec<u8>>();
    keys.shuffle(&mut thread_rng());

    for key in keys {
        let value = key + 10;
        ret.push((key, value));
    }

    ret
}

#[test]
fn lib_test_btree() {
    const MAX: usize = 8;

    let mut tree = BTree::new(MAX);

    let inserts = get_inserts(0..50);
    for (k, v) in &inserts {
        println!("inserting {k}:{v}");
        tree.insert(Slot::new_leaf(*k, *v));
    }

    for (k, v) in inserts {
        let got = match tree.get(k) {
            Some(t) => t,
            None => panic!("Could not find {k}:{v}"),
        };

        assert!(got == v, "Expected: {v}\n     Got {got}");
    }
}

#[test]
fn btree_test_btree() {
    const MAX: usize = 8;

    let mut tree = BTree::new(MAX);

    let inserts = get_inserts(0..50);
    for (k, v) in &inserts {
        tree.insert(Slot::new_leaf(*k, *v));
    }

    for (k, v) in &inserts {
        let have = match tree.get(*k) {
            Some(t) => t,
            None => panic!("Could not find {k}:{v}"),
        };

        assert!(have == *v, "Want: {v}\nHave: {have}");
    }

    let (first_half, second_half) = inserts.split_at(inserts.len() / 2);

    // Delete and make sure they no longer exist in the tree
    for (k, _) in first_half {
        tree.delete(*k);
    }
    for (k, _) in first_half {
        match tree.get(*k) {
            Some(_) => panic!("Unexpected deleted key: {k}"),
            None => {}
        };
    }

    // Make sure keys can still be accessed
    for (k, v) in second_half {
        let have = match tree.get(*k) {
            Some(t) => t,
            None => panic!("Could not find {k}:{v} in the second half"),
        };

        assert!(have == *v, "Want: {v}\nHave: {have}");
    }

    // Insert a different range
    let inserts = get_inserts(25..100);
    for (k, v) in &inserts {
        tree.insert(Slot::new_leaf(*k, *v));
    }

    for (k, v) in &inserts {
        let have = match tree.get(*k) {
            Some(t) => t,
            None => panic!("Could not find {k}:{v}"),
        };

        assert!(have == *v, "Want: {v}\nHave: {have}");
    }
}

#[test]
fn lib_test_btree_scan() {
    const MAX: usize = 8;

    let mut tree = BTree::new(MAX);

    let mut inserts = get_inserts(0..50);
    for (k, v) in &inserts {
        println!("inserting {k}:{v}");
        tree.insert(Slot::new_leaf(*k, *v));
    }

    inserts.sort_by(|(ka, _), (kb, _)| ka.cmp(kb));

    let mut values = Vec::with_capacity(inserts.len());
    let mut cur = tree.get_leftmost_leaf();

    while let Some(id) = cur {
        let node = tree.node(id);
        node.iter().iter().for_each(|s| {
            values.push((s.0, left(s)));
        });

        cur = node.next;
    }

    println!("inserts: {:?}\n values: {:?}", inserts, values);
}

#[test]
fn btree_test_btree_scan() {
    const MAX: usize = 8;

    let mut tree = BTree::new(MAX);

    let mut want = get_inserts(0..50);
    for (k, v) in &want {
        tree.insert(Slot::new_leaf(*k, *v));
    }

    want.sort_by(|(ka, _), (kb, _)| ka.cmp(kb));

    let mut have = Vec::with_capacity(want.len());
    let mut cur = tree.get_leftmost_leaf();

    while let Some(id) = cur {
        let node = tree.node(id);
        node.iter().iter().for_each(|s| {
            have.push((s.0, left(s)));
        });

        cur = node.next;
    }

    assert!(want == have, "Want: {:?}\nHave: {:?}", want, have);
    assert_eq!(tree.scan(), want);
}

fn left(slot: &Slot<u8, u8>) -> u8 {
    match slot.1 {
        bptree::slot::Either::Left(l) => l,
        bptree::slot::Either::Right(_) => unreachable!(),
    }
}
