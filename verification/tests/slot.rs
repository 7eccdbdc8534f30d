use bptree::node::Node;
use bptree::slot::{Either, Slot};

#[test]
fn test_set() {
    let mut slots: Node<i32, i32> = Node::new_leaf(64);
    for (a, b) in (0..10).zip((100..200).step_by(10)) {
        slots.insert(Slot::new_leaf(a, b));
    }

    let want_len = slots.values.len();
    let mut want = Vec::new();

    for (a, b) in (0..10).zip((200..300).step_by(10)) {
        let slot = Slot::new_leaf(a, b);
        slots.replace(slot);
        want.push(slot);
    }

    let have_len = slots.values.len();
    assert!(want_len == have_len, "\nWant: {:?}\nHave: {:?}\n", want_len, have_len);

    let have = slots.iter();
    assert!(want == have, "\nWant: {:?}\nHave: {:?}\n", want, have);
}

#[test]
fn slot_constructors_and_kind() {
    let leaf: Slot<u32, u32> = Slot::new_leaf(7, 70);
    assert_eq!(leaf, Slot(7, Either::Left(70)));
    assert!(leaf.is_leaf());
    let inner: Slot<u32, u32> = Slot::new_internal(9, 3);
    assert_eq!(inner, Slot(9, Either::Right(3)));
    assert!(!inner.is_leaf());
}

#[test]
fn slot_order_and_identity_go_by_key() {
    let a: Slot<u32, u32> = Slot::new_leaf(1, 100);
    let b: Slot<u32, u32> = Slot::new_leaf(2, 0);
    let c: Slot<u32, u32> = Slot::new_internal(1, 5);
    assert!(a.precedes(&b));
    assert!(!b.precedes(&a));
    assert!(!a.precedes(&c));
    assert!(a.same_key(&c));
    assert!(!a.same_key(&b));
}

#[test]
fn slot_incr_k_moves_key_only() {
    let mut s: Slot<u8, u8> = Slot::new_leaf(41, 9);
    s.incr_k();
    assert_eq!(s, Slot(42, Either::Left(9)));
    let mut t: Slot<i16, u8> = Slot::new_internal(-1, 4);
    t.incr_k();
    assert_eq!(t, Slot(0, Either::Right(4)));
}
