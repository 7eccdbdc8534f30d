use bptree::increment::Increment;

#[test]
fn next_is_the_successor() {
    assert_eq!(0u8.next(), 1);
    assert_eq!(254u8.next(), 255);
    assert_eq!((-1i8).next(), 0);
    assert_eq!(41i64.next(), 42);
    assert_eq!(7usize.next(), 8);
    assert_eq!((-128i8).next(), -127);
}

#[test]
fn increment_moves_in_place() {
    let mut a = 9u16;
    a.increment();
    assert_eq!(a, 10);
    let mut b = -3i32;
    b.increment();
    assert_eq!(b, -2);
    let mut c = 0isize;
    c.increment();
    assert_eq!(c, 1);
}

#[test]
fn greatest_is_the_type_maximum() {
    assert_eq!(<u8 as Increment>::greatest(), u8::MAX);
    assert_eq!(<i8 as Increment>::greatest(), i8::MAX);
    assert_eq!(<u16 as Increment>::greatest(), u16::MAX);
    assert_eq!(<i16 as Increment>::greatest(), i16::MAX);
    assert_eq!(<u32 as Increment>::greatest(), u32::MAX);
    assert_eq!(<i32 as Increment>::greatest(), i32::MAX);
    assert_eq!(<u64 as Increment>::greatest(), u64::MAX);
    assert_eq!(<i64 as Increment>::greatest(), i64::MAX);
    assert_eq!(<usize as Increment>::greatest(), usize::MAX);
    assert_eq!(<isize as Increment>::greatest(), isize::MAX);
}

#[test]
fn precedes_is_strict_order() {
    assert!(3u32.precedes(&4));
    assert!(!4u32.precedes(&4));
    assert!(!5u32.precedes(&4));
    assert!((-5i32).precedes(&-4));
    assert!(i64::MIN.precedes(&i64::MAX));
}
