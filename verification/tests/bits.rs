use mosaic::Bits;

#[test]
fn bits_set_get_clear() {
    let mut b = Bits::new();
    assert!(b.is_empty());
    assert_eq!(b.count_set(), 0);
    assert_eq!(b.set(7), false);
    assert!(b.get(7));
    assert_eq!(b.set(7), true);
    assert_eq!(b.count_set(), 1);
    assert!(!b.is_empty());
    b.set(64);
    b.set(255);
    assert_eq!(b.count_set(), 3);
    assert_eq!(b.clear(64), true);
    assert_eq!(b.clear(64), false);
    assert!(!b.get(64));
    assert_eq!(b.count_set(), 2);
}

#[test]
fn bits_next_set_scans_ascending() {
    let mut b = Bits::new();
    b.set(7);
    b.set(64);
    b.set(255);
    assert_eq!(b.next_set(0), Some(7));
    assert_eq!(b.next_set(7), Some(7));
    assert_eq!(b.next_set(8), Some(64));
    assert_eq!(b.next_set(65), Some(255));
    assert_eq!(b.next_set(256), None);
    let empty = Bits::new();
    assert_eq!(empty.next_set(0), None);
}

#[test]
fn bits_empty_block_link_word() {
    let mut b = Bits::new();
    b.set_empty_block(42);
    assert!(!b.is_empty());
    assert_eq!(b.take_empty_block(), 42);
    assert!(b.is_empty());
    assert_eq!(b.take_empty_block(), 0);
}

#[test]
fn bits_count_full_block() {
    let mut b = Bits::new();
    for i in 0..256 {
        b.set(i);
    }
    assert_eq!(b.count_set(), 256);
    assert_eq!(b.next_set(200), Some(200));
    for i in 0..256 {
        b.clear(i);
    }
    assert!(b.is_empty());
}
