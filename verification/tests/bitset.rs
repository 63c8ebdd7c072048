use mosaic::bitset::SLOT_CAP;
use mosaic::BitSet;

#[test]
fn bitset_round_trip() {
    let mut s = BitSet::new();
    let slots: Vec<usize> = vec![0, 1, 63, 64, 200, 255, 256, 511, 65535, 65536, 16777215];
    for &x in &slots {
        s.insert(x);
    }
    for &x in &slots {
        assert!(s.contains(x));
    }
    assert!(!s.contains(2));
    assert!(!s.contains(65537));

    let out = s.to_vec();
    let mut sorted = slots.clone();
    sorted.sort();
    assert_eq!(out, sorted);
    assert_eq!(out.iter().filter(|&&v| v == 256).count(), 1);

    s.remove(256);
    assert!(!s.contains(256));
    let out2 = s.to_vec();
    assert!(!out2.contains(&256));
    assert!(out2.contains(&255));
    assert_eq!(out2.len(), sorted.len() - 1);
}

#[test]
fn bitset_insert_idempotent() {
    let mut s = BitSet::new();
    s.insert(777);
    s.insert(777);
    assert!(s.contains(777));
    assert_eq!(s.to_vec(), vec![777]);
    assert_eq!(s.remove(777), true);
    assert_eq!(s.remove(777), false);
    assert_eq!(s.to_vec(), Vec::<usize>::new());
}

#[test]
fn bitset_next_set_from_skips_empty_regions() {
    let mut s = BitSet::new();
    s.insert(5);
    s.insert(70000);
    s.insert(SLOT_CAP - 1);
    assert_eq!(s.next_set_from(0), Some(5));
    assert_eq!(s.next_set_from(5), Some(5));
    assert_eq!(s.next_set_from(6), Some(70000));
    assert_eq!(s.next_set_from(70001), Some(SLOT_CAP - 1));
    assert_eq!(s.next_set_from(SLOT_CAP), None);
    let empty = BitSet::new();
    assert_eq!(empty.next_set_from(0), None);
}

#[test]
fn block_recycling() {
    let mut s = BitSet::new();
    for i in 0..256 {
        s.insert(i);
    }
    assert_eq!(s.mid_pool_len(), 1);
    assert_eq!(s.bot_pool_len(), 1);

    for i in 0..256 {
        s.remove(i);
    }
    // the emptied blocks went back to the free lists, not away
    assert_eq!(s.mid_pool_len(), 1);
    assert_eq!(s.bot_pool_len(), 1);

    // a slot under a different parent reuses the freed blocks
    s.insert(65536);
    assert_eq!(s.mid_pool_len(), 1);
    assert_eq!(s.bot_pool_len(), 1);
    assert!(s.contains(65536));

    // repeated cycles of the same cardinality never grow the pools
    for _round in 0..10 {
        for i in 0..256 {
            s.insert(131072 + i);
        }
        for i in 0..256 {
            s.remove(131072 + i);
        }
        assert_eq!(s.mid_pool_len(), 2);
        assert_eq!(s.bot_pool_len(), 2);
    }
}

#[test]
fn bitset_is_empty_and_count() {
    let mut s = BitSet::new();
    assert!(s.is_empty());
    assert_eq!(s.count_set(), 0);
    s.insert(9);
    s.insert(70000);
    s.insert(70000);
    assert!(!s.is_empty());
    assert_eq!(s.count_set(), 2);
    s.remove(9);
    assert_eq!(s.count_set(), 1);
    s.remove(70000);
    assert!(s.is_empty());
    assert_eq!(s.count_set(), 0);
}

#[test]
fn bitset_redundant_insert_allocates_nothing() {
    let mut s = BitSet::new();
    s.insert(300);
    let mid = s.mid_pool_len();
    let bot = s.bot_pool_len();
    s.insert(300);
    assert_eq!(s.mid_pool_len(), mid);
    assert_eq!(s.bot_pool_len(), bot);
    assert!(s.contains(300));
}
