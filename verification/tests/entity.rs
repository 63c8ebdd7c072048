use mosaic::bitset::SLOT_CAP;
use mosaic::{Entities, IndexAlloc};

#[test]
fn handle_staleness() {
    let mut e = Entities::new();
    let (h1, i1) = e.allocate();
    let (h2, i2) = e.allocate();
    assert_ne!(h1, h2);
    assert_ne!(i1, i2);
    assert_eq!(e.get(h1), Some(i1));
    assert_eq!(e.get(h2), Some(i2));

    assert_eq!(e.free(h1), Some(i1));
    assert_eq!(e.get(h1), None);
    assert_eq!(e.get(h2), Some(i2));

    // the freed index may be reused, but the handle is brand new
    let (h3, i3) = e.allocate();
    assert_eq!(i3, i1);
    assert_ne!(h3, h1);
    assert_ne!(h3, h2);
    assert_eq!(e.get(h3), Some(i3));

    // freeing a stale handle is a harmless no-op
    assert_eq!(e.free(h1), None);
    assert_eq!(e.get(h2), Some(i2));
}

#[test]
fn index_allocator_recycles_lowest_first() {
    let mut a = IndexAlloc::new();
    assert_eq!(a.allocate(), 0);
    assert_eq!(a.allocate(), 1);
    assert_eq!(a.allocate(), 2);
    a.free(1);
    a.free(0);
    assert_eq!(a.allocate(), 0);
    assert_eq!(a.allocate(), 1);
    assert_eq!(a.allocate(), 3);
}

#[test]
fn capacity_ceiling() {
    let mut a = IndexAlloc::new();
    let mut n: usize = 0;
    loop {
        match a.try_allocate() {
            Some(i) => {
                if i != n {
                    panic!("index out of order");
                }
                n += 1;
            },
            None => break,
        }
    }
    // the whole index space was handed out exactly once, then allocation
    // fails deterministically instead of wrapping
    assert_eq!(n, SLOT_CAP);
    assert_eq!(a.try_allocate(), None);
    assert_eq!(a.try_allocate(), None);

    // freeing reopens exactly the freed index
    a.free(12345);
    assert_eq!(a.try_allocate(), Some(12345));
    assert_eq!(a.try_allocate(), None);
}
