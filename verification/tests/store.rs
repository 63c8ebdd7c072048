use mosaic::{MaskStore, VecStore};

#[test]
fn column_insert_get_remove() {
    let mut c: MaskStore<VecStore<u32>> = MaskStore::new();
    assert_eq!(c.get(5), None);
    assert_eq!(c.insert(5, 77), None);
    assert_eq!(c.get(5), Some(&77));
    assert_eq!(c.get(4), None);
    assert_eq!(c.remove(5), Some(77));
    assert_eq!(c.get(5), None);
    assert_eq!(c.remove(5), None);
}

#[test]
fn column_insert_overwrite() {
    let mut c: MaskStore<VecStore<u32>> = MaskStore::new();
    assert_eq!(c.insert(9, 1), None);
    assert_eq!(c.insert(9, 2), Some(1));
    assert_eq!(c.get(9), Some(&2));
    assert_eq!(c.remove(9), Some(2));
    assert_eq!(c.get(9), None);
}

#[test]
fn column_get_mut_updates_in_place() {
    let mut c: MaskStore<VecStore<String>> = MaskStore::new();
    c.insert(3, String::from("a"));
    assert_eq!(c.get_mut(4), None);
    if let Some(v) = c.get_mut(3) {
        v.push('b');
    }
    assert_eq!(c.get(3), Some(&String::from("ab")));
}

#[test]
fn column_sparse_growth_leaves_gaps_absent() {
    let mut c: MaskStore<VecStore<u8>> = MaskStore::new();
    c.insert(1000, 7);
    for i in 0..1000 {
        assert_eq!(c.get(i), None);
    }
    assert_eq!(c.get(1000), Some(&7));
    c.insert(2, 3);
    assert_eq!(c.get(2), Some(&3));
    assert_eq!(c.get(1000), Some(&7));
}
