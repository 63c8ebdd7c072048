use mosaic::{MaskStore, MaybeIter, MaybeQuery, QueryIter, QueryTuple, VecStore};

fn columns() -> (MaskStore<VecStore<i32>>, MaskStore<VecStore<i32>>) {
    let mut a: MaskStore<VecStore<i32>> = MaskStore::new();
    for &s in &[1usize, 3, 5, 7] {
        a.insert(s, (s as i32) * 10);
    }
    let mut b: MaskStore<VecStore<i32>> = MaskStore::new();
    for &s in &[3usize, 5, 9] {
        b.insert(s, (s as i32) * 100);
    }
    (a, b)
}

#[test]
fn query_intersection() {
    let (a, b) = columns();
    let mut it = QueryIter::new(QueryTuple { first: &a, second: &b });

    let (s1, va1, vb1) = it.next().unwrap();
    assert_eq!((s1, *va1, *vb1), (3, 30, 300));
    let (s2, va2, vb2) = it.next().unwrap();
    assert_eq!((s2, *va2, *vb2), (5, 50, 500));
    assert!(it.next().is_none());
    assert!(it.next().is_none());
}

#[test]
fn query_maybe_component() {
    let (a, b) = columns();
    let mut it = MaybeIter::new(MaybeQuery { first: &a, second: &b });

    let (s1, va1, vb1) = it.next().unwrap();
    assert_eq!((s1, *va1), (1, 10));
    assert!(vb1.is_none());
    let (s2, va2, vb2) = it.next().unwrap();
    assert_eq!((s2, *va2, *vb2.unwrap()), (3, 30, 300));
    let (s3, va3, vb3) = it.next().unwrap();
    assert_eq!((s3, *va3, *vb3.unwrap()), (5, 50, 500));
    let (s4, va4, vb4) = it.next().unwrap();
    assert_eq!((s4, *va4), (7, 70));
    assert!(vb4.is_none());
    assert!(it.next().is_none());
}

#[test]
fn query_reruns_are_independent() {
    let (a, b) = columns();
    let mut first_run: Vec<usize> = Vec::new();
    let mut it = QueryIter::new(QueryTuple { first: &a, second: &b });
    while let Some((s, _, _)) = it.next() {
        first_run.push(s);
    }
    let mut second_run: Vec<usize> = Vec::new();
    let mut it2 = QueryIter::new(QueryTuple { first: &a, second: &b });
    while let Some((s, _, _)) = it2.next() {
        second_run.push(s);
    }
    assert_eq!(first_run, vec![3, 5]);
    assert_eq!(second_run, vec![3, 5]);
}

#[test]
fn query_single_column() {
    let (a, _b) = columns();
    let mut it = mosaic::ColumnIter::new(&a);
    let mut seen: Vec<(usize, i32)> = Vec::new();
    while let Some((s, v)) = it.next() {
        seen.push((s, *v));
    }
    assert_eq!(seen, vec![(1, 10), (3, 30), (5, 50), (7, 70)]);
}

#[test]
fn query_three_and_four_way() {
    let (a, b) = columns();
    let mut c: mosaic::MaskStore<VecStore<u8>> = MaskStore::new();
    for &s in &[3usize, 7, 9] {
        c.insert(s, s as u8);
    }
    let mut d: mosaic::MaskStore<VecStore<bool>> = MaskStore::new();
    for &s in &[0usize, 3, 5] {
        d.insert(s, true);
    }

    let mut it3 = mosaic::QueryIter3::new(mosaic::QueryTuple3 {
        first: &a,
        second: &b,
        third: &c,
    });
    let (s, va, vb, vc) = it3.next().unwrap();
    assert_eq!((s, *va, *vb, *vc), (3, 30, 300, 3));
    assert!(it3.next().is_none());

    let mut it4 = mosaic::QueryIter4::new(mosaic::QueryTuple4 {
        first: &a,
        second: &b,
        third: &c,
        fourth: &d,
    });
    let (s, va, vb, vc, vd) = it4.next().unwrap();
    assert_eq!((s, *va, *vb, *vc, *vd), (3, 30, 300, 3, true));
    assert!(it4.next().is_none());
}

#[test]
fn query_three_way_with_optional() {
    let (a, b) = columns();
    let mut c: mosaic::MaskStore<VecStore<u8>> = MaskStore::new();
    for &s in &[3usize, 7, 9] {
        c.insert(s, s as u8);
    }
    let mut it = mosaic::MaybeIter3::new(mosaic::MaybeQuery3 {
        first: &a,
        second: &b,
        third: &c,
    });
    let (s1, va1, vb1, vc1) = it.next().unwrap();
    assert_eq!((s1, *va1, *vb1, *vc1.unwrap()), (3, 30, 300, 3));
    let (s2, va2, vb2, vc2) = it.next().unwrap();
    assert_eq!((s2, *va2, *vb2), (5, 50, 500));
    assert!(vc2.is_none());
    assert!(it.next().is_none());
}
