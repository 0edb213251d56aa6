use teia::complex_new;
use teia::heap::Heap;
use teia::indexed_vec::IndexedVec;
use teia::simpcomp::{SimplicialComplex, SimplicialComplexBuilder};
use teia::simplex::Simplex;
use teia::traits::IndexedSet;
use teia::Persistence;

#[test]
fn indexed_vec_offsets_indices() {
    let mut v: IndexedVec<usize> = IndexedVec::new(3);
    v.push(10);
    v.push(20);
    assert_eq!(v.len(), 2);
    assert_eq!(v.index_start(), 3);
    assert_eq!(v.index_end(), 5);
    assert_eq!(v.index_range(), 3..5);
    assert_eq!(v.get(3), Some(&10));
    assert_eq!(v.get(4), Some(&20));
    assert_eq!(v.get(2), None);
    assert_eq!(v.get(5), None);
    assert_eq!(v.position_within(3..5, &20), Some(4));
    assert_eq!(v.position_within(3..5, &30), None);
}

#[test]
fn indexed_vec_cursors() {
    let v: IndexedVec<usize> = IndexedVec::from_vec(vec![7, 8, 9], 2);
    let mut it = v.iter();
    assert_eq!(it.next(), Some((2, &7)));
    assert_eq!(it.next(), Some((3, &8)));
    assert_eq!(it.next(), Some((4, &9)));
    assert_eq!(it.next(), None);

    let mut r = v.range(3..10);
    assert_eq!(r.next(), Some((3, &8)));
    assert_eq!(r.next(), Some((4, &9)));
    assert_eq!(r.next(), None);

    let mut m = v.into_iter();
    assert_eq!(m.next(), Some((2, 7)));
    assert_eq!(m.next(), Some((3, 8)));
    assert_eq!(m.next(), Some((4, 9)));
    assert_eq!(m.next(), None);
}

#[test]
fn builder_accepts_filtered_order() {
    let mut builder = SimplicialComplexBuilder::new();
    builder.push(Simplex::new(vec![0]));
    builder.push(Simplex::new(vec![1]));
    builder.push(Simplex::new(vec![0, 1]));
    let sc = builder.build().expect("filtered");
    assert_eq!(sc.len(), 3);
    assert_eq!(sc.range(), 0..3);
    let mut eb = sc.enumerate_boundary(2);
    let first = eb.next().unwrap();
    assert_eq!(first.0, 1);
    assert!(first.1.is_positive());
    let second = eb.next().unwrap();
    assert_eq!(second.0, 0);
    assert_eq!(eb.next(), None);
}

#[test]
fn builder_rejects_unfiltered_order() {
    let mut builder = SimplicialComplexBuilder::new();
    builder.push(Simplex::new(vec![0]));
    builder.push(Simplex::new(vec![0, 1]));
    assert!(builder.build().is_none());

    let mut builder = SimplicialComplexBuilder::new();
    builder.push(Simplex::new(vec![0, 1]));
    let sc = builder.build_unchecked();
    assert_eq!(sc.len(), 1);
    assert_eq!(SimplicialComplex::new().len(), 0);
}

#[test]
fn plain_complex_counts() {
    let mut c = complex_new::Complex::new();
    assert_eq!(c.len(), 0);
    c.push(Simplex::new(vec![0]));
    c.push(Simplex::new(vec![1]));
    assert_eq!(c.len(), 2);
    assert_eq!(c.index_range(), 0..2);
}

#[test]
fn heap_push_sifts_to_root() {
    let mut h = Heap::new();
    for v in [4, 10, 3, 17, 9] {
        h.push(v);
    }
    let repr = format!("{:?}", h);
    assert_eq!(repr, "Heap { data: [17, 10, 3, 4, 9] }");
}

#[test]
fn persistence_essential_means_no_death() {
    let alive: Persistence<usize> = Persistence(3, None);
    let dead: Persistence<usize> = Persistence(1, Some(4));
    assert!(alive.is_essential());
    assert!(!dead.is_essential());
    assert_eq!(alive.0, 3);
    assert_eq!(dead.1, Some(4));
}
