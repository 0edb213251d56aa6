use teia::simplex::Simplex;
use teia::traits::{ChainGenerator, ChainGeneratorBoundary, ChainGeneratorVertices};

fn collect_boundary(s: &Simplex) -> Vec<Simplex> {
    let mut b = s.boundary();
    let mut out = Vec::new();
    while let Some(face) = b.next() {
        out.push(face);
    }
    out
}

#[test]
fn test_simplex_boundary() {
    let simplex = Simplex::new(vec![0, 1, 2, 3]);
    let boundary = collect_boundary(&simplex);
    assert_eq!(
        boundary,
        vec![
            Simplex::new(vec![1, 2, 3]),
            Simplex::new(vec![0, 2, 3]),
            Simplex::new(vec![0, 1, 3]),
            Simplex::new(vec![0, 1, 2])
        ]
    );
}

fn test_simplex_face_inner(s: &Simplex, t: &Simplex) {
    assert!(!s.is_face_of(t));
    assert!(t.is_face_of(s));
    assert!(s.is_face_of(s));
    assert!(t.is_face_of(t));
}

#[test]
fn test_simplex_face() {
    let s: Simplex = Simplex::new(vec![0, 1, 2, 3]);
    let t: Simplex = Simplex::new(vec![0, 1, 3]);
    test_simplex_face_inner(&s, &t);

    let t: Simplex = Simplex::new(vec![0, 2, 3]);
    test_simplex_face_inner(&s, &t);
}

#[test]
fn test_new_sorts_and_dedups() {
    let s = Simplex::new(vec![4, 1, 4, 2]);
    assert_eq!(s.vertices(), &vec![1, 2, 4]);
    assert_eq!(s.dimension(), 2);
}

#[test]
fn test_boundary_counts() {
    // a d-simplex has d + 1 pairwise distinct codimension-1 faces,
    // each of them a face of the simplex
    let s = Simplex::new(vec![2, 5, 7, 9, 11]);
    let faces = collect_boundary(&s);
    assert_eq!(faces.len(), s.dimension() + 1);
    for (i, f) in faces.iter().enumerate() {
        assert_eq!(f.dimension() + 1, s.dimension());
        assert!(f.is_face_of(&s));
        for g in faces.iter().skip(i + 1) {
            assert!(f != g);
        }
    }
}

#[test]
fn test_boundary_of_vertex_is_empty() {
    let s = Simplex::new(vec![7]);
    assert!(collect_boundary(&s).is_empty());
}

#[test]
fn test_inner_prod() {
    let s = Simplex::new(vec![0, 1]);
    let t = Simplex::new(vec![1, 0]);
    let u = Simplex::new(vec![0, 2]);
    assert!(s.inner_prod(&t).is_positive());
    assert!(s.inner_prod(&u).is_zero());
}
