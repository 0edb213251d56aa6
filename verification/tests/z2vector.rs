use teia::z2vector::{Z2Chain, Z2Vector, Z2VectorVec};

#[test]
pub fn z2vecvec_eq() {
    let x: Z2VectorVec = Z2VectorVec::from_vec(vec![0, 3, 4, 5, 8, 10, 12]);
    let y: Z2VectorVec = Z2VectorVec::from_vec(vec![0, 3, 4, 5, 8, 10, 12]);
    let z: Z2VectorVec = Z2VectorVec::from_vec(vec![1, 2, 6, 30]);
    let zero = Z2VectorVec::new();
    assert_eq!(true, x == y);
    assert_eq!(true, x != z);
    assert_eq!(false, x == zero);

    let x: Vec<usize> = (0..30).map(|x| x * 7).collect();
    let y: Vec<usize> = (0..30).map(|x| x * 11).collect();
    let x = Z2VectorVec::from_vec(x);
    let y = Z2VectorVec::from_vec(y);
    assert_eq!(true, x != y);
}

#[test]
pub fn z2vecvec_addassign() {
    let mut x: Z2VectorVec = Z2VectorVec::from_vec(vec![0, 2, 5, 6]);
    let y: Z2VectorVec = Z2VectorVec::from_vec(vec![1, 2, 5, 9, 11]);
    let z: Z2VectorVec = Z2VectorVec::from_vec(vec![0, 1, 6, 9, 11]);
    let zero = Z2VectorVec::new();
    x.add_assign(&y);
    assert!(x.is_valid());
    assert_eq!(x, z);
    x.add_assign(&z);
    assert!(x.is_valid());
    assert_eq!(x, zero);
    x.add_assign(&y);
    assert!(x.is_valid());
    assert_eq!(x, y);
}

#[test]
fn add_is_commutative() {
    // add(a, b) == add(b, a)
    let mut ab = Z2VectorVec::from_vec(vec![0, 3, 7]);
    let mut ba = Z2VectorVec::from_vec(vec![1, 3, 9]);
    let a = Z2VectorVec::from_vec(vec![0, 3, 7]);
    let b = Z2VectorVec::from_vec(vec![1, 3, 9]);
    ab.add_assign(&b);
    ba.add_assign(&a);
    assert_eq!(ab, ba);
}

#[test]
fn add_self_cancels() {
    // add(a, a) is empty
    let mut a = Z2VectorVec::from_vec(vec![2, 4, 8, 16]);
    let a2 = Z2VectorVec::from_vec(vec![2, 4, 8, 16]);
    a.add_assign(&a2);
    assert!(a.is_cycle());
    assert_eq!(a, Z2VectorVec::new());
}

#[test]
fn add_empty_is_identity() {
    // add(a, empty) == a
    let mut a = Z2VectorVec::from_vec(vec![5, 1, 9]);
    let orig = Z2VectorVec::from_vec(vec![1, 5, 9]);
    let zero = Z2VectorVec::new();
    a.add_assign(&zero);
    assert_eq!(a, orig);
    assert!(a.is_valid());
}

#[test]
fn lowest_is_maximum() {
    // lowest(empty) == None; lowest(nonempty) is the maximum element
    assert_eq!(Z2VectorVec::new().lowest(), None);
    let a = Z2VectorVec::from_vec(vec![3, 9, 5]);
    assert_eq!(a.lowest(), Some(9));
    assert!(!a.is_cycle());
    assert_eq!(a.elements(), &vec![9, 5, 3]);
}

#[test]
fn chain_tracks_in_lock_step() {
    // origin and image merge together under addition
    let b0 = Z2VectorVec::from_vec(vec![0, 1]);
    let b1 = Z2VectorVec::from_vec(vec![1, 2]);
    let mut c0 = Z2Chain::new(3, b0);
    let c1 = Z2Chain::new(4, b1);
    c0.add_assign(&c1);
    assert_eq!(c0.chain.elements(), &vec![4, 3]);
    assert_eq!(c0.boundary.elements(), &vec![2, 0]);
    assert_eq!(c0.lowest(), Some(2));
}
