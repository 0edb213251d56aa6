use teia::complex::{compute_boundary, Complex};
use teia::simplex::Simplex;
use teia::traits::{IndexedSet, LookupByLowest};
use teia::z2reduce::Z2ColumnReduce;
use teia::z2vector::{Z2Vector, Z2VectorVec};

fn triangle() -> Complex {
    let mut comp = Complex::new();
    for vs in [
        vec![0],
        vec![1],
        vec![2],
        vec![0, 1],
        vec![0, 2],
        vec![1, 2],
        vec![0, 1, 2],
    ] {
        comp.push(Simplex::new(vs)).unwrap();
    }
    comp
}

#[test]
fn memo_lookup_matches_killers() {
    // for each memo entry (l, j), the reduced column at j has lowest Some(l),
    // and births precede deaths
    let comp = triangle();
    let reduce = Z2ColumnReduce::<Z2VectorVec>::from_complex(&comp).unwrap();
    assert_eq!(reduce.lookup_by_lowest(1), Some(3));
    assert_eq!(reduce.lookup_by_lowest(2), Some(4));
    assert_eq!(reduce.lookup_by_lowest(5), Some(6));
    assert_eq!(reduce.lookup_by_lowest(0), None);
    assert_eq!(reduce.lookup_by_lowest(3), None);
    assert_eq!(reduce.lookup_by_lowest(4), None);
    assert_eq!(reduce.lookup_by_lowest(6), None);
}

#[test]
fn pivots_unique_and_cycles_marked() {
    // every stored column is a cycle or holds a unique pivot
    let comp = triangle();
    let reduce = Z2ColumnReduce::<Z2VectorVec>::from_complex(&comp).unwrap();
    let positions = reduce.into_cycle_positions();
    let cycle_positions: Vec<usize> = positions.iter().iter().map(|p| p.0).collect();
    assert_eq!(cycle_positions, vec![0, 1, 2, 5]);
}

#[test]
fn reduce_cancels_registered_pivot() {
    let comp = triangle();
    let reduce = Z2ColumnReduce::<Z2VectorVec>::from_complex(&comp).unwrap();
    // the edge |1 2| has boundary {1, 2}; both pivots are registered, so the
    // column reduces to the empty column
    let mut col = Z2VectorVec::from_vec(vec![1, 2]);
    reduce.reduce(&mut col);
    assert!(col.is_cycle());
    // a column whose pivot is unregistered keeps it
    let mut col = Z2VectorVec::from_vec(vec![0]);
    reduce.reduce(&mut col);
    assert_eq!(col.lowest(), Some(0));
}

#[test]
fn push_registers_new_pivot() {
    let mut reduce: Z2ColumnReduce<Z2VectorVec> = Z2ColumnReduce::new(4);
    reduce.push(Z2VectorVec::from_vec(vec![1, 2]));
    assert_eq!(reduce.lookup_by_lowest(2), Some(4));
    // a second column with the same pivot is reduced against the first:
    // {0, 2} + {1, 2} = {0, 1}
    reduce.push(Z2VectorVec::from_vec(vec![0, 2]));
    assert_eq!(reduce.lookup_by_lowest(1), Some(5));
    // the sum of the two columns now reduces to nothing
    reduce.push(Z2VectorVec::from_vec(vec![0, 1]));
    assert_eq!(reduce.lookup_by_lowest(0), None);
    let positions = reduce.into_cycle_positions();
    let cycle_positions: Vec<usize> = positions.iter().iter().map(|p| p.0).collect();
    assert_eq!(cycle_positions, vec![6]);
}

#[test]
fn boundaries_emit_every_index_in_order() {
    // boundaries() yields |basis| items in ascending index order, and every
    // column's indices lie strictly below the column's own index
    let comp = triangle();
    let mut bds = comp.boundaries();
    let mut count = 0;
    let mut expected_index = 0;
    while let Some(item) = bds.next() {
        let (index, col) = item.unwrap();
        assert_eq!(index, expected_index);
        for &x in col.elements() {
            assert!(x < index);
        }
        expected_index += 1;
        count += 1;
    }
    assert_eq!(count, 7);
}

#[test]
fn double_boundary_cancels() {
    // for the tetrahedron cell, adding the boundary columns of all of its
    // boundary faces yields the empty column
    let mut comp = Complex::new();
    for vs in [
        vec![0],
        vec![1],
        vec![2],
        vec![3],
        vec![0, 1],
        vec![0, 2],
        vec![0, 3],
        vec![1, 2],
        vec![1, 3],
        vec![2, 3],
        vec![0, 1, 2],
        vec![0, 1, 3],
        vec![0, 2, 3],
        vec![1, 2, 3],
        vec![0, 1, 2, 3],
    ] {
        comp.push(Simplex::new(vs)).unwrap();
    }
    let tet = Simplex::new(vec![0, 1, 2, 3]);
    let col = compute_boundary(&comp.basis, 14, &tet).unwrap();
    let mut total = Z2VectorVec::new();
    for &face_index in col.elements() {
        let face = comp.basis.get(face_index).unwrap();
        let face_col = compute_boundary(&comp.basis, face_index, face).unwrap();
        total.add_assign(&face_col);
    }
    assert!(total.is_cycle());
}
