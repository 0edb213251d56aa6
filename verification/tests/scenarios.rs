use teia::complex::{Complex, ComplexError};
use teia::pair::Pair;
use teia::simplex::Simplex;
use teia::traits::{ChainGenerator, IndexedSet};
use teia::z2reduce::{Z2ColumnReduce, Z2Pair};
use teia::z2vector::{Z2Chain, Z2Vector, Z2VectorVec};
use teia::Persistence;

fn push_all(comp: &mut Complex, simplices: &[Vec<usize>]) {
    for vs in simplices {
        comp.push(Simplex::new(vs.clone())).unwrap();
    }
}

fn persistence_pairs(comp: &Complex) -> Vec<(usize, Option<usize>)> {
    let reduce = Z2ColumnReduce::<Z2Chain>::from_complex_with(comp, |index, image| {
        Z2Chain::new(index, image)
    })
    .unwrap();
    let cycles = reduce.cycles().to_vec();
    let mut pair = Z2Pair::new(&reduce, cycles);
    let mut out = Vec::new();
    while let Some((Persistence(birth, death), _)) = pair.next() {
        out.push((birth, death));
    }
    out
}

#[test]
fn filled_triangle() {
    let mut comp = Complex::new();
    push_all(
        &mut comp,
        &[
            vec![0],
            vec![1],
            vec![2],
            vec![0, 1],
            vec![0, 2],
            vec![1, 2],
            vec![0, 1, 2],
        ],
    );
    let pairs = persistence_pairs(&comp);
    assert_eq!(
        pairs,
        vec![(0, None), (1, Some(3)), (2, Some(4)), (5, Some(6))]
    );
    // exactly one essential class, in dimension 0
    let essential: Vec<usize> = pairs
        .iter()
        .filter(|p| p.1.is_none())
        .map(|p| p.0)
        .collect();
    assert_eq!(essential, vec![0]);
}

#[test]
fn open_triangle() {
    let mut comp = Complex::new();
    push_all(
        &mut comp,
        &[
            vec![0],
            vec![1],
            vec![2],
            vec![0, 1],
            vec![0, 2],
            vec![1, 2],
        ],
    );
    let pairs = persistence_pairs(&comp);
    assert_eq!(pairs, vec![(0, None), (1, Some(3)), (2, Some(4)), (5, None)]);
}

#[test]
fn single_tetrahedron() {
    let mut comp = Complex::new();
    push_all(
        &mut comp,
        &[
            vec![0],
            vec![1],
            vec![2],
            vec![3],
            vec![0, 1],
            vec![0, 2],
            vec![0, 3],
            vec![1, 2],
            vec![1, 3],
            vec![2, 3],
            vec![0, 1, 2],
            vec![0, 1, 3],
            vec![0, 2, 3],
            vec![1, 2, 3],
            vec![0, 1, 2, 3],
        ],
    );
    let pairs = persistence_pairs(&comp);
    let essential: Vec<usize> = pairs
        .iter()
        .filter(|p| p.1.is_none())
        .map(|p| p.0)
        .collect();
    // exactly one essential class, of dimension 0; every other class dies,
    // so 7 finite pairs cover the other 14 simplices
    assert_eq!(essential, vec![0]);
    let finite = pairs.iter().filter(|p| p.1.is_some()).count();
    assert_eq!(finite, 7);
    assert_eq!(2 * finite + 1, 15);
}

#[test]
fn two_disjoint_points() {
    let mut comp = Complex::new();
    push_all(&mut comp, &[vec![0], vec![1]]);
    let pairs = persistence_pairs(&comp);
    assert_eq!(pairs, vec![(0, None), (1, None)]);
}

#[test]
fn push_rejects_missing_face() {
    let mut comp = Complex::new();
    comp.push(Simplex::new(vec![0])).unwrap();
    let r = comp.push(Simplex::new(vec![0, 1]));
    assert_eq!(r, Err(ComplexError::ComplexIsNotFiltered));
}

#[test]
fn push_rejects_duplicate() {
    let mut comp = Complex::new();
    comp.push(Simplex::new(vec![0])).unwrap();
    let r = comp.push(Simplex::new(vec![0]));
    assert_eq!(r, Err(ComplexError::ElementAlreadyExists));
}

#[test]
fn from_complex_reports_unfiltered_stream() {
    let mut comp = Complex::new();
    comp.push_unchecked(Simplex::new(vec![0, 1]));
    let r = Z2ColumnReduce::<Z2VectorVec>::from_complex(&comp);
    assert!(matches!(r, Err(ComplexError::ComplexIsNotFiltered)));
}

#[test]
fn split_dimension_equivalence() {
    // building the triangle in three chained complexes must give the same
    // pairing set as the unified build
    let mut comp0 = Complex::new();
    push_all(&mut comp0, &[vec![0], vec![1], vec![2]]);

    let mut comp1 = Complex::with_prev(&comp0);
    comp1.push_unchecked(Simplex::new(vec![0, 1]));
    comp1.push_unchecked(Simplex::new(vec![0, 2]));
    comp1.push_unchecked(Simplex::new(vec![1, 2]));

    let mut comp2 = Complex::with_prev(&comp1);
    comp2.push_unchecked(Simplex::new(vec![0, 1, 2]));

    let reduce0 = Z2ColumnReduce::<Z2VectorVec>::from_complex(&comp0).unwrap();
    let reduce1 = Z2ColumnReduce::<Z2VectorVec>::from_complexes(&comp1, &comp0).unwrap();
    let reduce2 = Z2ColumnReduce::<Z2VectorVec>::from_complexes(&comp2, &comp1).unwrap();

    let mut pairing = Vec::new();

    let cycles0 = reduce0.into_cycles();
    let mut pair0 = Pair::new(&reduce1, cycles0.iter());
    while let Some((Persistence(birth, death), _)) = pair0.next() {
        pairing.push((birth, death));
    }

    let cycles1 = reduce1.into_cycles();
    let mut pair1 = Pair::new(&reduce2, cycles1.iter());
    while let Some((Persistence(birth, death), _)) = pair1.next() {
        pairing.push((birth, death));
    }

    let cycles2 = reduce2.cycles().to_vec();
    let mut pair2 = Pair::new(&reduce2, cycles2);
    while let Some((Persistence(birth, death), _)) = pair2.next() {
        pairing.push((birth, death));
    }

    pairing.sort();
    assert_eq!(
        pairing,
        vec![(0, None), (1, Some(3)), (2, Some(4)), (5, Some(6))]
    );
}

#[test]
fn representative_cycle_of_the_loop() {
    // the essential 1-cycle of the open triangle is the sum of its 3 edges
    let mut comp = Complex::new();
    push_all(
        &mut comp,
        &[
            vec![0],
            vec![1],
            vec![2],
            vec![0, 1],
            vec![0, 2],
            vec![1, 2],
        ],
    );
    let reduce = Z2ColumnReduce::<Z2Chain>::from_complex_with(&comp, |index, image| {
        Z2Chain::new(index, image)
    })
    .unwrap();
    let cycles = reduce.cycles().to_vec();
    let loop_cycle: Vec<&Z2Chain> = cycles
        .iter()
        .filter(|(index, _)| *index == 5)
        .map(|(_, c)| *c)
        .collect();
    assert_eq!(loop_cycle.len(), 1);
    assert!(loop_cycle[0].is_cycle());
    // the origin combination holds the three edge indices
    assert_eq!(loop_cycle[0].chain.elements(), &vec![5, 4, 3]);
    for &e in loop_cycle[0].chain.elements() {
        let s = comp.basis.get(e).unwrap();
        assert_eq!(s.dimension(), 1);
    }
}
