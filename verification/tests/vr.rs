use teia::complex::Complex;
use teia::simplex::Simplex;
use teia::traits::{ChainGenerator, IndexedSet};
use teia::vietoris_rips::{enumerate_simplices, filtration_value, DistanceMatrix};
use teia::z2reduce::{Z2ColumnReduce, Z2Pair};
use teia::z2vector::{Z2Chain, Z2VectorVec};
use teia::Persistence;

#[test]
fn distance_matrix_is_symmetric() {
    let dist = DistanceMatrix::from_fn(3, |i, j| (10 * i + j) as u64);
    assert_eq!(dist.get(0, 2), Some(2));
    assert_eq!(dist.get(2, 0), Some(2));
    assert_eq!(dist.get(1, 2), Some(12));
    assert_eq!(dist.get(2, 2), Some(22));
    assert_eq!(dist.get(0, 3), None);
}

#[test]
fn filtration_value_is_max_pairwise_distance() {
    let dist = DistanceMatrix::from_fn(4, |i, j| ((j - i) * (j - i)) as u64);
    assert_eq!(filtration_value(&vec![2], &dist), 0);
    assert_eq!(filtration_value(&vec![1, 3], &dist), 4);
    assert_eq!(filtration_value(&vec![0, 1, 3], &dist), 9);
}

#[test]
fn enumerate_sorts_by_value() {
    let dist = DistanceMatrix::from_fn(4, |i, j| ((j - i) * (j - i)) as u64);
    let edges = enumerate_simplices(4, 1, &dist);
    assert_eq!(edges.len(), 6);
    for w in edges.windows(2) {
        assert!(w[0].1 <= w[1].1);
    }
    // the three adjacent pairs come first, with value 1
    for e in edges.iter().take(3) {
        assert_eq!(e.1, 1);
    }
    assert_eq!(edges[5].1, 9);
    assert_eq!(edges[5].0, vec![0, 3]);
}

#[test]
fn circle_has_one_loop() {
    // 12 points around a unit circle; distances are chord lengths scaled to
    // integers. After sorting all 0-, 1- and 2-simplices by max edge length
    // the reduction finds one essential component and a 1-cycle that is
    // filled by a 2-simplex.
    let n = 12;
    let chord = |i: usize, j: usize| -> u64 {
        let k = if i <= j { j - i } else { i - j };
        let k = k.min(n - k);
        let angle = std::f64::consts::PI * (k as f64) / (n as f64);
        (2.0e6 * angle.sin()).round() as u64
    };
    let dist = DistanceMatrix::from_fn(n, chord);

    let mut all: Vec<(Vec<usize>, u64)> = Vec::new();
    for q in 0..3 {
        all.extend(enumerate_simplices(n, q, &dist));
    }
    // filtration order: value ascending, faces (lower dimension) first on ties
    all.sort_by_key(|p| (p.1, p.0.len()));

    let mut comp = Complex::new();
    for (vs, _) in &all {
        comp.push(Simplex::new(vs.clone())).unwrap();
    }

    let reduce = Z2ColumnReduce::<Z2Chain>::from_complex_with(&comp, |index, image| {
        Z2Chain::new(index, image)
    })
    .unwrap();
    let cycles = reduce.cycles().to_vec();
    let mut pair = Z2Pair::new(&reduce, cycles);

    let mut essential_by_dim = [0usize; 3];
    let mut loop_death: Option<usize> = None;
    while let Some((Persistence(birth, death), _)) = pair.next() {
        let dim = comp.basis.get(birth).unwrap().dimension();
        match death {
            None => essential_by_dim[dim] += 1,
            Some(d) => {
                // the big loop is born at the last edge of the shortest
                // chord length, index 23: 12 vertices + 12 short edges
                if birth == 23 {
                    loop_death = Some(d);
                }
            },
        }
    }
    // exactly one essential component, and every 1-cycle dies; the many
    // essential 2-classes of the bare 2-skeleton are not constrained here
    assert_eq!(essential_by_dim[0], 1);
    assert_eq!(essential_by_dim[1], 0);
    // the loop is born in dimension 1 and killed by a 2-simplex
    assert_eq!(comp.basis.get(23).unwrap().dimension(), 1);
    let d = loop_death.expect("the loop must die");
    assert_eq!(comp.basis.get(d).unwrap().dimension(), 2);
}

#[test]
fn vr_triangle_end_to_end() {
    // three points, equilateral: the filtration is 3 vertices, 3 edges, then
    // the filled triangle; one essential component remains
    let dist = DistanceMatrix::from_fn(3, |i, j| if i == j { 0 } else { 5 });
    let mut all: Vec<(Vec<usize>, u64)> = Vec::new();
    for q in 0..3 {
        all.extend(enumerate_simplices(3, q, &dist));
    }
    all.sort_by_key(|p| (p.1, p.0.len()));
    let mut comp = Complex::new();
    for (vs, _) in &all {
        comp.push(Simplex::new(vs.clone())).unwrap();
    }
    let reduce = Z2ColumnReduce::<Z2VectorVec>::from_complex(&comp).unwrap();
    let cycles = reduce.cycles().to_vec();
    let mut pair = Z2Pair::new(&reduce, cycles);
    let mut essential = 0;
    while let Some((p, _)) = pair.next() {
        if p.is_essential() {
            essential += 1;
        }
    }
    assert_eq!(essential, 1);
}
