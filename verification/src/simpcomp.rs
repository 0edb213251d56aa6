use vstd::prelude::*;

use crate::complex::{all_faces_resolve, face_position, lemma_face_position_props, all_wf};
use crate::sign::Sign;
use crate::simplex::{boundary_seq, Simplex};
use crate::traits::{ChainGenerator, ChainGeneratorBoundary, ChainGeneratorVertices};

verus! {

/// Whether the prefix ordering of `s` is a filtration: every boundary face of
/// every element occurs at an earlier index.
pub open spec fn filtered(s: Seq<Simplex>) -> bool {
    forall|j: int| 0 <= j < s.len() ==> all_faces_resolve(s, j, (#[trigger] s[j])@)
}

/// The first position in `[0, hi)` of an element with the same vertex tuple
/// as `face`.
fn find_tuple(simplices: &Vec<Simplex>, hi: usize, face: &Simplex) -> (r: Option<usize>)
    requires
        hi <= simplices@.len(),
        all_wf(simplices@),
        face.wf(),
    ensures
        match face_position(simplices@, 0, hi as int, face@) {
            Some(p) => r == Some(p as usize),
            None => r is None,
        },
{
    let ghost tseq = simplices@;
    let mut pos: usize = 0;
    while pos < hi
        invariant
            hi <= simplices@.len(),
            all_wf(simplices@),
            face.wf(),
            tseq == simplices@,
            pos <= hi,
            face_position(tseq, 0, hi as int, face@) == face_position(
                tseq,
                pos as int,
                hi as int,
                face@,
            ),
        decreases hi - pos,
    {
        if !face.inner_prod(&simplices[pos]).is_zero() {
            proof {
                assert(tseq[pos as int]@ == face@);
            }
            return Some(pos);
        }
        proof {
            assert(tseq[pos as int]@ != face@);
        }
        pos += 1;
    }
    None
}

/// Checks that every boundary face of `simplex` occurs among the first
/// `upto` elements of `simplices`.
fn check_boundary(simplices: &Vec<Simplex>, upto: usize, simplex: &Simplex) -> (r: Option<()>)
    requires
        upto <= simplices@.len(),
        all_wf(simplices@),
        simplex.wf(),
    ensures
        r is Some <==> all_faces_resolve(simplices@, upto as int, simplex@),
{
    let ghost tseq = simplices@;
    let n = simplex.vertices().len();
    if n == 1 {
        proof {
            assert(boundary_seq(simplex@).len() == 0);
        }
        return Some(());
    }
    let mut b = simplex.boundary();
    let mut k: usize = 0;
    while k < n
        invariant
            upto <= simplices@.len(),
            all_wf(simplices@),
            simplex.wf(),
            tseq == simplices@,
            2 <= n == simplex@.len(),
            b.wf(),
            b.vertices@ == simplex@,
            b.index == k,
            k <= n,
            forall|i: int|
                0 <= i < k ==> face_position(
                    tseq,
                    0,
                    upto as int,
                    #[trigger] simplex@.remove(i),
                ) is Some,
        decreases n - k,
    {
        let face = match b.next() {
            Some(f) => f,
            None => {
                proof {
                    assert(false);
                }
                return None;
            },
        };
        match find_tuple(simplices, upto, &face) {
            Some(_) => {
            },
            None => {
                proof {
                    assert(boundary_seq(simplex@)[k as int] == simplex@.remove(k as int));
                    assert(!all_faces_resolve(tseq, upto as int, simplex@)) by {
                        if all_faces_resolve(tseq, upto as int, simplex@) {
                            assert(face_position(
                                tseq,
                                0,
                                upto as int,
                                boundary_seq(simplex@)[k as int],
                            ) is Some);
                        }
                    }
                }
                return None;
            },
        }
        k += 1;
    }
    proof {
        assert forall|kk: int|
            0 <= kk < boundary_seq(simplex@).len() implies face_position(
            tseq,
            0,
            upto as int,
            #[trigger] boundary_seq(simplex@)[kk],
        ) is Some by {
            assert(boundary_seq(simplex@)[kk] == simplex@.remove(kk));
        }
    }
    Some(())
}

/// Accumulates simplices in order, then checks the whole list for the
/// face-closure invariant in one pass.
pub struct SimplicialComplexBuilder {
    /// The simplices pushed so far, in order.
    pub simplices: Vec<Simplex>,
}

impl SimplicialComplexBuilder {
    /// An empty builder.
    pub fn new() -> (r: SimplicialComplexBuilder)
        ensures
            r.simplices@ == Seq::<Simplex>::empty(),
    {
        SimplicialComplexBuilder { simplices: Vec::new() }
    }

    /// Appends a simplex without checking anything.
    pub fn push(&mut self, simplex: Simplex)
        requires
            simplex.wf(),
        ensures
            final(self).simplices@ == old(self).simplices@.push(simplex),
    {
        self.simplices.push(simplex);
    }

    /// Checks the face-closure invariant and builds the complex: `None` when
    /// some simplex has a face that does not occur earlier.
    pub fn build(self) -> (r: Option<SimplicialComplex>)
        requires
            all_wf(self.simplices@),
        ensures
            match r {
                Some(sc) => sc.simplices@ == self.simplices@ && filtered(self.simplices@),
                None => !filtered(self.simplices@),
            },
    {
        let ghost tseq = self.simplices@;
        let mut index: usize = 0;
        while index < self.simplices.len()
            invariant
                all_wf(tseq),
                tseq == self.simplices@,
                index <= tseq.len(),
                forall|j: int| 0 <= j < index ==> all_faces_resolve(tseq, j, (#[trigger] tseq[j])@),
            decreases self.simplices.len() - index,
        {
            let result = check_boundary(&self.simplices, index, &self.simplices[index]);
            if result.is_none() {
                return None;
            }
            index += 1;
        }
        Some(SimplicialComplex { simplices: self.simplices })
    }

    /// Builds the complex without checking the face-closure invariant.
    pub fn build_unchecked(self) -> (r: SimplicialComplex)
        ensures
            r.simplices@ == self.simplices@,
    {
        SimplicialComplex { simplices: self.simplices }
    }
}

/// A simplicial complex held as a plain ordered list of simplices, with
/// zero-based indices.
pub struct SimplicialComplex {
    /// The simplices, in filtration order.
    pub simplices: Vec<Simplex>,
}

impl SimplicialComplex {
    /// An empty complex.
    pub fn new() -> (r: SimplicialComplex)
        ensures
            r.simplices@ == Seq::<Simplex>::empty(),
    {
        SimplicialComplex { simplices: Vec::new() }
    }

    /// The number of stored simplices.
    pub fn len(&self) -> (r: usize)
        ensures
            r == self.simplices@.len(),
    {
        self.simplices.len()
    }

    /// The range of valid indices.
    pub fn range(&self) -> (r: core::ops::Range<usize>)
        ensures
            r.start == 0,
            r.end == self.simplices@.len(),
    {
        0..self.simplices.len()
    }

    /// Starts resolving the boundary faces of the simplex at `index` among
    /// the earlier elements of this complex.
    pub fn enumerate_boundary(&self, index: usize) -> (r: EnumerateBoundary<'_>)
        requires
            all_wf(self.simplices@),
            index < self.simplices@.len(),
            all_faces_resolve(self.simplices@, index as int, self.simplices@[index as int]@),
        ensures
            r.wf(),
            r.simplices == &self.simplices,
            r.upto == index,
            r.boundary.vertices@ == self.simplices@[index as int]@,
            r.boundary.index == 0,
    {
        let simplex = &self.simplices[index];
        EnumerateBoundary { simplices: &self.simplices, upto: index, boundary: simplex.boundary() }
    }
}

/// A cursor over the (position, sign) pairs at which the boundary faces of
/// one simplex resolve among the earlier elements of a complex.
pub struct EnumerateBoundary<'a> {
    /// The complex's simplices.
    pub simplices: &'a Vec<Simplex>,
    /// Faces are sought at positions strictly below this index.
    pub upto: usize,
    /// The faces of the simplex, in canonical order.
    pub boundary: crate::simplex::Boundary,
}

impl<'a> EnumerateBoundary<'a> {
    /// Validity: every face of the simplex resolves below `upto`.
    pub open spec fn wf(&self) -> bool {
        &&& all_wf(self.simplices@)
        &&& self.upto <= self.simplices@.len()
        &&& self.boundary.wf()
        &&& all_faces_resolve(self.simplices@, self.upto as int, self.boundary.vertices@)
    }

    /// Yields the position and sign of the next face.
    pub fn next(&mut self) -> (r: Option<(usize, Sign)>)
        requires
            old(self).wf(),
        ensures
            final(self).wf(),
            final(self).simplices == old(self).simplices,
            final(self).upto == old(self).upto,
            final(self).boundary.vertices@ == old(self).boundary.vertices@,
            ({
                let v = old(self).boundary.vertices@;
                let k = old(self).boundary.index as int;
                match r {
                    Some(p) => k < v.len() && v.len() > 1 && final(self).boundary.index == k + 1
                        && face_position(old(self).simplices@, 0, old(self).upto as int, v.remove(k))
                        == Some(p.0 as int) && p.1.value() == 1,
                    None => (k >= v.len() || v.len() <= 1) && final(self).boundary == old(
                        self,
                    ).boundary,
                }
            }),
    {
        let ghost v = self.boundary.vertices@;
        let ghost k = self.boundary.index as int;
        let face = match self.boundary.next() {
            Some(f) => f,
            None => {
                return None;
            },
        };
        match find_tuple(self.simplices, self.upto, &face) {
            Some(pos) => {
                proof {
                    lemma_face_position_props(self.simplices@, 0, self.upto as int, face@);
                }
                Some((pos, Sign::positive()))
            },
            None => {
                proof {
                    assert(boundary_seq(v)[k] == v.remove(k));
                    assert(face_position(self.simplices@, 0, self.upto as int, boundary_seq(v)[k]) is Some);
                    assert(false);
                }
                None
            },
        }
    }
}

} // verus!
