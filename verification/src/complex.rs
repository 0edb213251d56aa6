use vstd::prelude::*;

use crate::indexed_vec::IndexedVec;
use crate::sign::Sign;
use crate::simplex::{boundary_seq, lemma_boundary_faces, lemma_double_boundary_cancels, noop_pair, strictly_ascending, Simplex};
use crate::traits::{ChainGenerator, ChainGeneratorBoundary, ChainGeneratorVertices, IndexedSet};
use crate::z2vector::{lemma_z2_add_all_parity, occurrence_count, strictly_descending, z2_add_all, Z2Vector, Z2VectorVec};

verus! {

/// The ways a filtered complex can reject input.
#[derive(Debug, Clone, Copy, PartialEq, Eq, Structural)]
pub enum ComplexError {
    /// A pushed simplex has a face that is not present at an earlier index in
    /// the target basis.
    ComplexIsNotFiltered,
    /// A pushed simplex equals a basis element that is already present.
    ElementAlreadyExists,
}

/// Every stored generator is structurally valid.
pub open spec fn all_wf(tseq: Seq<Simplex>) -> bool {
    forall|i: int| 0 <= i < tseq.len() ==> (#[trigger] tseq[i]).wf()
}

/// The first storage position in `[lo, hi)` of a basis element whose vertex
/// tuple equals `face`, if any.
pub open spec fn face_position(tseq: Seq<Simplex>, lo: int, hi: int, face: Seq<usize>) -> Option<
    int,
>
    recommends
        0 <= lo,
        hi <= tseq.len(),
    decreases hi - lo,
{
    if lo >= hi {
        None
    } else if tseq[lo]@ == face {
        Some(lo)
    } else {
        face_position(tseq, lo + 1, hi, face)
    }
}

/// What `face_position` returns: the first match in the window.
pub proof fn lemma_face_position_props(tseq: Seq<Simplex>, lo: int, hi: int, face: Seq<usize>)
    requires
        0 <= lo,
        hi <= tseq.len(),
    ensures
        match face_position(tseq, lo, hi, face) {
            Some(p) => lo <= p < hi && tseq[p]@ == face && forall|k: int|
                lo <= k < p ==> (#[trigger] tseq[k])@ != face,
            None => forall|k: int| lo <= k < hi ==> (#[trigger] tseq[k])@ != face,
        },
    decreases hi - lo,
{
    if lo < hi && tseq[lo]@ != face {
        lemma_face_position_props(tseq, lo + 1, hi, face);
    }
}

/// The number of storage positions of the target that lie strictly below the
/// logical index `j`.
pub open spec fn window_below(tseq: Seq<Simplex>, tstart: int, j: int) -> int {
    if j - tstart < 0 {
        0
    } else if j - tstart > tseq.len() {
        tseq.len() as int
    } else {
        j - tstart
    }
}

/// The logical index of the first match of `face` in the first `hi` storage
/// positions of the target.
pub open spec fn face_logical(tseq: Seq<Simplex>, tstart: int, hi: int, face: Seq<usize>) -> Option<
    int,
> {
    match face_position(tseq, 0, hi, face) {
        Some(p) => Some(p + tstart),
        None => None,
    }
}

/// Whether every boundary face of the vertex tuple `s` occurs in the first
/// `hi` storage positions of the target.
pub open spec fn all_faces_resolve(tseq: Seq<Simplex>, hi: int, s: Seq<usize>) -> bool {
    forall|k: int|
        0 <= k < boundary_seq(s).len() ==> face_position(
            tseq,
            0,
            hi,
            #[trigger] boundary_seq(s)[k],
        ) is Some
}

/// The logical indices at which the boundary faces of `s` resolve.
pub open spec fn boundary_index_set(tseq: Seq<Simplex>, tstart: int, hi: int, s: Seq<usize>) -> Set<
    usize,
> {
    Set::new(
        |x: usize|
            exists|k: int|
                0 <= k < boundary_seq(s).len() && face_logical(
                    tseq,
                    tstart,
                    hi,
                    #[trigger] boundary_seq(s)[k],
                ) == Some(x as int),
    )
}

/// Scans storage positions `[lo, hi)` of the target for the first basis
/// element equal to `face` (by inner product), returning its logical index.
fn find_face_between(target: &IndexedVec<Simplex>, lo: usize, hi: usize, face: &Simplex) -> (r:
    Option<usize>)
    requires
        target.inv(),
        hi <= target.selems().len(),
        all_wf(target.selems()),
        face.wf(),
    ensures
        match r {
            Some(i) => face_position(target.selems(), lo as int, hi as int, face@) == Some(
                i - target.sstart(),
            ) && target.sstart() + lo <= i < target.sstart() + hi,
            None => face_position(target.selems(), lo as int, hi as int, face@) is None,
        },
{
    let ghost tseq = target.selems();
    if lo >= hi {
        return None;
    }
    let start = target.index_start();
    let mut pos: usize = lo;
    while pos < hi
        invariant
            target.inv(),
            hi <= target.selems().len(),
            all_wf(target.selems()),
            face.wf(),
            tseq == target.selems(),
            lo <= pos <= hi,
            start == target.sstart(),
            face_position(tseq, lo as int, hi as int, face@) == face_position(
                tseq,
                pos as int,
                hi as int,
                face@,
            ),
        decreases hi - pos,
    {
        proof {
            target.inv_bound();
        }
        let elem = match target.get(start + pos) {
            Some(e) => e,
            None => {
                proof {
                    assert(false);
                }
                return None;
            },
        };
        if !face.inner_prod(elem).is_zero() {
            proof {
                assert(tseq[pos as int]@ == face@);
            }
            return Some(start + pos);
        }
        proof {
            assert(tseq[pos as int]@ != face@);
        }
        pos += 1;
    }
    None
}

/// Computes the boundary column of `elem` against the basis elements of
/// `target` with logical index below `upto`: the column of the logical
/// indices at which the faces of `elem` resolve, or `None` if some face is
/// missing there.
pub fn compute_boundary(target: &IndexedVec<Simplex>, upto: usize, elem: &Simplex) -> (r: Option<
    Z2VectorVec,
>)
    requires
        target.inv(),
        all_wf(target.selems()),
        elem.wf(),
    ensures
        ({
            let tseq = target.selems();
            let tstart = target.sstart();
            let hi = window_below(tseq, tstart, upto as int);
            match r {
                Some(col) => col.inv() && all_faces_resolve(tseq, hi, elem@) && col@.to_set()
                    == boundary_index_set(tseq, tstart, hi, elem@) && (forall|x: usize|
                    col@.to_set().contains(x) ==> tstart <= x < tstart + hi),
                None => !all_faces_resolve(tseq, hi, elem@),
            }
        }),
{
    let ghost tseq = target.selems();
    let ghost tstart = target.sstart();
    let ghost hi = window_below(tseq, tstart, upto as int);
    let start = target.index_start();
    let tlen = target.len();
    let hi_exec: usize = if upto <= start {
        0
    } else {
        let d = upto - start;
        if d > tlen {
            tlen
        } else {
            d
        }
    };
    proof {
        assert(hi_exec as int == hi);
    }
    let n = elem.vertices().len();
    if n == 1 {
        let col = Z2VectorVec::new();
        proof {
            assert(boundary_seq(elem@).len() == 0);
            assert(col@.to_set() =~= boundary_index_set(tseq, tstart, hi, elem@));
        }
        return Some(col);
    }
    proof {
        lemma_boundary_faces(elem@);
    }
    let mut b = elem.boundary();
    let mut positions: Vec<usize> = Vec::new();
    let mut k: usize = 0;
    while k < n
        invariant
            target.inv(),
            all_wf(tseq),
            elem.wf(),
            2 <= n == elem@.len(),
            tseq == target.selems(),
            tstart == target.sstart(),
            hi == hi_exec as int,
            hi == window_below(tseq, tstart, upto as int),
            hi_exec <= target.selems().len(),
            start == target.sstart(),
            b.wf(),
            b.vertices@ == elem@,
            b.index == k,
            k <= n,
            positions@.len() == k,
            positions@.no_duplicates(),
            forall|i: int|
                0 <= i < k ==> face_logical(tseq, tstart, hi, #[trigger] elem@.remove(i)) == Some(
                    positions@[i] as int,
                ),
            forall|i: int| 0 <= i < k ==> tstart <= #[trigger] positions@[i] < tstart + hi,
        decreases n - k,
    {
        let face = match b.next() {
            Some(f) => f,
            None => {
                proof {
                    assert(false);
                }
                return None;
            },
        };
        proof {
            lemma_boundary_faces(elem@);
        }
        match find_face_between(target, 0, hi_exec, &face) {
            Some(i) => {
                proof {
                    lemma_face_position_props(tseq, 0, hi, face@);
                    assert(tseq[i - tstart]@ == elem@.remove(k as int));
                    assert forall|p: int| 0 <= p < k implies positions@[p] != i by {
                        if positions@[p] == i {
                            lemma_face_position_props(tseq, 0, hi, elem@.remove(p));
                            assert(tseq[i - tstart]@ == elem@.remove(p));
                            assert(boundary_seq(elem@)[p] == elem@.remove(p));
                            assert(boundary_seq(elem@)[k as int] == elem@.remove(k as int));
                        }
                    }
                }
                let ghost old_positions = positions@;
                positions.push(i);
                proof {
                    assert forall|q: int, p: int|
                        0 <= q < p < positions@.len() implies positions@[q] != positions@[p] by {
                        if p < k {
                            assert(old_positions[q] != old_positions[p]);
                        }
                    }
                }
                k += 1;
            },
            None => {
                proof {
                    assert(boundary_seq(elem@)[k as int] == elem@.remove(k as int));
                    assert(face@ == elem@.remove(k as int));
                    assert(!all_faces_resolve(tseq, hi, elem@)) by {
                        if all_faces_resolve(tseq, hi, elem@) {
                            assert(face_position(
                                tseq,
                                0,
                                hi,
                                boundary_seq(elem@)[k as int],
                            ) is Some);
                        }
                    }
                }
                return None;
            },
        }
    }
    let ghost pos_seq = positions@;
    let col = Z2VectorVec::from_vec(positions);
    proof {
        lemma_boundary_faces(elem@);
        assert(col@.to_set() =~= boundary_index_set(tseq, tstart, hi, elem@)) by {
            assert forall|x: usize|
                col@.to_set().contains(x) implies boundary_index_set(
                tseq,
                tstart,
                hi,
                elem@,
            ).contains(x) by {
                let i = choose|i: int| 0 <= i < pos_seq.len() && pos_seq[i] == x;
                assert(boundary_seq(elem@)[i] == elem@.remove(i));
                assert(face_logical(tseq, tstart, hi, boundary_seq(elem@)[i]) == Some(x as int));
            }
            assert forall|x: usize|
                boundary_index_set(tseq, tstart, hi, elem@).contains(x) implies col@.to_set().contains(
                x,
            ) by {
                let kk = choose|kk: int|
                    0 <= kk < boundary_seq(elem@).len() && face_logical(
                        tseq,
                        tstart,
                        hi,
                        #[trigger] boundary_seq(elem@)[kk],
                    ) == Some(x as int);
                assert(boundary_seq(elem@)[kk] == elem@.remove(kk));
                assert(face_logical(tseq, tstart, hi, elem@.remove(kk)) == Some(
                    pos_seq[kk] as int,
                ));
                assert(pos_seq[kk] == x);
                assert(pos_seq.to_set().contains(x));
            }
        }
        assert forall|kk: int|
            0 <= kk < boundary_seq(elem@).len() implies face_position(
            tseq,
            0,
            hi,
            #[trigger] boundary_seq(elem@)[kk],
        ) is Some by {
            assert(boundary_seq(elem@)[kk] == elem@.remove(kk));
        }
        assert forall|x: usize| col@.to_set().contains(x) implies tstart <= x < tstart + hi by {
            let i = choose|i: int| 0 <= i < pos_seq.len() && pos_seq[i] == x;
        }
    }
    Some(col)
}

/// A filtered simplicial complex: an indexed container of simplices. When it
/// serves as its own basis, every face of a stored simplex occurs at an
/// earlier index.
#[derive(Debug, Clone)]
pub struct Complex {
    /// The stored simplices, carrying their logical indices.
    pub basis: IndexedVec<Simplex>,
}

impl Complex {
    /// Validity: the index space is representable and every stored simplex is
    /// structurally valid.
    pub open spec fn cwf(&self) -> bool {
        self.basis.inv() && all_wf(self.basis.selems())
    }

    /// An empty complex whose indices begin at 0.
    pub fn new() -> (r: Complex)
        ensures
            r.cwf(),
            r.basis.selems() == Seq::<Simplex>::empty(),
            r.basis.sstart() == 0,
    {
        Complex { basis: IndexedVec::new(0) }
    }

    /// An empty complex whose indices continue where `prev` ends, so that the
    /// two complexes share one global index space.
    pub fn with_prev(prev: &Complex) -> (r: Complex)
        requires
            prev.basis.inv(),
        ensures
            r.cwf(),
            r.basis.selems() == Seq::<Simplex>::empty(),
            r.basis.sstart() == prev.basis.sstart() + prev.basis.selems().len(),
    {
        Complex { basis: IndexedVec::new(prev.basis.index_end()) }
    }

    /// Appends a simplex after checking the face-closure invariant against
    /// this complex's own basis, and that no equal element is present.
    pub fn push(&mut self, elem: Simplex) -> (r: Result<(), ComplexError>)
        requires
            old(self).cwf(),
            elem.wf(),
            old(self).basis.sstart() + old(self).basis.selems().len() < usize::MAX,
        ensures
            final(self).cwf(),
            final(self).basis.sstart() == old(self).basis.sstart(),
            ({
                let tseq = old(self).basis.selems();
                let hi = tseq.len() as int;
                match r {
                    Ok(_) => all_faces_resolve(tseq, hi, elem@) && face_position(
                        tseq,
                        0,
                        hi,
                        elem@,
                    ) is None && final(self).basis.selems() == tseq.push(elem),
                    Err(e) => final(self).basis == old(self).basis && (e
                        == ComplexError::ComplexIsNotFiltered ==> !all_faces_resolve(
                        tseq,
                        hi,
                        elem@,
                    )) && (e == ComplexError::ElementAlreadyExists ==> all_faces_resolve(
                        tseq,
                        hi,
                        elem@,
                    ) && face_position(tseq, 0, hi, elem@) is Some),
                }
            }),
    {
        let ghost tseq = self.basis.selems();
        proof {
            self.basis.inv_bound();
        }
        let end = self.basis.index_end();
        proof {
            assert(window_below(tseq, self.basis.sstart(), end as int) == tseq.len() as int);
        }
        match compute_boundary(&self.basis, end, &elem) {
            None => Err(ComplexError::ComplexIsNotFiltered),
            Some(_) => {
                let tlen = self.basis.len();
                match find_face_between(&self.basis, 0, tlen, &elem) {
                    Some(_) => Err(ComplexError::ElementAlreadyExists),
                    None => {
                        self.basis.push(elem);
                        Ok(())
                    },
                }
            },
        }
    }

    /// Appends a simplex without checking the face-closure invariant; for
    /// split-dimension complexes, whose faces live in another basis.
    pub fn push_unchecked(&mut self, elem: Simplex)
        requires
            old(self).cwf(),
            elem.wf(),
            old(self).basis.sstart() + old(self).basis.selems().len() < usize::MAX,
        ensures
            final(self).cwf(),
            final(self).basis.sstart() == old(self).basis.sstart(),
            final(self).basis.selems() == old(self).basis.selems().push(elem),
    {
        self.basis.push(elem);
    }

    /// Streams the boundary column of every stored simplex against this
    /// complex's own basis, in ascending index order.
    pub fn boundaries(&self) -> (r: Boundaries<'_>)
        requires
            self.cwf(),
        ensures
            r.wf(),
            r.domain == &self.basis,
            r.target == &self.basis,
            r.index == self.basis.sstart(),
    {
        Boundaries { domain: &self.basis, target: &self.basis, index: self.basis.index_start() }
    }

    /// Streams the boundary column of every stored simplex against the basis
    /// of another complex, for split-dimension storage.
    pub fn boundaries_from<'a>(&'a self, other: &'a Complex) -> (r: Boundaries<'a>)
        requires
            self.cwf(),
            other.cwf(),
        ensures
            r.wf(),
            r.domain == &self.basis,
            r.target == &other.basis,
            r.index == self.basis.sstart(),
    {
        Boundaries { domain: &self.basis, target: &other.basis, index: self.basis.index_start() }
    }
}

/// A cursor that yields, for each logical index of the domain, the boundary
/// column of the simplex there, resolved in the target basis restricted to
/// indices below the column's own index.
#[derive(Clone)]
pub struct Boundaries<'a> {
    /// The complex whose simplices are walked.
    pub domain: &'a IndexedVec<Simplex>,
    /// The basis in which faces are resolved.
    pub target: &'a IndexedVec<Simplex>,
    /// The next logical index to yield.
    pub index: usize,
}

impl<'a> Boundaries<'a> {
    /// Validity of the cursor.
    pub open spec fn wf(&self) -> bool {
        self.domain.inv() && self.target.inv() && all_wf(self.domain.selems()) && all_wf(
            self.target.selems(),
        ) && self.domain.sstart() <= self.index
    }

    /// Yields the next (index, column) pair, or the error for that index.
    /// Every index of the column is strictly below the column's own index.
    pub fn next(&mut self) -> (r: Option<Result<(usize, Z2VectorVec), ComplexError>>)
        requires
            old(self).wf(),
        ensures
            final(self).wf(),
            final(self).domain == old(self).domain,
            final(self).target == old(self).target,
            ({
                let dseq = old(self).domain.selems();
                let dstart = old(self).domain.sstart();
                let tseq = old(self).target.selems();
                let tstart = old(self).target.sstart();
                let j = old(self).index as int;
                let hi = window_below(tseq, tstart, j);
                let s = dseq[j - dstart];
                match r {
                    Some(item) => j < dstart + dseq.len() && final(self).index == j + 1 && match item {
                        Ok(p) => all_faces_resolve(tseq, hi, s@) && p.0 == j && p.1.inv()
                            && p.1@.to_set() == boundary_index_set(tseq, tstart, hi, s@) && (
                        forall|x: usize| p.1@.to_set().contains(x) ==> tstart <= x < j),
                        Err(e) => e == ComplexError::ComplexIsNotFiltered && !all_faces_resolve(
                            tseq,
                            hi,
                            s@,
                        ),
                    },
                    None => j >= dstart + dseq.len() && *final(self) == *old(self),
                }
            }),
    {
        proof {
            self.domain.inv_bound();
        }
        if self.index < self.domain.index_start() + self.domain.len() {
            let j = self.index;
            let s = match self.domain.get(j) {
                Some(s) => s,
                None => {
                    proof {
                        assert(false);
                    }
                    return None;
                },
            };
            self.index += 1;
            match compute_boundary(self.target, j, s) {
                Some(col) => {
                    proof {
                        let tstart = self.target.sstart();
                        let hi = window_below(self.target.selems(), tstart, j as int);
                        assert forall|x: usize| col@.to_set().contains(x) implies x < j by {
                            assert(tstart <= x < tstart + hi);
                        }
                    }
                    Some(Ok((j, col)))
                },
                None => Some(Err(ComplexError::ComplexIsNotFiltered)),
            }
        } else {
            None
        }
    }
}

/// A cursor that yields, for each boundary face of one simplex, the logical
/// position and sign at which the face resolves in a window of the target
/// basis, or `None` for a face that does not resolve there.
pub struct BoundaryFacesPositions<'a> {
    /// The window of the target basis in which faces are sought.
    pub iter: crate::indexed_vec::Range<'a, Simplex>,
    /// The faces of the simplex, in canonical order.
    pub boundary: crate::simplex::Boundary,
}

impl<'a> BoundaryFacesPositions<'a> {
    /// Validity of the cursor.
    pub open spec fn wf(&self) -> bool {
        self.iter.wf() && all_wf(self.iter.ivec.selems()) && self.boundary.wf()
    }

    /// Starts resolving the faces of `elem` in the window `iter`.
    pub fn new(iter: crate::indexed_vec::Range<'a, Simplex>, elem: &Simplex) -> (r:
        BoundaryFacesPositions<'a>)
        requires
            iter.wf(),
            all_wf(iter.ivec.selems()),
            elem.wf(),
        ensures
            r.wf(),
            r.iter == iter,
            r.boundary.vertices@ == elem@,
            r.boundary.index == 0,
    {
        BoundaryFacesPositions { iter, boundary: elem.boundary() }
    }

    /// Yields the resolution of the next face: its logical index and sign,
    /// or `None` inside `Some` when the face is absent from the window.
    pub fn next(&mut self) -> (r: Option<Option<(usize, Sign)>>)
        requires
            old(self).wf(),
        ensures
            final(self).wf(),
            final(self).iter == old(self).iter,
            final(self).boundary.vertices@ == old(self).boundary.vertices@,
            ({
                let v = old(self).boundary.vertices@;
                let k = old(self).boundary.index as int;
                let tseq = old(self).iter.ivec.selems();
                let tstart = old(self).iter.ivec.sstart();
                let lo = old(self).iter.index - tstart;
                let hi = old(self).iter.end - tstart;
                match r {
                    Some(item) => k < v.len() && v.len() > 1 && final(self).boundary.index == k + 1
                        && match item {
                        Some(p) => face_position(tseq, lo, hi, v.remove(k)) == Some(
                            p.0 - tstart,
                        ) && p.1.value() == 1,
                        None => face_position(tseq, lo, hi, v.remove(k)) is None,
                    },
                    None => (k >= v.len() || v.len() <= 1) && final(self).boundary == old(
                        self,
                    ).boundary,
                }
            }),
    {
        let face = match self.boundary.next() {
            Some(f) => f,
            None => {
                return None;
            },
        };
        let start = self.iter.ivec.index_start();
        let lo = self.iter.index - start;
        let hi = if self.iter.end < start {
            0
        } else {
            self.iter.end - start
        };
        match find_face_between(self.iter.ivec, lo, hi, &face) {
            Some(i) => Some(Some((i, Sign::positive()))),
            None => Some(None),
        }
    }
}

/// An index occurring in none of the columns occurs zero times.
proof fn lemma_occurrence_none(cols: Seq<Seq<usize>>, x: usize)
    requires
        forall|k: int| 0 <= k < cols.len() ==> !(#[trigger] cols[k]).contains(x),
    ensures
        occurrence_count(cols, x) == 0,
    decreases cols.len(),
{
    if cols.len() > 0 {
        let pre = cols.drop_last();
        assert(forall|k: int| 0 <= k < pre.len() ==> pre[k] == cols[k]);
        lemma_occurrence_none(pre, x);
    }
}

/// An index occurring in exactly two of the columns occurs twice.
proof fn lemma_occurrence_take(cols: Seq<Seq<usize>>, x: usize, a: int, b: int, m: int)
    requires
        0 <= a < b < cols.len(),
        0 <= m <= cols.len(),
        forall|k: int| 0 <= k < cols.len() ==> ((#[trigger] cols[k]).contains(x) <==> (k == a || k
            == b)),
    ensures
        occurrence_count(cols.take(m), x) == (if a < m {
            1int
        } else {
            0int
        }) + (if b < m {
            1int
        } else {
            0int
        }),
    decreases m,
{
    if m > 0 {
        lemma_occurrence_take(cols, x, a, b, m - 1);
        assert(cols.take(m).drop_last() =~= cols.take(m - 1));
        assert(cols.take(m).last() == cols[m - 1]);
    } else {
        assert(cols.take(0) =~= Seq::<Seq<usize>>::empty());
    }
}

/// The boundary of the boundary is zero: for a simplex s whose faces resolve
/// in a window of the target basis, adding up the boundary columns of all the
/// faces of s yields the empty column. Each face-of-face index occurs in
/// exactly two of the columns, so everything cancels over the two-element
/// field.
pub proof fn lemma_double_boundary_sum_is_zero(
    tseq: Seq<Simplex>,
    tstart: int,
    hi: int,
    s: Seq<usize>,
    cols: Seq<Seq<usize>>,
)
    requires
        strictly_ascending(s),
        s.len() >= 2,
        0 <= hi <= tseq.len(),
        cols.len() == s.len(),
        forall|k: int| 0 <= k < cols.len() ==> strictly_descending(#[trigger] cols[k]),
        forall|k: int, x: usize|
            0 <= k < cols.len() ==> ((#[trigger] cols[k].contains(x)) <==> boundary_index_set(
                tseq,
                tstart,
                hi,
                s.remove(k),
            ).contains(x)),
    ensures
        z2_add_all(cols) == Seq::<usize>::empty(),
{
    lemma_z2_add_all_parity(cols);
    assert forall|x: usize| occurrence_count(cols, x) % 2 == 0 by {
        if exists|k: int| 0 <= k < cols.len() && (#[trigger] cols[k]).contains(x) {
            let k0 = choose|k: int| 0 <= k < cols.len() && (#[trigger] cols[k]).contains(x);
            assert(boundary_index_set(tseq, tstart, hi, s.remove(k0)).contains(x));
            let f0 = s.remove(k0);
            let l0 = choose|l: int|
                0 <= l < boundary_seq(f0).len() && face_logical(
                    tseq,
                    tstart,
                    hi,
                    #[trigger] boundary_seq(f0)[l],
                ) == Some(x as int);
            assert(f0.len() >= 2);
            assert(boundary_seq(f0)[l0] == f0.remove(l0));
            let partner = lemma_double_boundary_cancels(s, k0, l0);
            lemma_face_position_props(tseq, 0, hi, f0.remove(l0));
            let p = x - tstart;
            assert(tseq[p]@ == f0.remove(l0));
            assert forall|k: int|
                0 <= k < cols.len() implies ((#[trigger] cols[k]).contains(x) <==> (k == k0 || k
                == partner.0)) by {
                if cols[k].contains(x) {
                    let f = s.remove(k);
                    let l = choose|l: int|
                        0 <= l < boundary_seq(f).len() && face_logical(
                            tseq,
                            tstart,
                            hi,
                            #[trigger] boundary_seq(f)[l],
                        ) == Some(x as int);
                    assert(boundary_seq(f)[l] == f.remove(l));
                    lemma_face_position_props(tseq, 0, hi, f.remove(l));
                    assert(tseq[p]@ == f.remove(l));
                    assert(s.remove(k).remove(l) == s.remove(k0).remove(l0));
                    assert(noop_pair(k, l) == (k, l));
                    assert((k == k0 && l == l0) || (k == partner.0 && l == partner.1));
                }
                if k == partner.0 && k != k0 {
                    let f = s.remove(partner.0);
                    assert(f.len() >= 2);
                    assert(boundary_seq(f)[partner.1] == f.remove(partner.1));
                    assert(f.remove(partner.1) == f0.remove(l0));
                    assert(face_logical(tseq, tstart, hi, boundary_seq(f)[partner.1]) == Some(
                        x as int,
                    ));
                    assert(boundary_index_set(tseq, tstart, hi, f).contains(x));
                }
            }
            let a = if k0 < partner.0 {
                k0
            } else {
                partner.0
            };
            let b = if k0 < partner.0 {
                partner.0
            } else {
                k0
            };
            lemma_occurrence_take(cols, x, a, b, cols.len() as int);
            assert(cols.take(cols.len() as int) =~= cols);
            assert(occurrence_count(cols, x) == 2);
        } else {
            lemma_occurrence_none(cols, x);
        }
    }
    let total = z2_add_all(cols);
    if total.len() > 0 {
        assert(total.contains(total[0]));
        assert(occurrence_count(cols, total[0]) % 2 == 1);
        assert(false);
    }
    assert(total =~= Seq::<usize>::empty());
}

} // verus!
