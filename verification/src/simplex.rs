use vstd::prelude::*;

use crate::sign::Sign;
use crate::traits::{ChainGenerator, ChainGeneratorBoundary, ChainGeneratorVertices};

verus! {

/// A vertex tuple sorted strictly ascending: the canonical representation of
/// a simplex.
pub open spec fn strictly_ascending(s: Seq<usize>) -> bool {
    forall|i: int, j: int| 0 <= i < j < s.len() ==> s[i] < s[j]
}

/// The boundary of a vertex tuple: the faces obtained by deleting each vertex
/// position in turn, in position order. A single vertex has an empty boundary.
pub open spec fn boundary_seq(s: Seq<usize>) -> Seq<Seq<usize>> {
    if s.len() <= 1 {
        Seq::empty()
    } else {
        Seq::new(s.len(), |k: int| s.remove(k))
    }
}

/// Deleting one position of a strictly ascending tuple leaves a strictly
/// ascending tuple over a subset of the vertices.
pub proof fn lemma_remove_ascending(s: Seq<usize>, k: int)
    requires
        strictly_ascending(s),
        0 <= k < s.len(),
    ensures
        strictly_ascending(s.remove(k)),
        s.remove(k).len() == s.len() - 1,
        s.remove(k).to_set().subset_of(s.to_set()),
{
    s.remove_ensures(k);
    let r = s.remove(k);
    assert forall|i: int, j: int| 0 <= i < j < r.len() implies r[i] < r[j] by {
        assert(r[i] == if i < k {
            s[i]
        } else {
            s[i + 1]
        });
        assert(r[j] == if j < k {
            s[j]
        } else {
            s[j + 1]
        });
    }
    assert forall|x: usize| r.to_set().contains(x) implies s.to_set().contains(x) by {
        let i = choose|i: int| 0 <= i < r.len() && r[i] == x;
        assert(r[i] == if i < k {
            s[i]
        } else {
            s[i + 1]
        });
    }
}

/// The boundary of a simplex of dimension d consists of exactly d + 1
/// pairwise distinct faces of dimension d - 1, each of them a face of the
/// simplex.
pub proof fn lemma_boundary_faces(s: Seq<usize>)
    requires
        strictly_ascending(s),
        s.len() >= 2,
    ensures
        boundary_seq(s).len() == s.len(),
        forall|k: int|
            0 <= k < s.len() ==> strictly_ascending(#[trigger] boundary_seq(s)[k])
                && boundary_seq(s)[k].len() == s.len() - 1 && boundary_seq(s)[k].to_set().subset_of(
                s.to_set(),
            ),
        forall|k1: int, k2: int|
            0 <= k1 < k2 < s.len() ==> #[trigger] boundary_seq(s)[k1] != #[trigger] boundary_seq(
                s,
            )[k2],
{
    assert forall|k: int| 0 <= k < s.len() implies strictly_ascending(
        #[trigger] boundary_seq(s)[k],
    ) && boundary_seq(s)[k].len() == s.len() - 1 && boundary_seq(s)[k].to_set().subset_of(
        s.to_set(),
    ) by {
        lemma_remove_ascending(s, k);
    }
    assert forall|k1: int, k2: int| 0 <= k1 < k2 < s.len() implies #[trigger] boundary_seq(
        s,
    )[k1] != #[trigger] boundary_seq(s)[k2] by {
        s.remove_ensures(k1);
        s.remove_ensures(k2);
        assert(s.remove(k1)[k1] == s[k1 + 1]);
        assert(s.remove(k2)[k1] == s[k1]);
        assert(s[k1] < s[k1 + 1]);
    }
}

/// Deleting two positions commutes: the face of a face reached by deleting
/// position j and then i (with i < j) equals the one reached by deleting i
/// and then j - 1. Over the two-element field this pairing is why every
/// boundary-of-boundary face cancels: the boundary of the boundary is zero.
pub proof fn lemma_boundary_commutes(s: Seq<usize>, i: int, j: int)
    requires
        0 <= i < j < s.len(),
    ensures
        s.remove(j).remove(i) == s.remove(i).remove(j - 1),
{
    s.remove_ensures(j);
    s.remove_ensures(i);
    let a = s.remove(j);
    let b = s.remove(i);
    a.remove_ensures(i);
    b.remove_ensures(j - 1);
    assert forall|x: int| 0 <= x < s.len() - 2 implies a.remove(i)[x] == b.remove(j - 1)[x] by {
        assert(a.remove(i)[x] == if x < i {
            a[x]
        } else {
            a[x + 1]
        });
        assert(b.remove(j - 1)[x] == if x < j - 1 {
            b[x]
        } else {
            b[x + 1]
        });
    }
    assert(a.remove(i) =~= b.remove(j - 1));
}

/// The tuple `s` with the two positions `lo < hi` deleted.
pub open spec fn remove_two(s: Seq<usize>, lo: int, hi: int) -> Seq<usize> {
    s.remove(hi).remove(lo)
}

/// The pair of positions of `s` that deleting position k and then position l
/// of the remaining tuple takes out, in ascending order.
pub open spec fn removed_pair(k: int, l: int) -> (int, int) {
    if l >= k {
        (k, l + 1)
    } else {
        (l, k)
    }
}

/// Two successive single deletions take out exactly the positions that
/// `removed_pair` names.
pub proof fn lemma_remove_then_remove(s: Seq<usize>, k: int, l: int)
    requires
        0 <= k < s.len(),
        0 <= l < s.len() - 1,
    ensures
        s.remove(k).remove(l) == remove_two(s, removed_pair(k, l).0, removed_pair(k, l).1),
{
    if l >= k {
        lemma_boundary_commutes(s, k, l + 1);
    }
}

/// What remains after deleting two positions: the elements at every other
/// position.
proof fn lemma_remove_two_elements(s: Seq<usize>, lo: int, hi: int)
    requires
        0 <= lo < hi < s.len(),
    ensures
        remove_two(s, lo, hi).len() == s.len() - 2,
        forall|x: int|
            0 <= x < s.len() - 2 ==> #[trigger] remove_two(s, lo, hi)[x] == (if x < lo {
                s[x]
            } else if x < hi - 1 {
                s[x + 1]
            } else {
                s[x + 2]
            }),
{
    s.remove_ensures(hi);
    s.remove(hi).remove_ensures(lo);
}

/// Deleting two positions of a strictly ascending tuple determines the
/// positions: no other pair of deletions leaves the same tuple.
pub proof fn lemma_remove_two_injective(s: Seq<usize>, lo1: int, hi1: int, lo2: int, hi2: int)
    requires
        strictly_ascending(s),
        0 <= lo1 < hi1 < s.len(),
        0 <= lo2 < hi2 < s.len(),
        remove_two(s, lo1, hi1) == remove_two(s, lo2, hi2),
    ensures
        lo1 == lo2,
        hi1 == hi2,
{
    lemma_remove_two_elements(s, lo1, hi1);
    lemma_remove_two_elements(s, lo2, hi2);
    let a = remove_two(s, lo1, hi1);
    if lo1 < lo2 {
        assert(a[lo1] == s[lo1 + 1] || a[lo1] == s[lo1 + 2]);
        assert(remove_two(s, lo2, hi2)[lo1] == s[lo1]);
        assert(false);
    }
    if lo2 < lo1 {
        assert(a[lo2] == s[lo2]);
        assert(remove_two(s, lo2, hi2)[lo2] == s[lo2 + 1] || remove_two(s, lo2, hi2)[lo2] == s[lo2
            + 2]);
        assert(false);
    }
    if hi1 < hi2 {
        assert(a[hi1 - 1] == s[hi1 + 1]);
        assert(remove_two(s, lo2, hi2)[hi1 - 1] == s[hi1]);
        assert(false);
    }
    if hi2 < hi1 {
        assert(a[hi2 - 1] == s[hi2]);
        assert(remove_two(s, lo2, hi2)[hi2 - 1] == s[hi2 + 1]);
        assert(false);
    }
}

/// The boundary of the boundary is zero over the two-element field: each face
/// of a face of `s` — delete position k, then position l of what remains —
/// arises from exactly one other (face, position) pair, the returned partner.
/// In the total boundary-of-boundary sum every term therefore occurs exactly
/// twice and cancels.
pub proof fn lemma_double_boundary_cancels(s: Seq<usize>, k: int, l: int) -> (partner: (int, int))
    requires
        strictly_ascending(s),
        0 <= k < s.len(),
        0 <= l < s.len() - 1,
    ensures
        0 <= partner.0 < s.len(),
        0 <= partner.1 < s.len() - 1,
        partner.0 != k,
        s.remove(partner.0).remove(partner.1) == s.remove(k).remove(l),
        forall|k2: int, l2: int|
            0 <= k2 < s.len() && 0 <= l2 < s.len() - 1 && #[trigger] noop_pair(k2, l2) == (k2, l2)
                && s.remove(k2).remove(l2) == s.remove(k).remove(l) ==> ((k2 == k && l2 == l) || (
            k2 == partner.0 && l2 == partner.1)),
{
    let partner: (int, int) = if l >= k {
        (l + 1, k)
    } else {
        (l, k - 1)
    };
    lemma_remove_then_remove(s, k, l);
    lemma_remove_then_remove(s, partner.0, partner.1);
    assert(removed_pair(partner.0, partner.1) == removed_pair(k, l));
    assert forall|k2: int, l2: int|
        0 <= k2 < s.len() && 0 <= l2 < s.len() - 1 && #[trigger] noop_pair(k2, l2) == (k2, l2)
            && s.remove(k2).remove(l2) == s.remove(k).remove(l) implies ((k2 == k && l2 == l) || (k2
        == partner.0 && l2 == partner.1)) by {
        lemma_remove_then_remove(s, k2, l2);
        let p = removed_pair(k2, l2);
        let q = removed_pair(k, l);
        lemma_remove_two_injective(s, p.0, p.1, q.0, q.1);
        if l2 >= k2 {
            assert(k2 == q.0 && l2 + 1 == q.1);
        } else {
            assert(l2 == q.0 && k2 == q.1);
        }
    }
    partner
}

/// The identity on position pairs, used to shape a quantifier trigger.
pub open spec fn noop_pair(k: int, l: int) -> (int, int) {
    (k, l)
}

/// A strictly ascending tuple has no repeated vertices.
pub proof fn lemma_ascending_no_duplicates(s: Seq<usize>)
    requires
        strictly_ascending(s),
    ensures
        s.no_duplicates(),
{
}

/// A proper face has strictly fewer vertices, so the face relation cannot
/// hold in the other direction.
pub proof fn lemma_proper_face_asymmetric(t: Seq<usize>, s: Seq<usize>)
    requires
        strictly_ascending(t),
        strictly_ascending(s),
        t.to_set().subset_of(s.to_set()),
        t.len() < s.len(),
    ensures
        !s.to_set().subset_of(t.to_set()),
{
    lemma_ascending_no_duplicates(t);
    lemma_ascending_no_duplicates(s);
    t.unique_seq_to_set();
    s.unique_seq_to_set();
    broadcast use vstd::seq_lib::seq_to_set_is_finite;

    if s.to_set().subset_of(t.to_set()) {
        vstd::set_lib::lemma_len_subset(s.to_set(), t.to_set());
    }
}

/// A simplex: a nonempty set of vertices, stored sorted strictly ascending.
#[derive(Debug, Clone)]
pub struct Simplex {
    /// The vertices, ascending and distinct.
    vertices: Vec<usize>,
}

impl View for Simplex {
    type V = Seq<usize>;

    closed spec fn view(&self) -> Seq<usize> {
        self.vertices@
    }
}

impl Simplex {
    /// Creates a simplex from a nonempty vertex list; the list is sorted and
    /// deduplicated.
    pub fn new(vertices: Vec<usize>) -> (r: Simplex)
        requires
            vertices@.len() > 0,
        ensures
            r.wf(),
            r@.to_set() == vertices@.to_set(),
    {
        let mut res: Vec<usize> = Vec::new();
        let mut k: usize = 0;
        while k < vertices.len()
            invariant
                k <= vertices.len(),
                strictly_ascending(res@),
                res@.to_set() == vertices@.take(k as int).to_set(),
            decreases vertices.len() - k,
        {
            let x = vertices[k];
            let mut pos: usize = 0;
            while pos < res.len() && res[pos] < x
                invariant
                    pos <= res.len(),
                    forall|i: int| 0 <= i < pos ==> res@[i] < x,
                decreases res.len() - pos,
            {
                pos += 1;
            }
            let ghost old_res = res@;
            if pos < res.len() && res[pos] == x {
                // the vertex is already present: take(k + 1) adds nothing new
                proof {
                    assert(res@.to_set().contains(x));
                    assert(vertices@.take(k + 1) =~= vertices@.take(k as int).push(x));
                    vertices@.take(k as int).lemma_push_to_set_commute(x);
                    assert(res@.to_set() =~= vertices@.take(k + 1).to_set());
                }
            } else {
                res.insert(pos, x);
                proof {
                    let n = res@;
                    assert forall|i: int, j: int| 0 <= i < j < n.len() implies n[i] < n[j] by {
                        assert(n == old_res.insert(pos as int, x));
                    }
                    assert(res@.to_set() =~= old_res.to_set().insert(x)) by {
                        assert forall|y: usize| res@.to_set().contains(y) implies old_res.to_set().contains(
                            y,
                        ) || y == x by {
                            let i = choose|i: int| 0 <= i < res@.len() && res@[i] == y;
                            if i < pos {
                                assert(old_res[i] == y);
                            } else if i > pos {
                                assert(old_res[i - 1] == y);
                            }
                        }
                        assert forall|y: usize| old_res.to_set().contains(y) implies res@.to_set().contains(
                            y,
                        ) by {
                            let i = choose|i: int| 0 <= i < old_res.len() && old_res[i] == y;
                            if i < pos {
                                assert(res@[i] == y);
                            } else {
                                assert(res@[i + 1] == y);
                            }
                        }
                        assert(res@[pos as int] == x);
                        assert(res@.to_set().contains(x));
                    }
                    assert(vertices@.take(k + 1) =~= vertices@.take(k as int).push(x));
                    vertices@.take(k as int).lemma_push_to_set_commute(x);
                }
            }
            k += 1;
        }
        proof {
            assert(vertices@.take(vertices@.len() as int) =~= vertices@);
            assert(res@.to_set().contains(vertices@[0]));
            if res@.len() == 0 {
                assert(!res@.to_set().contains(vertices@[0]));
            }
        }
        Simplex { vertices: res }
    }
}

impl ChainGenerator for Simplex {
    open spec fn key(&self) -> Seq<usize> {
        self@
    }

    open spec fn wf(&self) -> bool {
        strictly_ascending(self@) && self@.len() >= 1
    }

    /// The dimension: one less than the number of vertices.
    fn dimension(&self) -> (r: usize)
        ensures
            r == self@.len() - 1,
    {
        self.vertices.len() - 1
    }

    /// +1 when the vertex tuples are equal, 0 otherwise.
    fn inner_prod(&self, other: &Simplex) -> (r: Sign)
        ensures
            r.value() == if self@ == other@ {
                1int
            } else {
                0int
            },
    {
        if self.vertices.len() != other.vertices.len() {
            proof {
                assert(self@.len() != other@.len());
            }
            return Sign::zero();
        }
        let mut i: usize = 0;
        while i < self.vertices.len()
            invariant
                i <= self.vertices.len(),
                self.vertices.len() == other.vertices.len(),
                forall|k: int| 0 <= k < i ==> self.vertices@[k] == other.vertices@[k],
            decreases self.vertices.len() - i,
        {
            if self.vertices[i] != other.vertices[i] {
                return Sign::zero();
            }
            i += 1;
        }
        proof {
            assert(self@ =~= other@);
        }
        Sign::positive()
    }

    /// Whether every vertex of `self` occurs in `other`.
    fn is_face_of(&self, other: &Simplex) -> (r: bool)
        ensures
            r == self@.to_set().subset_of(other@.to_set()),
    {
        let mut i: usize = 0;
        while i < self.vertices.len()
            invariant
                i <= self.vertices.len(),
                self.wf(),
                other.wf(),
                forall|k: int| 0 <= k < i ==> other@.to_set().contains(#[trigger] self.vertices@[k]),
            decreases self.vertices.len() - i,
        {
            let v = self.vertices[i];
            let mut j: usize = 0;
            let mut found = false;
            while j < other.vertices.len()
                invariant
                    j <= other.vertices.len(),
                    found ==> other@.to_set().contains(v),
                    !found ==> forall|k: int| 0 <= k < j ==> other.vertices@[k] != v,
                decreases other.vertices.len() - j,
            {
                if other.vertices[j] == v {
                    found = true;
                    proof {
                        assert(other@[j as int] == v);
                    }
                }
                j += 1;
            }
            if !found {
                proof {
                    if other@.to_set().contains(v) {
                        let k = choose|k: int| 0 <= k < other@.len() && other@[k] == v;
                        assert(other.vertices@[k] == v);
                    }
                    assert(self@.to_set().contains(self@[i as int]));
                }
                return false;
            }
            i += 1;
        }
        proof {
            assert forall|x: usize| self@.to_set().contains(x) implies other@.to_set().contains(
                x,
            ) by {
                let k = choose|k: int| 0 <= k < self@.len() && self@[k] == x;
                assert(other@.to_set().contains(self.vertices@[k]));
            }
        }
        true
    }
}

impl ChainGeneratorVertices for Simplex {
    /// The vertices, ascending.
    fn vertices(&self) -> (r: &Vec<usize>)
        ensures
            r@ == self@,
    {
        &self.vertices
    }
}

impl ChainGeneratorBoundary for Simplex {
    type BoundaryIter = Boundary;

    /// Starts enumerating the codimension-1 faces, in vertex-position order.
    fn boundary(&self) -> (r: Boundary)
        ensures
            r.vertices@ == self@,
            r.index == 0,
            r.wf(),
    {
        let mut vs: Vec<usize> = Vec::new();
        let mut i: usize = 0;
        while i < self.vertices.len()
            invariant
                i <= self.vertices.len(),
                vs@ == self.vertices@.take(i as int),
            decreases self.vertices.len() - i,
        {
            vs.push(self.vertices[i]);
            proof {
                assert(vs@ =~= self.vertices@.take(i + 1));
            }
            i += 1;
        }
        proof {
            assert(self.vertices@.take(self.vertices@.len() as int) =~= self.vertices@);
        }
        Boundary { vertices: vs, index: 0 }
    }
}

impl PartialEq for Simplex {
    /// Equality of the ordered vertex tuples.
    fn eq(&self, other: &Simplex) -> (r: bool) {
        if self.vertices.len() != other.vertices.len() {
            proof {
                assert(self@.len() != other@.len());
            }
            false
        } else {
            let mut i: usize = 0;
            while i < self.vertices.len()
                invariant
                    i <= self.vertices.len(),
                    self.vertices.len() == other.vertices.len(),
                    forall|k: int| 0 <= k < i ==> self.vertices@[k] == other.vertices@[k],
                decreases self.vertices.len() - i,
            {
                if self.vertices[i] != other.vertices[i] {
                    return false;
                }
                i += 1;
            }
            proof {
                assert(self@ =~= other@);
            }
            true
        }
    }
}

impl Eq for Simplex {

}

impl vstd::std_specs::cmp::PartialEqSpecImpl for Simplex {
    open spec fn obeys_eq_spec() -> bool {
        true
    }

    open spec fn eq_spec(&self, other: &Simplex) -> bool {
        self@ == other@
    }
}

/// A cursor over the vertices of a simplex.
pub struct Vertices {
    /// The vertex tuple being read.
    pub vertices: Vec<usize>,
    /// The next position to yield.
    pub index: usize,
}

impl Vertices {
    /// The vertices not yet yielded.
    pub open spec fn remaining(&self) -> Seq<usize> {
        self.vertices@.skip(self.index as int)
    }

    /// Yields the next vertex.
    pub fn next(&mut self) -> (r: Option<usize>)
        ensures
            final(self).vertices@ == old(self).vertices@,
            match r {
                Some(v) => old(self).index < old(self).vertices@.len() && v == old(
                    self,
                ).vertices@[old(self).index as int] && final(self).index == old(self).index + 1,
                None => old(self).index >= old(self).vertices@.len() && *final(self) == *old(self),
            },
    {
        if self.index < self.vertices.len() {
            let v = self.vertices[self.index];
            self.index += 1;
            Some(v)
        } else {
            None
        }
    }
}

/// A cursor over the codimension-1 faces of a simplex, in vertex-position
/// order: the k-th face omits the k-th vertex.
pub struct Boundary {
    /// The vertex tuple of the simplex whose boundary is enumerated.
    pub vertices: Vec<usize>,
    /// The next vertex position to omit.
    pub index: usize,
}

impl Boundary {
    /// Validity of the cursor.
    pub open spec fn wf(&self) -> bool {
        strictly_ascending(self.vertices@) && self.vertices@.len() >= 1
    }

    /// Yields the next face: the simplex with the current vertex position
    /// deleted. A 0-simplex has an empty boundary.
    pub fn next(&mut self) -> (r: Option<Simplex>)
        requires
            old(self).wf(),
        ensures
            final(self).wf(),
            final(self).vertices@ == old(self).vertices@,
            match r {
                Some(f) => old(self).index < old(self).vertices@.len() && old(
                    self,
                ).vertices@.len() > 1 && f@ == old(self).vertices@.remove(old(self).index as int)
                    && f.wf() && final(self).index == old(self).index + 1,
                None => (old(self).index >= old(self).vertices@.len() || old(
                    self,
                ).vertices@.len() <= 1) && *final(self) == *old(self),
            },
    {
        if self.index < self.vertices.len() && self.vertices.len() > 1 {
            let ghost v = self.vertices@;
            let ghost kk = self.index as int;
            let mut face: Vec<usize> = Vec::new();
            let mut i: usize = 0;
            while i < self.vertices.len()
                invariant
                    i <= self.vertices.len(),
                    self.vertices@ == v,
                    self.index == kk,
                    kk < v.len(),
                    face@ == if i <= kk {
                        v.take(i as int)
                    } else {
                        v.remove(kk).take(i - 1)
                    },
                decreases self.vertices.len() - i,
            {
                proof {
                    v.remove_ensures(kk);
                }
                if i != self.index {
                    face.push(self.vertices[i]);
                }
                proof {
                    if i < kk {
                        assert(face@ =~= v.take(i + 1));
                    } else if i == kk {
                        assert(face@ =~= v.remove(kk).take(i as int));
                    } else {
                        assert(v.remove(kk)[i - 1] == v[i as int]);
                        assert(face@ =~= v.remove(kk).take(i as int));
                    }
                }
                i += 1;
            }
            proof {
                v.remove_ensures(kk);
                assert(face@ =~= v.remove(kk));
                lemma_remove_ascending(v, kk);
            }
            self.index += 1;
            Some(Simplex { vertices: face })
        } else {
            None
        }
    }
}

} // verus!
