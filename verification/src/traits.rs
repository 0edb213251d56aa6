use vstd::prelude::*;

use crate::sign::Sign;

verus! {

/// A chain-complex generator: a cell identified by an ordered vertex tuple.
/// The one generator this library ships is the simplex; the trait keeps the
/// reduction pipeline open to other cell kinds.
pub trait ChainGenerator: Sized {
    /// The ordered vertex tuple identifying the generator.
    spec fn key(&self) -> Seq<usize>;

    /// Structural validity of the generator.
    spec fn wf(&self) -> bool;

    /// The dimension of the generator.
    fn dimension(&self) -> usize
        requires
            self.wf(),
    ;

    /// The inner product of two generators: +1 when they are the same cell,
    /// 0 otherwise.
    fn inner_prod(&self, other: &Self) -> Sign
        requires
            self.wf(),
            other.wf(),
    ;

    /// Whether `self` is a face of `other`.
    fn is_face_of(&self, other: &Self) -> bool
        requires
            self.wf(),
            other.wf(),
    ;
}

/// Access to the vertex tuple of a generator.
pub trait ChainGeneratorVertices {
    /// The vertices, ascending.
    fn vertices(&self) -> &Vec<usize>;
}

/// Enumeration of the codimension-1 faces of a generator.
pub trait ChainGeneratorBoundary: ChainGenerator {
    /// The cursor type that yields the faces in canonical order.
    type BoundaryIter;

    /// Starts enumerating the boundary faces.
    fn boundary(&self) -> Self::BoundaryIter
        requires
            self.wf(),
    ;
}

/// An append-only sequence whose logical indices begin at a configurable
/// start offset: element k of the sequence carries logical index start + k,
/// and an index, once assigned, never changes.
pub trait IndexedSet<T>: Sized {
    /// The stored elements, in insertion order.
    spec fn selems(&self) -> Seq<T>;

    /// The logical index of the first element.
    spec fn sstart(&self) -> int;

    /// Validity: the logical index space fits in the machine word.
    spec fn inv(&self) -> bool;

    /// A valid container's last logical index is representable.
    proof fn inv_bound(&self)
        requires
            self.inv(),
        ensures
            0 <= self.sstart(),
            self.sstart() + self.selems().len() <= usize::MAX,
    ;

    /// An empty container whose first element will get logical index `start`.
    fn new(start: usize) -> (r: Self)
        ensures
            r.selems() == Seq::<T>::empty(),
            r.sstart() == start as int,
            r.inv(),
    ;

    /// As `new`, with storage preallocated.
    fn with_capacity(start: usize, capacity: usize) -> (r: Self)
        ensures
            r.selems() == Seq::<T>::empty(),
            r.sstart() == start as int,
            r.inv(),
    ;

    /// Wraps an existing vector, assigning logical indices from `start` on.
    fn from_vec(vec: Vec<T>, start: usize) -> (r: Self)
        requires
            start + vec@.len() <= usize::MAX,
        ensures
            r.selems() == vec@,
            r.sstart() == start as int,
            r.inv(),
    ;

    /// The number of stored elements.
    fn len(&self) -> (r: usize)
        ensures
            r == self.selems().len(),
    ;

    /// The first logical index.
    fn index_start(&self) -> (r: usize)
        ensures
            r == self.sstart(),
    ;

    /// One past the last logical index; the index the next push will get.
    fn index_end(&self) -> (r: usize)
        requires
            self.inv(),
        ensures
            r == self.sstart() + self.selems().len(),
    ;

    /// The range of valid logical indices.
    fn index_range(&self) -> (r: core::ops::Range<usize>)
        requires
            self.inv(),
        ensures
            r.start == self.sstart(),
            r.end == self.sstart() + self.selems().len(),
    ;

    /// Appends an element; it gets the next logical index.
    fn push(&mut self, elem: T)
        requires
            old(self).inv(),
            old(self).sstart() + old(self).selems().len() < usize::MAX,
        ensures
            final(self).inv(),
            final(self).sstart() == old(self).sstart(),
            final(self).selems() == old(self).selems().push(elem),
    ;

    /// Reads the element at a logical index; `None` outside the valid range.
    fn get(&self, index: usize) -> (r: Option<&T>)
        requires
            self.inv(),
        ensures
            match r {
                Some(v) => self.sstart() <= index < self.sstart() + self.selems().len() && *v
                    == self.selems()[index - self.sstart()],
                None => !(self.sstart() <= index < self.sstart() + self.selems().len()),
            },
    ;

    /// The first logical index in `range` whose element equals `elem`, by a
    /// linear scan.
    fn position_within(&self, range: core::ops::Range<usize>, elem: &T) -> (r: Option<usize>) where
        T: PartialEq + vstd::std_specs::cmp::PartialEqSpec
        requires
            self.inv(),
            range.start < range.end ==> self.sstart() <= range.start && range.end <= self.sstart()
                + self.selems().len(),
        ensures
            T::obeys_eq_spec() ==> match r {
                Some(i) => range.start <= i < range.end && self.selems()[i - self.sstart()].eq_spec(
                    elem,
                ) && forall|k: int|
                    range.start <= k < i ==> !(#[trigger] self.selems()[
                        k - self.sstart()
                    ]).eq_spec(elem),
                None => forall|k: int|
                    range.start <= k < range.end ==> !(#[trigger] self.selems()[
                        k - self.sstart()
                    ]).eq_spec(elem),
            },
    ;
}

/// The memo oracle of a column reducer: maps a pivot index to the logical
/// index of the unique reduced column holding that pivot.
pub trait LookupByLowest {
    /// The memo as a map from pivot index to the holder's logical index.
    spec fn memo(&self) -> Map<usize, usize>;

    /// Looks up the logical index of the column whose pivot is `lowest`.
    fn lookup_by_lowest(&self, lowest: usize) -> (r: Option<usize>)
        ensures
            r == if self.memo().dom().contains(lowest) {
                Some(self.memo()[lowest])
            } else {
                None::<usize>
            },
    ;
}

} // verus!
