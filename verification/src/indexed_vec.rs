use vstd::prelude::*;

use crate::traits::IndexedSet;

verus! {

/// An append-only vector whose logical indices begin at a start offset:
/// the element at storage position k carries logical index start + k.
#[derive(Debug, Clone)]
pub struct IndexedVec<T> {
    vec: Vec<T>,
    start: usize,
}

impl<T> View for IndexedVec<T> {
    type V = Seq<T>;

    closed spec fn view(&self) -> Seq<T> {
        self.vec@
    }
}

impl<T> IndexedSet<T> for IndexedVec<T> {
    open spec fn selems(&self) -> Seq<T> {
        self@
    }

    closed spec fn sstart(&self) -> int {
        self.start as int
    }

    closed spec fn inv(&self) -> bool {
        self.start + self.vec@.len() <= usize::MAX
    }

    proof fn inv_bound(&self) {
    }

    fn new(start: usize) -> (r: IndexedVec<T>) {
        IndexedVec { vec: Vec::new(), start }
    }

    fn with_capacity(start: usize, capacity: usize) -> (r: IndexedVec<T>) {
        IndexedVec { vec: Vec::with_capacity(capacity), start }
    }

    fn from_vec(vec: Vec<T>, start: usize) -> (r: IndexedVec<T>) {
        IndexedVec { vec, start }
    }

    fn len(&self) -> (r: usize) {
        self.vec.len()
    }

    fn index_start(&self) -> (r: usize) {
        self.start
    }

    fn index_end(&self) -> (r: usize) {
        self.start + self.vec.len()
    }

    fn index_range(&self) -> (r: core::ops::Range<usize>) {
        self.start..(self.start + self.vec.len())
    }

    fn push(&mut self, elem: T) {
        self.vec.push(elem);
    }

    fn get(&self, index: usize) -> (r: Option<&T>) {
        if index < self.start {
            None
        } else {
            let off = index - self.start;
            if off < self.vec.len() {
                Some(&self.vec[off])
            } else {
                None
            }
        }
    }

    fn position_within(&self, range: core::ops::Range<usize>, elem: &T) -> (r: Option<usize>) where
        T: PartialEq + vstd::std_specs::cmp::PartialEqSpec
    {
        let mut index = range.start;
        while index < range.end
            invariant
                self.inv(),
                range.start <= index,
                index < range.end ==> self.sstart() <= index,
                range.start < range.end ==> range.end <= self.sstart() + self.selems().len(),
                T::obeys_eq_spec() ==> forall|k: int|
                    range.start <= k < index ==> !(#[trigger] self.selems()[
                        k - self.sstart()
                    ]).eq_spec(elem),
            decreases range.end - index,
        {
            if self.vec[index - self.start].eq(elem) {
                return Some(index);
            }
            index += 1;
        }
        None
    }
}

impl<T> IndexedVec<T> {
    /// A cursor over (logical index, element) pairs of the whole container.
    pub fn iter(&self) -> (r: Iter<'_, T>)
        requires
            self.inv(),
        ensures
            r.ivec == self,
            r.index == self.sstart(),
    {
        Iter { ivec: self, index: self.start }
    }

    /// A cursor over the (logical index, element) pairs with logical index in
    /// `range`, clamped to the valid index range of the container.
    pub fn range(&self, range: core::ops::Range<usize>) -> (r: Range<'_, T>)
        requires
            self.inv(),
        ensures
            r.ivec == self,
            r.index == if range.start < self.sstart() {
                self.sstart()
            } else {
                range.start as int
            },
            r.end == if range.end <= self.sstart() + self.selems().len() {
                range.end as int
            } else {
                self.sstart() + self.selems().len()
            },
    {
        let index_start = self.start;
        let index_end = self.start + self.vec.len();
        Range {
            ivec: self,
            index: if range.start < index_start {
                index_start
            } else {
                range.start
            },
            end: if range.end <= index_end {
                range.end
            } else {
                index_end
            },
        }
    }

    /// A consuming cursor over (logical index, element) pairs.
    pub fn into_iter(self) -> (r: IntoIter<T>)
        requires
            self.inv(),
        ensures
            r.remaining() == self.selems(),
            r.index() == self.sstart(),
            r.inv(),
    {
        let ghost elems = self.vec@;
        let start = self.start;
        let mut vec = self.vec;
        let mut rev: Vec<T> = Vec::new();
        while vec.len() > 0
            invariant
                elems == vec@ + rev@.reverse(),
            decreases vec.len(),
        {
            let ghost pre = vec@;
            let ghost prev_rev = rev@;
            let x = vec.pop().unwrap();
            rev.push(x);
            proof {
                assert(rev@.reverse() =~= seq![pre[pre.len() - 1]] + prev_rev.reverse());
                assert(vec@ + rev@.reverse() =~= pre + prev_rev.reverse());
            }
        }
        proof {
            assert(rev@.reverse() =~= elems);
        }
        IntoIter { rev, index: start }
    }
}

/// A borrowing cursor over (logical index, element) pairs.
#[derive(Debug)]
pub struct Iter<'a, T> {
    /// The container being read.
    pub ivec: &'a IndexedVec<T>,
    /// The next logical index to yield.
    pub index: usize,
}

impl<'a, T> Iter<'a, T> {
    /// Yields the next (logical index, element) pair, in ascending index
    /// order.
    pub fn next(&mut self) -> (r: Option<(usize, &'a T)>)
        requires
            old(self).ivec.inv(),
        ensures
            final(self).ivec == old(self).ivec,
            match r {
                Some(p) => {
                    &&& old(self).index < old(self).ivec.sstart() + old(self).ivec.selems().len()
                    &&& old(self).ivec.sstart() <= old(self).index
                    &&& p.0 == old(self).index
                    &&& *p.1 == old(self).ivec.selems()[old(self).index - old(self).ivec.sstart()]
                    &&& final(self).index == old(self).index + 1
                },
                None => {
                    &&& !(old(self).ivec.sstart() <= old(self).index < old(self).ivec.sstart()
                        + old(self).ivec.selems().len())
                    &&& *final(self) == *old(self)
                },
            },
    {
        match self.ivec.get(self.index) {
            Some(elem) => {
                let pair = (self.index, elem);
                self.index += 1;
                Some(pair)
            },
            None => None,
        }
    }
}

impl<'a, T> Clone for Iter<'a, T> {
    fn clone(&self) -> (r: Self)
        ensures
            r == *self,
    {
        Iter { ivec: self.ivec, index: self.index }
    }
}

/// A borrowing cursor over the (logical index, element) pairs of a sub-range.
#[derive(Debug)]
pub struct Range<'a, T> {
    /// The container being read.
    pub ivec: &'a IndexedVec<T>,
    /// The next logical index to yield.
    pub index: usize,
    /// One past the last logical index to yield.
    pub end: usize,
}

impl<'a, T> Range<'a, T> {
    /// Validity: the cursor stays within the container's index range.
    pub open spec fn wf(&self) -> bool {
        self.ivec.inv() && self.ivec.sstart() <= self.index && self.end <= self.ivec.sstart()
            + self.ivec.selems().len()
    }

    /// Yields the next (logical index, element) pair, in ascending index
    /// order, stopping at the end of the sub-range.
    pub fn next(&mut self) -> (r: Option<(usize, &'a T)>)
        requires
            old(self).wf(),
        ensures
            final(self).wf(),
            final(self).ivec == old(self).ivec,
            final(self).end == old(self).end,
            match r {
                Some(p) => {
                    &&& old(self).index < old(self).end
                    &&& p.0 == old(self).index
                    &&& *p.1 == old(self).ivec.selems()[old(self).index - old(self).ivec.sstart()]
                    &&& final(self).index == old(self).index + 1
                },
                None => old(self).index >= old(self).end && *final(self) == *old(self),
            },
    {
        if self.index < self.end {
            match self.ivec.get(self.index) {
                Some(elem) => {
                    let pair = (self.index, elem);
                    self.index += 1;
                    Some(pair)
                },
                None => {
                    proof {
                        assert(false);
                    }
                    None
                },
            }
        } else {
            None
        }
    }
}

impl<'a, T> Clone for Range<'a, T> {
    fn clone(&self) -> (r: Self)
        ensures
            r == *self,
    {
        Range { ivec: self.ivec, index: self.index, end: self.end }
    }
}

/// A consuming cursor over (logical index, element) pairs.
pub struct IntoIter<T> {
    rev: Vec<T>,
    index: usize,
}

impl<T> IntoIter<T> {
    /// The elements not yet yielded, in the order they will come out.
    pub closed spec fn remaining(&self) -> Seq<T> {
        self.rev@.reverse()
    }

    /// The logical index the next element will carry.
    pub closed spec fn index(&self) -> int {
        self.index as int
    }

    /// Validity: the remaining index space fits in the machine word.
    pub closed spec fn inv(&self) -> bool {
        self.index + self.rev@.len() <= usize::MAX
    }

    /// Yields the next (logical index, element) pair, in ascending index
    /// order.
    pub fn next(&mut self) -> (r: Option<(usize, T)>)
        requires
            old(self).inv(),
        ensures
            final(self).inv(),
            match r {
                Some(p) => {
                    &&& old(self).remaining().len() > 0
                    &&& p.0 == old(self).index()
                    &&& p.1 == old(self).remaining()[0]
                    &&& final(self).remaining() == old(self).remaining().skip(1)
                    &&& final(self).index() == old(self).index() + 1
                },
                None => old(self).remaining().len() == 0 && final(self).remaining() == old(
                    self,
                ).remaining() && final(self).index() == old(self).index(),
            },
    {
        let ghost pre = self.rev@;
        match self.rev.pop() {
            Some(elem) => {
                let pair = (self.index, elem);
                self.index += 1;
                proof {
                    assert(pre.reverse()[0] == pre[pre.len() - 1]);
                    assert(self.rev@.reverse() =~= pre.reverse().skip(1));
                }
                Some(pair)
            },
            None => None,
        }
    }
}

} // verus!
