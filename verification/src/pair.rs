use vstd::prelude::*;

use crate::traits::LookupByLowest;
use crate::Persistence;

verus! {

/// A cursor that pairs each cycle, by its birth index, with the storage
/// position of the column that kills it, if any. The reducer's pivot memo is
/// the oracle; a birth index with no killer is an essential class.
pub struct Pair<'a, B, C> {
    /// The reducer queried for killers.
    pub reduce: &'a B,
    /// The (birth index, cycle) pairs to pair up.
    pub cycles: Vec<(usize, C)>,
    /// The next position in `cycles`.
    pub pos: usize,
}

impl<'a, B: LookupByLowest, C: Copy> Pair<'a, B, C> {
    /// The (birth index, cycle) pairs being paired.
    pub open spec fn items(&self) -> Seq<(usize, C)> {
        self.cycles@
    }

    /// Starts pairing the given cycles against the reducer `reduce`.
    pub fn new(reduce: &'a B, cycles: Vec<(usize, C)>) -> (r: Pair<'a, B, C>)
        ensures
            r.reduce == reduce,
            r.items() == cycles@,
            r.pos == 0,
    {
        Pair { reduce, cycles, pos: 0 }
    }

    /// Yields the persistence pair of the next cycle: its birth index,
    /// together with the storage position of the unique reduced column whose
    /// pivot is that index — `None` when the class is essential.
    pub fn next(&mut self) -> (r: Option<(Persistence<usize>, C)>)
        ensures
            final(self).reduce == old(self).reduce,
            final(self).items() == old(self).items(),
            ({
                let items = old(self).items();
                let memo = old(self).reduce.memo();
                match r {
                    Some(p) => {
                        &&& old(self).pos < items.len()
                        &&& final(self).pos == old(self).pos + 1
                        &&& p.0.0 == items[old(self).pos as int].0
                        &&& p.0.1 == (if memo.dom().contains(items[old(self).pos as int].0) {
                            Some(memo[items[old(self).pos as int].0])
                        } else {
                            None::<usize>
                        })
                        &&& p.1 == items[old(self).pos as int].1
                    },
                    None => old(self).pos >= items.len() && final(self).pos == old(self).pos,
                }
            }),
    {
        if self.pos < self.cycles.len() {
            let (index, cycle) = self.cycles[self.pos];
            let boundary_pos = self.reduce.lookup_by_lowest(index);
            self.pos += 1;
            Some((Persistence(index, boundary_pos), cycle))
        } else {
            None
        }
    }
}

} // verus!
