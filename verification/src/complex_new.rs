use vstd::prelude::*;

use crate::simplex::Simplex;
use crate::traits::ChainGenerator;

verus! {

/// A plain unchecked container of simplices with a zero-based index space:
/// the minimal shape a complex can take before any filtration checking.
#[derive(Debug, Clone)]
pub struct Complex {
    basis: Vec<Simplex>,
}

impl View for Complex {
    type V = Seq<Simplex>;

    closed spec fn view(&self) -> Seq<Simplex> {
        self.basis@
    }
}

impl Complex {
    /// An empty complex.
    pub fn new() -> (r: Complex)
        ensures
            r@ == Seq::<Simplex>::empty(),
    {
        Complex { basis: Vec::new() }
    }

    /// The number of stored simplices.
    pub fn len(&self) -> (r: usize)
        ensures
            r == self@.len(),
    {
        self.basis.len()
    }

    /// The range of valid indices.
    pub fn index_range(&self) -> (r: core::ops::Range<usize>)
        ensures
            r.start == 0,
            r.end == self@.len(),
    {
        0..self.basis.len()
    }

    /// Appends a simplex; it gets the next index.
    pub fn push(&mut self, elem: Simplex)
        requires
            elem.wf(),
        ensures
            final(self)@ == old(self)@.push(elem),
    {
        self.basis.push(elem);
    }
}

} // verus!
