//! Persistent homology of a filtered simplicial complex over the two-element
//! field: boundary columns are streamed in filtration order, reduced
//! incrementally with a lowest-index memo, and paired into (birth, death)
//! persistence classes with representative cycles.

use vstd::prelude::*;

pub mod complex;
pub mod complex_new;
pub mod heap;
pub mod indexed_vec;
pub mod pair;
pub mod sign;
pub mod simpcomp;
pub mod simplex;
pub mod traits;
pub mod vietoris_rips;
pub mod z2reduce;
pub mod z2vector;

verus! {

/// A persistence pair: the index at which a homology class is born and the
/// index at which it dies. A death of `None` means the class is essential,
/// i.e. it is still alive at the end of the filtration.
#[derive(Debug, Clone, Copy)]
pub struct Persistence<T>(pub T, pub Option<T>);

impl<T> Persistence<T> {
    /// Whether the class never dies.
    pub fn is_essential(&self) -> (r: bool)
        ensures
            r == self.1 is None,
    {
        self.1.is_none()
    }
}

} // verus!
