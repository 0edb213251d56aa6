use vstd::prelude::*;

use vstd::pervasive::VecAdditionalExecFns;

verus! {

/// The strict max-heap ordering over the 1-based position encoding: every
/// element below the root is strictly smaller than its parent.
pub open spec fn heap_ordered(data: Seq<usize>) -> bool {
    forall|i: int| 1 <= i < data.len() ==> data[(i + 1) / 2 - 1] > #[trigger] data[i]
}

/// A 1-based position in the implicit binary tree of a heap: the children of
/// position p sit at 2p and 2p + 1. Position 0 stands for "above the root".
#[derive(Debug, Clone, Copy)]
struct Position(usize);

impl Position {
    /// The root position.
    fn root() -> (r: Position)
        ensures
            r.0 == 1,
    {
        Position(1)
    }

    /// The parent position; the root's parent is position 0.
    fn parent(&self) -> (r: Position)
        ensures
            r.0 == self.0 / 2,
    {
        Position(self.0 / 2)
    }

    /// The left child.
    fn left(&self) -> (r: Position)
        requires
            self.0 * 2 <= usize::MAX,
        ensures
            r.0 == self.0 * 2,
    {
        Position(self.0 * 2)
    }

    /// The right child.
    fn right(&self) -> (r: Position)
        requires
            self.0 * 2 + 1 <= usize::MAX,
        ensures
            r.0 == self.0 * 2 + 1,
    {
        Position(self.0 * 2 + 1)
    }

    /// The storage index of the position; position 0 has none.
    fn to_index(&self) -> (r: Option<usize>)
        ensures
            r == if self.0 == 0 {
                None::<usize>
            } else {
                Some((self.0 - 1) as usize)
            },
    {
        if self.0 == 0 {
            None
        } else {
            Some(self.0 - 1)
        }
    }
}

/// A binary max-heap of distinct keys.
#[derive(Debug)]
pub struct Heap {
    data: Vec<usize>,
}

impl Heap {
    /// The stored keys in storage order.
    pub closed spec fn sdata(&self) -> Seq<usize> {
        self.data@
    }

    /// Validity: the heap ordering holds.
    pub open spec fn wf(&self) -> bool {
        heap_ordered(self.sdata())
    }

    /// An empty heap.
    pub fn new() -> (r: Heap)
        ensures
            r.wf(),
            r.sdata() == Seq::<usize>::empty(),
    {
        Heap { data: Vec::new() }
    }

    /// The element at a position, if the position is occupied.
    fn get(&self, pos: Position) -> (r: Option<&usize>)
        ensures
            r == if 1 <= pos.0 <= self.sdata().len() {
                Some(&self.sdata()[pos.0 - 1])
            } else {
                None::<&usize>
            },
    {
        match pos.to_index() {
            None => None,
            Some(index) => {
                if index < self.data.len() {
                    Some(&self.data[index])
                } else {
                    None
                }
            },
        }
    }

    /// Whether the element at a position is below its parent, as the heap
    /// ordering demands; holds vacuously where either is absent.
    fn is_valid(&self, pos: Position) -> (r: bool)
        requires
            1 <= pos.0 / 2 <= self.sdata().len() && pos.0 <= self.sdata().len() ==> self.sdata()[
                pos.0 / 2 - 1] != self.sdata()[pos.0 - 1],
        ensures
            r == !(1 <= pos.0 / 2 && pos.0 <= self.sdata().len() && self.sdata()[pos.0 / 2 - 1]
                < self.sdata()[pos.0 - 1]),
    {
        let value = self.get(pos);
        let parent = self.get(pos.parent());
        match (parent, value) {
            (None, _) => true,
            (Some(p), Some(v)) => *p > *v,
            (Some(_), None) => true,
        }
    }

    /// Inserts a key not already present, restoring the heap ordering by
    /// sifting the key up towards the root.
    pub fn push(&mut self, value: usize)
        requires
            old(self).wf(),
            !old(self).sdata().contains(value),
            old(self).sdata().len() < usize::MAX,
        ensures
            final(self).wf(),
            final(self).sdata().to_multiset() == old(self).sdata().to_multiset().insert(value),
    {
        broadcast use vstd::seq_lib::to_multiset_build;
        broadcast use vstd::seq_lib::to_multiset_update;
        broadcast use vstd::multiset::group_multiset_axioms;

        let ghost orig = self.sdata();
        self.data.push(value);
        let mut pos = Position(self.data.len());
        proof {
            assert forall|i: int|
                0 <= i < self.data@.len() && i != pos.0 - 1 implies #[trigger] self.data@[i]
                != value by {
                assert(orig.contains(orig[i]) || i >= orig.len());
            }
        }
        while pos.0 > 1 && !self.is_valid(pos)
            invariant
                1 <= pos.0 <= self.data@.len(),
                self.data@.len() == orig.len() + 1,
                self.data@.to_multiset() == orig.to_multiset().insert(value),
                self.data@[pos.0 - 1] == value,
                forall|i: int|
                    1 <= i < self.data@.len() && i != pos.0 - 1 ==> self.data@[(i + 1) / 2
                        - 1] > #[trigger] self.data@[i],
                forall|i: int|
                    1 <= i < self.data@.len() && (i + 1) / 2 == pos.0 && pos.0 >= 2
                        ==> self.data@[pos.0 / 2 - 1] > #[trigger] self.data@[i],
                forall|i: int|
                    0 <= i < self.data@.len() && i != pos.0 - 1 ==> #[trigger] self.data@[i]
                        != value,
            decreases pos.0,
        {
            let parent = pos.parent();
            let i = pos.0 - 1;
            let pi = parent.0 - 1;
            let ghost pre = self.data@;
            let a = self.data[i];
            let b = self.data[pi];
            self.data.set(i, b);
            self.data.set(pi, a);
            proof {
                let cur = self.data@;
                let mid = pre.update(i as int, pre[pi as int]);
                assert(cur == mid.update(pi as int, value));
                vstd::seq_lib::to_multiset_update(pre, i as int, pre[pi as int]);
                vstd::seq_lib::to_multiset_update(mid, pi as int, value);
                assert(mid[pi as int] == pre[pi as int]);
                assert(pre.to_multiset().contains(pre[i as int])) by {
                    pre.to_multiset_ensures();
                    assert(pre.contains(pre[i as int]));
                }
                assert(cur.to_multiset() =~= pre.to_multiset());
                assert forall|kk: int|
                    1 <= kk < cur.len() && kk != parent.0 - 1 implies cur[(kk + 1) / 2
                    - 1] > #[trigger] cur[kk] by {
                    if kk == i {
                        assert(cur[(i as int + 1) / 2 - 1] == cur[pi as int]);
                        assert(cur[pi as int] == value);
                        assert(cur[kk] == pre[pi as int]);
                    } else if (kk + 1) / 2 - 1 == i {
                        // a child of the vacated slot: its new parent value is
                        // the old parent key, which bounds it by the side
                        // condition carried for the children of pos
                        assert((kk + 1) / 2 == pos.0);
                        assert(pre[pos.0 / 2 - 1] > pre[kk]);
                        assert(cur[(kk + 1) / 2 - 1] == pre[pi as int]);
                        assert(cur[kk] == pre[kk]);
                    } else if (kk + 1) / 2 - 1 == pi {
                        // the sibling of pos keeps its place; the pushed key
                        // now above it is larger than the old parent was
                        assert(cur[(kk + 1) / 2 - 1] == value);
                        assert(cur[kk] == pre[kk]);
                        assert(pre[(kk + 1) / 2 - 1] == pre[pi as int]);
                        assert(pre[pi as int] > pre[kk]);
                        assert(value > pre[pi as int]);
                    } else {
                        assert(cur[kk] == pre[kk]);
                        assert(cur[(kk + 1) / 2 - 1] == pre[(kk + 1) / 2 - 1]);
                        assert(pre[(kk + 1) / 2 - 1] > pre[kk]);
                    }
                }
                assert forall|kk: int|
                    1 <= kk < cur.len() && (kk + 1) / 2 == parent.0 && parent.0 >= 2 implies cur[
                parent.0 / 2 - 1] > #[trigger] cur[kk] by {
                    assert(cur[parent.0 / 2 - 1] == pre[parent.0 / 2 - 1]);
                    assert(pre[(pi as int + 1) / 2 - 1] > pre[pi as int]);
                    if kk == i {
                        assert(cur[kk] == pre[pi as int]);
                    } else {
                        assert(cur[kk] == pre[kk]);
                        assert(pre[(kk + 1) / 2 - 1] == pre[pi as int]);
                        assert(pre[pi as int] > pre[kk]);
                    }
                }
            }
            pos = parent;
        }
        proof {
            let cur = self.data@;
            if pos.0 > 1 {
                assert(cur[pos.0 / 2 - 1] != cur[pos.0 - 1]);
            }
            assert forall|i: int| 1 <= i < cur.len() implies cur[(i + 1) / 2 - 1] > #[trigger] cur[i] by {
                if i == pos.0 - 1 {
                    assert(!(cur[pos.0 / 2 - 1] < cur[pos.0 - 1]));
                }
            }
        }
    }
}

} // verus!
