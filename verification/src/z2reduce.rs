use vstd::prelude::*;

use std::collections::BTreeMap;

use crate::indexed_vec::IndexedVec;
use crate::Persistence;
use crate::complex::{all_faces_resolve, boundary_index_set, window_below, Boundaries, Complex, ComplexError};
use crate::traits::{IndexedSet, LookupByLowest};
use crate::z2vector::Z2VectorVec;
use crate::z2vector::{
    lemma_z2_add_elements, lemma_z2_add_same_lowest, strictly_descending, z2_add, z2_lowest,
    Z2Vector,
};

verus! {

/// The invariant of the incremental column reduction. `cols` are the stored
/// reduced columns, `memo` maps a pivot index to the logical index of the
/// unique stored column holding that pivot, and `start` is the logical index
/// of the first stored column.
///
/// - every stored column is valid and its indices lie strictly below its own
///   logical index;
/// - every memo entry points inside the storage, at a nonempty column whose
///   pivot is the entry's key;
/// - every nonempty stored column is registered in the memo under its pivot.
pub open spec fn reducer_inv<V: Z2Vector>(
    cols: Seq<V>,
    memo: Map<usize, usize>,
    start: int,
) -> bool {
    &&& 0 <= start
    &&& start + cols.len() <= usize::MAX
    &&& (forall|p: int| 0 <= p < cols.len() ==> (#[trigger] cols[p]).inv())
    &&& (forall|p: int, x: usize|
        0 <= p < cols.len() && (#[trigger] cols[p].image().contains(x)) ==> x < start + p)
    &&& (forall|l: usize| #[trigger]
        memo.dom().contains(l) ==> start <= memo[l] < start + cols.len() && cols[memo[l]
            - start].image().len() > 0 && cols[memo[l] - start].image()[0] == l)
    &&& (forall|p: int|
        0 <= p < cols.len() && (#[trigger] cols[p]).image().len() > 0 ==> memo.dom().contains(
            cols[p].image()[0],
        ) && memo[cols[p].image()[0]] == start + p)
}

/// The standard reduction of an incoming column against a reduced state:
/// while the column's pivot is registered in the memo, add the registered
/// column, which cancels the pivot and strictly lowers it.
pub open spec fn reduce_spec<V: Z2Vector>(
    cols: Seq<V>,
    memo: Map<usize, usize>,
    start: int,
    b: Seq<usize>,
) -> Seq<usize>
    decreases (if b.len() == 0 {
        0int
    } else {
        b[0] + 1
    })
        when reducer_inv(cols, memo, start) && strictly_descending(b)
{
    if b.len() > 0 && memo.dom().contains(b[0]) {
        let c = cols[memo[b[0]] - start].image();
        proof {
            cols[memo[b[0]] - start].inv_descending();
            lemma_z2_add_same_lowest(b, c);
        }
        reduce_spec(cols, memo, start, z2_add(b, c))
    } else {
        b
    }
}

/// The result of the reduction is a valid column whose pivot, if any, is not
/// in the memo, and whose indices come from the input and the stored columns.
pub proof fn lemma_reduce_spec_props<V: Z2Vector>(
    cols: Seq<V>,
    memo: Map<usize, usize>,
    start: int,
    b: Seq<usize>,
    bound: int,
)
    requires
        reducer_inv(cols, memo, start),
        strictly_descending(b),
        start + cols.len() <= bound,
        forall|x: usize| b.contains(x) ==> x < bound,
    ensures
        strictly_descending(reduce_spec(cols, memo, start, b)),
        reduce_spec(cols, memo, start, b).len() == 0 || !memo.dom().contains(
            reduce_spec(cols, memo, start, b)[0],
        ),
        forall|x: usize| reduce_spec(cols, memo, start, b).contains(x) ==> x < bound,
    decreases (if b.len() == 0 {
        0int
    } else {
        b[0] + 1
    }),
{
    if b.len() > 0 && memo.dom().contains(b[0]) {
        let c = cols[memo[b[0]] - start].image();
        cols[memo[b[0]] - start].inv_descending();
        lemma_z2_add_same_lowest(b, c);
        lemma_z2_add_elements(b, c);
        assert forall|x: usize| z2_add(b, c).contains(x) implies x < bound by {
            if c.contains(x) {
                assert(x < start + (memo[b[0]] - start));
            }
        }
        lemma_reduce_spec_props(cols, memo, start, z2_add(b, c), bound);
    }
}

/// The incremental column reducer: an indexed container of fully reduced
/// columns together with the memo from pivot index to the logical index of
/// the column holding that pivot.
#[derive(Debug)]
pub struct Z2ColumnReduce<V> {
    reduced: IndexedVec<V>,
    lowest_memo: BTreeMap<usize, usize>,
}

impl<V: Z2Vector> Z2ColumnReduce<V> {
    /// The stored reduced columns, in insertion order.
    pub closed spec fn cols(&self) -> Seq<V> {
        self.reduced.selems()
    }

    /// The logical index of the first stored column.
    pub closed spec fn start(&self) -> int {
        self.reduced.sstart()
    }

    /// Validity of the underlying storage.
    pub closed spec fn container_ok(&self) -> bool {
        self.reduced.inv()
    }

    /// Validity: the reduction invariant holds of the state.
    pub open spec fn wf(&self) -> bool {
        self.container_ok() && reducer_inv(self.cols(), self.memo(), self.start())
    }

    /// An empty reducer whose first column will carry logical index `start`.
    pub fn new(start: usize) -> (r: Z2ColumnReduce<V>)
        ensures
            r.wf(),
            r.cols() == Seq::<V>::empty(),
            r.memo() == Map::<usize, usize>::empty(),
            r.start() == start as int,
    {
        Z2ColumnReduce { reduced: IndexedVec::new(start), lowest_memo: BTreeMap::new() }
    }

    /// The stored column holding the pivot of `boundary`, with its storage
    /// position, if the memo registers that pivot.
    pub fn find_same_lowest(&self, boundary: &V) -> (r: Option<(usize, &V)>)
        requires
            self.wf(),
            boundary.inv(),
        ensures
            match r {
                Some(p) => boundary.image().len() > 0 && self.memo().dom().contains(
                    boundary.image()[0],
                ) && p.0 == self.memo()[boundary.image()[0]] && *p.1 == self.cols()[p.0
                    - self.start()],
                None => boundary.image().len() == 0 || !self.memo().dom().contains(
                    boundary.image()[0],
                ),
            },
    {
        broadcast use vstd::std_specs::btree::group_btree_axioms;
        broadcast use vstd::laws_cmp::group_laws_cmp;

        match boundary.lowest() {
            None => None,
            Some(lowest) => match self.lowest_memo.get(&lowest) {
                None => None,
                Some(pos) => {
                    let pos = *pos;
                    match self.reduced.get(pos) {
                        Some(chain) => Some((pos, chain)),
                        None => {
                            proof {
                                assert(false);
                            }
                            None
                        },
                    }
                },
            },
        }
    }

    /// Fully reduces `boundary` against the stored columns: afterwards its
    /// pivot, if any, is not in the memo, and its value is the one the
    /// standard reduction computes.
    pub fn reduce(&self, boundary: &mut V)
        requires
            self.wf(),
            old(boundary).inv(),
            forall|x: usize|
                old(boundary).image().contains(x) ==> x < self.start() + self.cols().len(),
        ensures
            final(boundary).inv(),
            final(boundary).image() == reduce_spec(
                self.cols(),
                self.memo(),
                self.start(),
                old(boundary).image(),
            ),
            final(boundary).image().len() == 0 || !self.memo().dom().contains(
                final(boundary).image()[0],
            ),
            forall|x: usize|
                final(boundary).image().contains(x) ==> x < self.start() + self.cols().len(),
    {
        let ghost orig = boundary.image();
        proof {
            boundary.inv_descending();
        }
        loop
            invariant
                self.wf(),
                boundary.inv(),
                forall|x: usize|
                    boundary.image().contains(x) ==> x < self.start() + self.cols().len(),
                reduce_spec(self.cols(), self.memo(), self.start(), boundary.image())
                    == reduce_spec(self.cols(), self.memo(), self.start(), orig),
            ensures
                boundary.inv(),
                forall|x: usize|
                    boundary.image().contains(x) ==> x < self.start() + self.cols().len(),
                reduce_spec(self.cols(), self.memo(), self.start(), boundary.image())
                    == reduce_spec(self.cols(), self.memo(), self.start(), orig),
                boundary.image().len() == 0 || !self.memo().dom().contains(boundary.image()[0]),
            decreases (if boundary.image().len() == 0 {
                0int
            } else {
                boundary.image()[0] + 1
            }),
        {
            match self.find_same_lowest(boundary) {
                Some((_, chain)) => {
                    proof {
                        let b = boundary.image();
                        let pos = self.memo()[b[0]] as int;
                        let c = self.cols()[pos - self.start()];
                        assert(*chain == c);
                        boundary.inv_descending();
                        c.inv_descending();
                        lemma_z2_add_same_lowest(b, c.image());
                        lemma_z2_add_elements(b, c.image());
                        assert forall|x: usize|
                            z2_add(b, c.image()).contains(x) implies x < self.start()
                            + self.cols().len() by {
                            if c.image().contains(x) {
                                assert(x < self.start() + (pos - self.start()));
                            }
                        }
                    }
                    boundary.add_assign(chain);
                },
                None => {
                    break ;
                },
            }
        }
        proof {
            boundary.inv_descending();
            assert(reduce_spec(self.cols(), self.memo(), self.start(), boundary.image())
                == boundary.image());
        }
    }

    /// Pushes one incoming column: reduces it fully, registers its pivot in
    /// the memo when it has one (the column then kills the class born at the
    /// pivot index), and appends it to the storage.
    pub fn push(&mut self, boundary: V)
        requires
            old(self).wf(),
            boundary.inv(),
            forall|x: usize|
                boundary.image().contains(x) ==> x < old(self).start() + old(self).cols().len(),
            old(self).start() + old(self).cols().len() < usize::MAX,
        ensures
            final(self).wf(),
            final(self).start() == old(self).start(),
            final(self).cols().len() == old(self).cols().len() + 1,
            final(self).cols().take(old(self).cols().len() as int) == old(self).cols(),
            ({
                let img = reduce_spec(
                    old(self).cols(),
                    old(self).memo(),
                    old(self).start(),
                    boundary.image(),
                );
                &&& final(self).cols().last().image() == img
                &&& final(self).memo() == if img.len() == 0 {
                    old(self).memo()
                } else {
                    old(self).memo().insert(img[0], (old(self).start() + old(self).cols().len()) as usize)
                }
                &&& (img.len() > 0 ==> !old(self).memo().dom().contains(img[0]))
            }),
    {
        broadcast use vstd::std_specs::btree::group_btree_axioms;
        broadcast use vstd::laws_cmp::group_laws_cmp;

        let mut boundary = boundary;
        let ghost old_cols = self.cols();
        let ghost old_memo = self.memo();
        let ghost st = self.start();
        self.reduce(&mut boundary);
        let ghost img = boundary.image();
        proof {
            self.reduced.inv_bound();
        }
        match boundary.lowest() {
            Some(lowest) => {
                let index = self.reduced.index_end();
                self.lowest_memo.insert(lowest, index);
            },
            None => {},
        }
        self.reduced.push(boundary);
        proof {
            let cols = self.cols();
            let memo = self.memo();
            let n = old_cols.len() as int;
            assert(cols.take(n) =~= old_cols);
            assert(cols.last() == boundary);
            assert forall|p: int| 0 <= p < cols.len() implies (#[trigger] cols[p]).inv() by {
                if p < n {
                    assert(old_cols[p].inv());
                }
            }
            assert forall|p: int, x: usize|
                0 <= p < cols.len() && (#[trigger] cols[p].image().contains(x)) implies x < st
                + p by {
                if p < n {
                    assert(old_cols[p].image().contains(x));
                }
            }
            assert forall|l: usize| #[trigger]
                memo.dom().contains(l) implies st <= memo[l] < st + cols.len() && cols[memo[l]
                - st].image().len() > 0 && cols[memo[l] - st].image()[0] == l by {
                if img.len() > 0 && l == img[0] {
                    assert(memo[l] == st + n);
                    assert(cols[n] == boundary);
                } else {
                    assert(old_memo.dom().contains(l));
                    assert(memo[l] == old_memo[l]);
                    assert(cols[old_memo[l] - st] == old_cols[old_memo[l] - st]);
                }
            }
            assert forall|p: int|
                0 <= p < cols.len() && (#[trigger] cols[p]).image().len() > 0 implies memo.dom().contains(
                cols[p].image()[0],
            ) && memo[cols[p].image()[0]] == st + p by {
                if p < n {
                    assert(old_cols[p].image().len() > 0);
                    assert(old_memo.dom().contains(old_cols[p].image()[0]));
                    if img.len() > 0 && old_cols[p].image()[0] == img[0] {
                        assert(false);
                    }
                } else {
                    assert(cols[p] == boundary);
                }
            }
        }
    }
}

impl<V: Z2Vector> LookupByLowest for Z2ColumnReduce<V> {
    closed spec fn memo(&self) -> Map<usize, usize> {
        self.lowest_memo@
    }

    fn lookup_by_lowest(&self, lowest: usize) -> (r: Option<usize>) {
        broadcast use vstd::std_specs::btree::group_btree_axioms;
        broadcast use vstd::laws_cmp::group_laws_cmp;

        match self.lowest_memo.get(&lowest) {
            Some(pos) => Some(*pos),
            None => None,
        }
    }
}

/// A run of the reducer: column j of `cols` is the standard reduction of
/// input column `inputs[j]` against the state left by the first j pushes, and
/// `memos` records the memo before and after each push.
pub open spec fn reduction_trace<V: Z2Vector>(
    cols: Seq<V>,
    memos: Seq<Map<usize, usize>>,
    start: int,
    inputs: Seq<Seq<usize>>,
) -> bool {
    &&& memos.len() == cols.len() + 1
    &&& inputs.len() == cols.len()
    &&& memos[0] == Map::<usize, usize>::empty()
    &&& forall|j: int|
        0 <= j < cols.len() ==> {
            let img = (#[trigger] cols[j]).image();
            &&& img == reduce_spec(cols.take(j), memos[j], start, inputs[j])
            &&& memos[j + 1] == (if img.len() == 0 {
                memos[j]
            } else {
                memos[j].insert(img[0], (start + j) as usize)
            })
        }
}

impl<V: Z2Vector> Z2ColumnReduce<V> {
    /// Builds a reducer by pushing every column of the boundary stream `bds`,
    /// each wrapped through `f` (which must preserve the image), propagating
    /// the first error of the stream.
    #[verifier::rlimit(30)]
    fn from_stream<'a, F: Fn(usize, Z2VectorVec) -> V>(bds: Boundaries<'a>, f: F) -> (r: Result<
        Z2ColumnReduce<V>,
        ComplexError,
    >)
        requires
            bds.wf(),
            bds.index == bds.domain.sstart(),
            forall|j: usize, b: Z2VectorVec| b.inv() ==> call_requires(f, (j, b)),
            forall|j: usize, b: Z2VectorVec, v: V|
                b.inv() && #[trigger] call_ensures(f, (j, b), v) ==> v.inv() && v.image() == b@,
        ensures
            ({
                let dseq = bds.domain.selems();
                let dstart = bds.domain.sstart();
                let tseq = bds.target.selems();
                let tstart = bds.target.sstart();
                match r {
                    Ok(rd) => rd.wf() && rd.start() == dstart && rd.cols().len() == dseq.len() && (
                    forall|j: int|
                        0 <= j < dseq.len() ==> all_faces_resolve(
                            tseq,
                            window_below(tseq, tstart, dstart + j),
                            (#[trigger] dseq[j])@,
                        )) && exists|inputs: Seq<Seq<usize>>, memos: Seq<Map<usize, usize>>|
                        {
                            &&& #[trigger] reduction_trace(rd.cols(), memos, dstart, inputs)
                            &&& rd.memo() == memos[dseq.len() as int]
                            &&& forall|j: int|
                                0 <= j < dseq.len() ==> strictly_descending(#[trigger] inputs[j])
                                    && inputs[j].to_set() == boundary_index_set(
                                    tseq,
                                    tstart,
                                    window_below(tseq, tstart, dstart + j),
                                    dseq[j]@,
                                )
                        },
                    Err(e) => e == ComplexError::ComplexIsNotFiltered && exists|j: int|
                        0 <= j < dseq.len() && !all_faces_resolve(
                            tseq,
                            window_below(tseq, tstart, dstart + #[trigger] noop_int(j)),
                            dseq[j]@,
                        ),
                }
            }),
    {
        let ghost dseq = bds.domain.selems();
        let ghost dstart = bds.domain.sstart();
        let ghost tseq = bds.target.selems();
        let ghost tstart = bds.target.sstart();
        let mut bds = bds;
        let mut reduce = Z2ColumnReduce::new(bds.domain.index_start());
        let mut failed = false;
        let ghost mut inputs: Seq<Seq<usize>> = Seq::empty();
        let ghost mut memos: Seq<Map<usize, usize>> = seq![Map::<usize, usize>::empty()];
        proof {
            bds.domain.inv_bound();
        }
        loop
            invariant_except_break
                !failed,
                bds.index as int == dstart + reduce.cols().len(),
            invariant
                bds.wf(),
                bds.domain.selems() == dseq,
                bds.domain.sstart() == dstart,
                bds.target.selems() == tseq,
                bds.target.sstart() == tstart,
                dstart + dseq.len() <= usize::MAX,
                forall|j: usize, b: Z2VectorVec| b.inv() ==> call_requires(f, (j, b)),
                forall|j: usize, b: Z2VectorVec, v: V|
                    b.inv() && #[trigger] call_ensures(f, (j, b), v) ==> v.inv() && v.image()
                        == b@,
                reduce.wf(),
                reduce.start() == dstart,
                dstart <= bds.index as int <= dstart + dseq.len(),
                inputs.len() == reduce.cols().len(),
                memos.len() == reduce.cols().len() + 1,
                memos[0] == Map::<usize, usize>::empty(),
                memos[reduce.cols().len() as int] == reduce.memo(),
                reduction_trace(reduce.cols(), memos, dstart, inputs),
                forall|j: int|
                    0 <= j < reduce.cols().len() ==> strictly_descending(#[trigger] inputs[j])
                        && inputs[j].to_set() == boundary_index_set(
                        tseq,
                        tstart,
                        window_below(tseq, tstart, dstart + j),
                        dseq[j]@,
                    ),
                forall|j: int|
                    0 <= j < reduce.cols().len() ==> all_faces_resolve(
                        tseq,
                        window_below(tseq, tstart, dstart + j),
                        (#[trigger] dseq[j])@,
                    ),
            ensures
                reduce.wf(),
                reduce.start() == dstart,
                !failed ==> reduce.cols().len() == dseq.len(),
                !failed ==> inputs.len() == dseq.len(),
                !failed ==> memos[reduce.cols().len() as int] == reduce.memo(),
                !failed ==> reduction_trace(reduce.cols(), memos, dstart, inputs),
                !failed ==> forall|j: int|
                    0 <= j < dseq.len() ==> strictly_descending(#[trigger] inputs[j])
                        && inputs[j].to_set() == boundary_index_set(
                        tseq,
                        tstart,
                        window_below(tseq, tstart, dstart + j),
                        dseq[j]@,
                    ),
                !failed ==> forall|j: int|
                    0 <= j < dseq.len() ==> all_faces_resolve(
                        tseq,
                        window_below(tseq, tstart, dstart + j),
                        (#[trigger] dseq[j])@,
                    ),
                failed ==> exists|j: int|
                    0 <= j < dseq.len() && !all_faces_resolve(
                        tseq,
                        window_below(tseq, tstart, dstart + #[trigger] noop_int(j)),
                        dseq[j]@,
                    ),
            decreases dstart + dseq.len() - bds.index,
        {
            let ghost old_cols = reduce.cols();
            let ghost old_memo = reduce.memo();
            match bds.next() {
                None => {
                    break ;
                },
                Some(Err(_)) => {
                    proof {
                        let j = bds.index - 1 - dstart;
                        assert(noop_int(j) == j);
                        assert(!all_faces_resolve(
                            tseq,
                            window_below(tseq, tstart, dstart + j),
                            dseq[j]@,
                        ));
                    }
                    failed = true;
                    break ;
                },
                Some(Ok((index, image))) => {
                    let ghost j = reduce.cols().len() as int;
                    proof {
                        image.inv_descending();
                        assert forall|x: usize|
                            image@.contains(x) implies x < reduce.start()
                            + reduce.cols().len() by {
                            assert(image@.to_set().contains(x));
                        }
                    }
                    let v = f(index, image);
                    reduce.push(v);
                    proof {
                        let cols = reduce.cols();
                        let n = cols.len() as int;
                        assert(cols.take(n - 1) == old_cols);
                        inputs = inputs.push(image@);
                        assert(cols[n - 1].image() == reduce_spec(
                            old_cols,
                            old_memo,
                            dstart,
                            inputs[n - 1],
                        ));
                        memos = memos.push(reduce.memo());
                        assert forall|i: int| 0 <= i < n implies {
                            let img = (#[trigger] cols[i]).image();
                            &&& img == reduce_spec(cols.take(i), memos[i], dstart, inputs[i])
                            &&& memos[i + 1] == (if img.len() == 0 {
                                memos[i]
                            } else {
                                memos[i].insert(img[0], (dstart + i) as usize)
                            })
                        } by {
                            assert(cols.take(i) =~= old_cols.take(i));
                            if i < n - 1 {
                                assert(old_cols[i].image() == reduce_spec(
                                    old_cols.take(i),
                                    memos[i],
                                    dstart,
                                    inputs[i],
                                ));
                                assert(cols[i] == old_cols[i]);
                            } else {
                                assert(cols.take(i) =~= old_cols);
                            }
                        }
                        assert(reduction_trace(cols, memos, dstart, inputs));
                    }
                },
            }
        }
        if failed {
            return Err(ComplexError::ComplexIsNotFiltered);
        }
        proof {
            assert(exists|inputs2: Seq<Seq<usize>>, memos2: Seq<Map<usize, usize>>|
                {
                    &&& #[trigger] reduction_trace(reduce.cols(), memos2, dstart, inputs2)
                    &&& reduce.memo() == memos2[dseq.len() as int]
                    &&& forall|j: int|
                        0 <= j < dseq.len() ==> strictly_descending(#[trigger] inputs2[j])
                            && inputs2[j].to_set() == boundary_index_set(
                            tseq,
                            tstart,
                            window_below(tseq, tstart, dstart + j),
                            dseq[j]@,
                        )
                }) by {
                assert(reduction_trace(reduce.cols(), memos, dstart, inputs));
                assert(reduce.memo() == memos[dseq.len() as int]);
            }
        }
        Ok(reduce)
    }
}

/// The identity on `int`, used to shape a quantifier trigger.
pub open spec fn noop_int(j: int) -> int {
    j
}

impl Z2ColumnReduce<Z2VectorVec> {
    /// Builds a reducer by pushing the boundary column of every simplex of
    /// the complex, in filtration order; the reducer's start index is the
    /// complex's. Fails with the stream's first error.
    pub fn from_complex(complex: &Complex) -> (r: Result<
        Z2ColumnReduce<Z2VectorVec>,
        ComplexError,
    >)
        requires
            complex.cwf(),
        ensures
            ({
                let dseq = complex.basis.selems();
                let dstart = complex.basis.sstart();
                match r {
                    Ok(rd) => rd.wf() && rd.start() == dstart && rd.cols().len() == dseq.len() && (
                    forall|j: int|
                        0 <= j < dseq.len() ==> all_faces_resolve(
                            dseq,
                            window_below(dseq, dstart, dstart + j),
                            (#[trigger] dseq[j])@,
                        )) && exists|inputs: Seq<Seq<usize>>, memos: Seq<Map<usize, usize>>|
                        {
                            &&& #[trigger] reduction_trace(rd.cols(), memos, dstart, inputs)
                            &&& rd.memo() == memos[dseq.len() as int]
                            &&& forall|j: int|
                                0 <= j < dseq.len() ==> strictly_descending(#[trigger] inputs[j])
                                    && inputs[j].to_set() == boundary_index_set(
                                    dseq,
                                    dstart,
                                    window_below(dseq, dstart, dstart + j),
                                    dseq[j]@,
                                )
                        },
                    Err(e) => e == ComplexError::ComplexIsNotFiltered && exists|j: int|
                        0 <= j < dseq.len() && !all_faces_resolve(
                            dseq,
                            window_below(dseq, dstart, dstart + #[trigger] noop_int(j)),
                            dseq[j]@,
                        ),
                }
            }),
    {
        Z2ColumnReduce::from_stream(complex.boundaries(), keep_image)
    }

    /// As `from_complex_with` without wrapping, but resolving faces in the
    /// basis of `target` instead of the domain's own: for split-dimension
    /// complexes.
    pub fn from_complexes(domain: &Complex, target: &Complex) -> (r: Result<
        Z2ColumnReduce<Z2VectorVec>,
        ComplexError,
    >)
        requires
            domain.cwf(),
            target.cwf(),
        ensures
            ({
                let dseq = domain.basis.selems();
                let dstart = domain.basis.sstart();
                let tseq = target.basis.selems();
                let tstart = target.basis.sstart();
                match r {
                    Ok(rd) => rd.wf() && rd.start() == dstart && rd.cols().len() == dseq.len() && (
                    forall|j: int|
                        0 <= j < dseq.len() ==> all_faces_resolve(
                            tseq,
                            window_below(tseq, tstart, dstart + j),
                            (#[trigger] dseq[j])@,
                        )) && exists|inputs: Seq<Seq<usize>>, memos: Seq<Map<usize, usize>>|
                        {
                            &&& #[trigger] reduction_trace(rd.cols(), memos, dstart, inputs)
                            &&& rd.memo() == memos[dseq.len() as int]
                            &&& forall|j: int|
                                0 <= j < dseq.len() ==> strictly_descending(#[trigger] inputs[j])
                                    && inputs[j].to_set() == boundary_index_set(
                                    tseq,
                                    tstart,
                                    window_below(tseq, tstart, dstart + j),
                                    dseq[j]@,
                                )
                        },
                    Err(e) => e == ComplexError::ComplexIsNotFiltered && exists|j: int|
                        0 <= j < dseq.len() && !all_faces_resolve(
                            tseq,
                            window_below(tseq, tstart, dstart + #[trigger] noop_int(j)),
                            dseq[j]@,
                        ),
                }
            }),
    {
        Z2ColumnReduce::from_stream(domain.boundaries_from(target), keep_image)
    }
}

impl<V: Z2Vector> Z2ColumnReduce<V> {
    /// Builds a reducer by pushing the boundary column of every simplex of
    /// the complex, each wrapped through `f` before the push; `f` must hand
    /// back a column with the same image, as the chain-tracking wrapper does.
    pub fn from_complex_with<F: Fn(usize, Z2VectorVec) -> V>(complex: &Complex, f: F) -> (r: Result<
        Z2ColumnReduce<V>,
        ComplexError,
    >)
        requires
            complex.cwf(),
            forall|j: usize, b: Z2VectorVec| b.inv() ==> call_requires(f, (j, b)),
            forall|j: usize, b: Z2VectorVec, v: V|
                b.inv() && #[trigger] call_ensures(f, (j, b), v) ==> v.inv() && v.image() == b@,
        ensures
            ({
                let dseq = complex.basis.selems();
                let dstart = complex.basis.sstart();
                match r {
                    Ok(rd) => rd.wf() && rd.start() == dstart && rd.cols().len() == dseq.len() && (
                    forall|j: int|
                        0 <= j < dseq.len() ==> all_faces_resolve(
                            dseq,
                            window_below(dseq, dstart, dstart + j),
                            (#[trigger] dseq[j])@,
                        )) && exists|inputs: Seq<Seq<usize>>, memos: Seq<Map<usize, usize>>|
                        {
                            &&& #[trigger] reduction_trace(rd.cols(), memos, dstart, inputs)
                            &&& rd.memo() == memos[dseq.len() as int]
                            &&& forall|j: int|
                                0 <= j < dseq.len() ==> strictly_descending(#[trigger] inputs[j])
                                    && inputs[j].to_set() == boundary_index_set(
                                    dseq,
                                    dstart,
                                    window_below(dseq, dstart, dstart + j),
                                    dseq[j]@,
                                )
                        },
                    Err(e) => e == ComplexError::ComplexIsNotFiltered && exists|j: int|
                        0 <= j < dseq.len() && !all_faces_resolve(
                            dseq,
                            window_below(dseq, dstart, dstart + #[trigger] noop_int(j)),
                            dseq[j]@,
                        ),
                }
            }),
    {
        Z2ColumnReduce::from_stream(complex.boundaries(), f)
    }
}

/// Hands a boundary column to the reducer unchanged, for the untracked bulk
/// constructors.
fn keep_image(index: usize, image: Z2VectorVec) -> (v: Z2VectorVec)
    ensures
        v == image,
{
    image
}

/// The (logical index, column) pairs of the stored columns that are cycles,
/// in insertion order.
pub open spec fn cycle_entries<V: Z2Vector>(cols: Seq<V>, start: int) -> Seq<(usize, V)>
    decreases cols.len(),
{
    if cols.len() == 0 {
        Seq::empty()
    } else {
        let pre = cycle_entries(cols.drop_last(), start);
        if cols.last().image().len() == 0 {
            pre.push((((start + cols.len()) - 1) as usize, cols.last()))
        } else {
            pre
        }
    }
}

impl<V: Z2Vector> Z2ColumnReduce<V> {
    /// A cursor over the stored cycles, in insertion order.
    pub fn cycles(&self) -> (r: CyclesIter<'_, V>)
        requires
            self.wf(),
        ensures
            r.wf(),
            r.ivec.selems() == self.cols(),
            r.ivec.sstart() == self.start(),
            r.index == self.start(),
    {
        CyclesIter { ivec: &self.reduced, index: self.reduced.index_start() }
    }

    /// Consumes the reducer and collects its cycles, with their logical
    /// indices, in insertion order.
    pub fn into_cycles(self) -> (r: Cycles<V>)
        requires
            self.wf(),
        ensures
            r.entries() == cycle_entries(self.cols(), self.start()),
    {
        let ghost cols = self.cols();
        let ghost start = self.start();
        let n = self.reduced.len();
        proof {
            self.reduced.inv_bound();
        }
        let mut it = self.reduced.into_iter();
        let mut cycles: Vec<(usize, V)> = Vec::new();
        let mut k: usize = 0;
        while k < n
            invariant
                k <= n,
                n == cols.len(),
                0 <= start,
                start + n <= usize::MAX,
                forall|p: int| 0 <= p < cols.len() ==> (#[trigger] cols[p]).inv(),
                it.remaining() == cols.skip(k as int),
                it.index() == start + k,
                it.inv(),
                cycles@ == cycle_entries(cols.take(k as int), start),
            decreases n - k,
        {
            let ghost pre = cols.take(k as int);
            match it.next() {
                Some((index, chain)) => {
                    proof {
                        assert(cols.skip(k as int)[0] == cols[k as int]);
                        assert(cols.skip(k as int).skip(1) =~= cols.skip(k + 1));
                        assert(cols.take(k + 1).drop_last() =~= pre);
                        assert(cols.take(k + 1).last() == cols[k as int]);
                    }
                    if chain.is_cycle() {
                        cycles.push((index, chain));
                    }
                },
                None => {
                    proof {
                        assert(false);
                    }
                },
            }
            k += 1;
        }
        proof {
            assert(cols.take(n as int) =~= cols);
        }
        Cycles { cycles }
    }

    /// Consumes the reducer and collects the logical indices of its cycles,
    /// in insertion order.
    pub fn into_cycle_positions(self) -> (r: CyclePositions)
        requires
            self.wf(),
        ensures
            ({
                let ce = cycle_entries(self.cols(), self.start());
                r.positions@.len() == ce.len() && forall|k: int|
                    0 <= k < ce.len() ==> r.positions@[k] == (#[trigger] ce[k]).0
            }),
    {
        let cycles = self.into_cycles();
        let ghost ce = cycles.entries();
        let mut positions: Vec<usize> = Vec::new();
        let mut k: usize = 0;
        while k < cycles.cycles.len()
            invariant
                k <= cycles.cycles.len(),
                cycles.entries() == ce,
                positions@.len() == k,
                forall|i: int| 0 <= i < k ==> positions@[i] == (#[trigger] ce[i]).0,
            decreases cycles.cycles.len() - k,
        {
            positions.push(cycles.cycles[k].0);
            k += 1;
        }
        CyclePositions { positions }
    }
}

/// A borrowing cursor over the stored cycles of a reducer.
pub struct CyclesIter<'a, V> {
    /// The stored reduced columns.
    pub ivec: &'a IndexedVec<V>,
    /// The next logical index to inspect.
    pub index: usize,
}

impl<'a, V: Z2Vector> CyclesIter<'a, V> {
    /// Validity of the cursor.
    pub open spec fn wf(&self) -> bool {
        self.ivec.inv() && self.ivec.sstart() <= self.index && (forall|p: int|
            0 <= p < self.ivec.selems().len() ==> (#[trigger] self.ivec.selems()[p]).inv())
    }

    /// Yields the next stored cycle with its logical index, skipping the
    /// columns that are not cycles.
    pub fn next(&mut self) -> (r: Option<(usize, &'a V)>)
        requires
            old(self).wf(),
        ensures
            final(self).wf(),
            final(self).ivec == old(self).ivec,
            ({
                let cols = old(self).ivec.selems();
                let start = old(self).ivec.sstart();
                let end = start + cols.len();
                match r {
                    Some(p) => {
                        &&& old(self).index <= p.0 < end
                        &&& cols[p.0 - start].image().len() == 0
                        &&& *p.1 == cols[p.0 - start]
                        &&& forall|k: int|
                            old(self).index <= k < p.0 ==> (#[trigger] cols[k - start]).image().len()
                                != 0
                        &&& final(self).index == p.0 + 1
                    },
                    None => (forall|k: int|
                        old(self).index <= k < end ==> (#[trigger] cols[k - start]).image().len()
                            != 0) && final(self).index >= end,
                }
            }),
    {
        proof {
            self.ivec.inv_bound();
        }
        loop
            invariant
                self.wf(),
                self.ivec == old(self).ivec,
                old(self).index <= self.index,
                self.ivec.sstart() + self.ivec.selems().len() <= usize::MAX,
                forall|k: int|
                    old(self).index <= k < self.index ==> (#[trigger] self.ivec.selems()[k
                        - self.ivec.sstart()]).image().len() != 0,
            ensures
                self.wf(),
                self.ivec == old(self).ivec,
                old(self).index <= self.index,
                forall|k: int|
                    old(self).index <= k < self.index ==> (#[trigger] self.ivec.selems()[k
                        - self.ivec.sstart()]).image().len() != 0,
                self.index >= self.ivec.sstart() + self.ivec.selems().len() || self.ivec.selems()[
                    self.index - self.ivec.sstart()].image().len() == 0,
            decreases self.ivec.sstart() + self.ivec.selems().len() - self.index,
        {
            if self.index >= self.ivec.index_start() + self.ivec.len() {
                break ;
            }
            match self.ivec.get(self.index) {
                Some(chain) => {
                    if chain.is_cycle() {
                        break ;
                    }
                },
                None => {
                    proof {
                        assert(false);
                    }
                },
            }
            self.index += 1;
        }
        if self.index < self.ivec.index_start() + self.ivec.len() {
            match self.ivec.get(self.index) {
                Some(chain) => {
                    let pair = (self.index, chain);
                    self.index += 1;
                    Some(pair)
                },
                None => {
                    proof {
                        assert(false);
                    }
                    None
                },
            }
        } else {
            None
        }
    }

    /// Collects the remaining cycles into a vector of (index, column) pairs.
    pub fn to_vec(self) -> (r: Vec<(usize, &'a V)>)
        requires
            self.wf(),
            self.index == self.ivec.sstart(),
        ensures
            ({
                let ce = cycle_entries(self.ivec.selems(), self.ivec.sstart());
                r@.len() == ce.len() && forall|k: int|
                    0 <= k < ce.len() ==> r@[k].0 == (#[trigger] ce[k]).0 && *r@[k].1 == ce[k].1
            }),
    {
        let ghost cols = self.ivec.selems();
        let ghost start = self.ivec.sstart();
        let mut it = self;
        let mut out: Vec<(usize, &'a V)> = Vec::new();
        proof {
            it.ivec.inv_bound();
            assert(cycle_entries(cols.take(0), start) =~= Seq::<(usize, V)>::empty());
        }
        loop
            invariant_except_break
                start <= it.index <= start + cols.len(),
                ({
                    let ce = cycle_entries(cols.take(it.index - start), start);
                    out@.len() == ce.len() && forall|k: int|
                        0 <= k < ce.len() ==> out@[k].0 == (#[trigger] ce[k]).0 && *out@[k].1
                            == ce[k].1
                }),
            invariant
                it.wf(),
                it.ivec.selems() == cols,
                it.ivec.sstart() == start,
            ensures
                ({
                    let ce = cycle_entries(cols, start);
                    out@.len() == ce.len() && forall|k: int|
                        0 <= k < ce.len() ==> out@[k].0 == (#[trigger] ce[k]).0 && *out@[k].1
                            == ce[k].1
                }),
            decreases start + cols.len() - it.index,
        {
            let ghost pre_index = it.index as int;
            match it.next() {
                Some((index, chain)) => {
                    proof {
                        assert forall|k: int|
                            pre_index - start <= k < index - start implies (
                        #[trigger] cols[k]).image().len() != 0 by {
                            assert(cols[(k + start) - start].image().len() != 0);
                        }
                        lemma_cycle_entries_stable(cols, start, pre_index - start, index - start);
                        assert(cols.take(index - start + 1).drop_last() =~= cols.take(
                            index - start,
                        ));
                        assert(cols.take(index - start + 1).last() == cols[index - start]);
                    }
                    out.push((index, chain));
                },
                None => {
                    proof {
                        assert forall|k: int|
                            pre_index - start <= k < cols.len() implies (
                        #[trigger] cols[k]).image().len() != 0 by {
                            assert(cols[(k + start) - start].image().len() != 0);
                        }
                        lemma_cycle_entries_stable(
                            cols,
                            start,
                            pre_index - start,
                            cols.len() as int,
                        );
                        assert(cols.take(cols.len() as int) =~= cols);
                    }
                    break ;
                },
            }
        }
        out
    }
}

/// Skipping stored columns that are not cycles leaves the collected cycle
/// list unchanged.
proof fn lemma_cycle_entries_stable<V: Z2Vector>(cols: Seq<V>, start: int, a: int, b: int)
    requires
        0 <= a <= b <= cols.len(),
        forall|k: int| a <= k < b ==> (#[trigger] cols[k]).image().len() != 0,
    ensures
        cycle_entries(cols.take(b), start) == cycle_entries(cols.take(a), start),
    decreases b - a,
{
    if a < b {
        lemma_cycle_entries_stable(cols, start, a, b - 1);
        assert(cols.take(b).drop_last() =~= cols.take(b - 1));
        assert(cols.take(b).last() == cols[b - 1]);
    }
}

/// An owned list of the cycles of a consumed reducer.
pub struct Cycles<V> {
    /// The (logical index, column) pairs, in insertion order.
    pub cycles: Vec<(usize, V)>,
}

impl<V> Cycles<V> {
    /// The stored (index, cycle) pairs.
    pub open spec fn entries(&self) -> Seq<(usize, V)> {
        self.cycles@
    }

    /// The (index, cycle) pairs, borrowing each cycle.
    pub fn iter(&self) -> (r: Vec<(usize, &V)>)
        ensures
            r@.len() == self.entries().len(),
            forall|k: int|
                0 <= k < r@.len() ==> r@[k].0 == (#[trigger] self.entries()[k]).0 && *r@[k].1
                    == self.entries()[k].1,
    {
        let mut out: Vec<(usize, &V)> = Vec::new();
        let mut k: usize = 0;
        while k < self.cycles.len()
            invariant
                k <= self.cycles.len(),
                out@.len() == k,
                forall|i: int|
                    0 <= i < k ==> out@[i].0 == (#[trigger] self.entries()[i]).0 && *out@[i].1
                        == self.entries()[i].1,
            decreases self.cycles.len() - k,
        {
            let pair = &self.cycles[k];
            out.push((pair.0, &pair.1));
            k += 1;
        }
        out
    }
}

/// An owned list of the logical indices of the cycles of a consumed reducer.
pub struct CyclePositions {
    /// The indices, in insertion order.
    pub positions: Vec<usize>,
}

impl CyclePositions {
    /// The positions paired with a unit payload, ready for pairing.
    pub fn iter(&self) -> (r: Vec<(usize, ())>)
        ensures
            r@.len() == self.positions@.len(),
            forall|k: int| 0 <= k < r@.len() ==> r@[k].0 == #[trigger] self.positions@[k],
    {
        let mut out: Vec<(usize, ())> = Vec::new();
        let mut k: usize = 0;
        while k < self.positions.len()
            invariant
                k <= self.positions.len(),
                out@.len() == k,
                forall|i: int| 0 <= i < k ==> out@[i].0 == #[trigger] self.positions@[i],
            decreases self.positions.len() - k,
        {
            out.push((self.positions[k], ()));
            k += 1;
        }
        out
    }
}

/// A cursor that pairs each cycle, by its birth index, with the storage
/// position of the column that kills it, if any: the reducer's memo is the
/// oracle, and a birth with no killer is an essential class.
pub struct Z2Pair<'a, B, C> {
    /// The reducer queried for killers.
    pub reduce: &'a B,
    /// The (birth index, cycle) pairs still to pair.
    pub cycles: Vec<(usize, C)>,
    /// The next position in `cycles`.
    pub pos: usize,
}

impl<'a, B: LookupByLowest, C: Copy> Z2Pair<'a, B, C> {
    /// The remaining (birth index, cycle) pairs.
    pub open spec fn items(&self) -> Seq<(usize, C)> {
        self.cycles@
    }

    /// Starts pairing the given cycles against the reducer `reduce`.
    pub fn new(reduce: &'a B, cycles: Vec<(usize, C)>) -> (r: Z2Pair<'a, B, C>)
        ensures
            r.reduce == reduce,
            r.items() == cycles@,
            r.pos == 0,
    {
        Z2Pair { reduce, cycles, pos: 0 }
    }

    /// Yields the persistence pair of the next cycle: its birth index,
    /// together with the storage position of the unique reduced column whose
    /// pivot is that index — `None` when the class is essential.
    pub fn next(&mut self) -> (r: Option<(Persistence<usize>, C)>)
        ensures
            final(self).reduce == old(self).reduce,
            final(self).items() == old(self).items(),
            ({
                let items = old(self).items();
                let memo = old(self).reduce.memo();
                match r {
                    Some(p) => {
                        &&& old(self).pos < items.len()
                        &&& final(self).pos == old(self).pos + 1
                        &&& p.0.0 == items[old(self).pos as int].0
                        &&& p.0.1 == (if memo.dom().contains(items[old(self).pos as int].0) {
                            Some(memo[items[old(self).pos as int].0])
                        } else {
                            None::<usize>
                        })
                        &&& p.1 == items[old(self).pos as int].1
                    },
                    None => old(self).pos >= items.len() && final(self).pos == old(self).pos,
                }
            }),
    {
        if self.pos < self.cycles.len() {
            let (index, cycle) = self.cycles[self.pos];
            let boundary_pos = self.reduce.lookup_by_lowest(index);
            self.pos += 1;
            Some((Persistence(index, boundary_pos), cycle))
        } else {
            None
        }
    }
}

/// Every stored column is a cycle, or its pivot is held by no other stored
/// column.
pub proof fn lemma_pivot_unique<V: Z2Vector>(
    cols: Seq<V>,
    memo: Map<usize, usize>,
    start: int,
    p1: int,
    p2: int,
)
    requires
        reducer_inv(cols, memo, start),
        0 <= p1 < cols.len(),
        0 <= p2 < cols.len(),
        cols[p1].image().len() > 0,
        cols[p2].image().len() > 0,
        cols[p1].image()[0] == cols[p2].image()[0],
    ensures
        p1 == p2,
{
    assert(memo[cols[p1].image()[0]] == start + p1);
    assert(memo[cols[p2].image()[0]] == start + p2);
}

/// The memo's key set is exactly the set of pivots of the stored columns that
/// are not cycles.
pub proof fn lemma_memo_keys<V: Z2Vector>(cols: Seq<V>, memo: Map<usize, usize>, start: int)
    requires
        reducer_inv(cols, memo, start),
    ensures
        forall|l: usize| #[trigger]
            memo.dom().contains(l) <==> exists|p: int|
                0 <= p < cols.len() && (#[trigger] cols[p]).image().len() > 0 && cols[p].image()[0]
                    == l,
{
    assert forall|l: usize| #[trigger] memo.dom().contains(l) implies exists|p: int|
        0 <= p < cols.len() && (#[trigger] cols[p]).image().len() > 0 && cols[p].image()[0]
            == l by {
        let p = memo[l] - start;
        assert(0 <= p < cols.len() && cols[p].image().len() > 0 && cols[p].image()[0] == l);
    }
}

/// Every memo entry (l, j) points at a stored column whose pivot is exactly
/// l, and the death index j lies strictly after the birth index l.
pub proof fn lemma_memo_entry<V: Z2Vector>(
    cols: Seq<V>,
    memo: Map<usize, usize>,
    start: int,
    l: usize,
)
    requires
        reducer_inv(cols, memo, start),
        memo.dom().contains(l),
    ensures
        start <= memo[l] < start + cols.len(),
        z2_lowest(cols[memo[l] - start].image()) == Some(l),
        l < memo[l],
{
    let p = memo[l] - start;
    assert(cols[p].image().contains(cols[p].image()[0]));
    assert(l < start + p);
}

/// Two distinct births are never killed by the same column: the memo is
/// injective.
pub proof fn lemma_unique_killer<V: Z2Vector>(
    cols: Seq<V>,
    memo: Map<usize, usize>,
    start: int,
    l1: usize,
    l2: usize,
)
    requires
        reducer_inv(cols, memo, start),
        memo.dom().contains(l1),
        memo.dom().contains(l2),
        memo[l1] == memo[l2],
    ensures
        l1 == l2,
{
    assert(cols[memo[l1] - start].image()[0] == l1);
    assert(cols[memo[l2] - start].image()[0] == l2);
}

} // verus!
