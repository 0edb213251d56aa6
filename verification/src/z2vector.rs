use vstd::prelude::*;

verus! {

/// A sequence of column indices sorted strictly descending: the canonical
/// representation of a sparse column over the two-element field.
pub open spec fn strictly_descending(s: Seq<usize>) -> bool {
    forall|i: int, j: int| 0 <= i < j < s.len() ==> s[i] > s[j]
}

/// The symmetric difference of two descending index sequences, as computed by
/// a linear merge. Indices present in both sequences cancel.
pub open spec fn z2_add(a: Seq<usize>, b: Seq<usize>) -> Seq<usize>
    decreases a.len() + b.len(),
{
    if a.len() == 0 {
        b
    } else if b.len() == 0 {
        a
    } else if a[0] == b[0] {
        z2_add(a.skip(1), b.skip(1))
    } else if a[0] > b[0] {
        seq![a[0]] + z2_add(a.skip(1), b)
    } else {
        seq![b[0]] + z2_add(a, b.skip(1))
    }
}

/// The pivot of a column: its first (largest) index, or `None` for the empty
/// column.
pub open spec fn z2_lowest(s: Seq<usize>) -> Option<usize> {
    if s.len() == 0 {
        None
    } else {
        Some(s[0])
    }
}

/// In a strictly descending column the head bounds every element, so the
/// pivot of a nonempty column is its maximum index.
pub proof fn lemma_lowest_is_max(s: Seq<usize>)
    requires
        strictly_descending(s),
        s.len() > 0,
    ensures
        z2_lowest(s) == Some(s[0]),
        forall|x: usize| s.contains(x) ==> x <= s[0],
{
    assert forall|x: usize| s.contains(x) implies x <= s[0] by {
        let i = choose|i: int| 0 <= i < s.len() && s[i] == x;
        if i > 0 {
            assert(s[0] > s[i]);
        }
    }
}

proof fn lemma_cons_contains(h: usize, r: Seq<usize>)
    ensures
        forall|x: usize| (seq![h] + r).contains(x) <==> x == h || r.contains(x),
{
    let c = seq![h] + r;
    assert forall|x: usize| c.contains(x) implies x == h || r.contains(x) by {
        let i = choose|i: int| 0 <= i < c.len() && c[i] == x;
        if i > 0 {
            assert(r[i - 1] == x);
        }
    }
    assert forall|x: usize| x == h || r.contains(x) implies c.contains(x) by {
        if x == h {
            assert(c[0] == x);
        } else {
            let i = choose|i: int| 0 <= i < r.len() && r[i] == x;
            assert(c[i + 1] == x);
        }
    }
}

proof fn lemma_tail_of_descending(a: Seq<usize>)
    requires
        strictly_descending(a),
        a.len() > 0,
    ensures
        strictly_descending(a.skip(1)),
        forall|x: usize| a.skip(1).contains(x) ==> x < a[0],
        forall|x: usize| a.contains(x) <==> x == a[0] || a.skip(1).contains(x),
{
    let t = a.skip(1);
    assert forall|x: usize| t.contains(x) implies x < a[0] by {
        let i = choose|i: int| 0 <= i < t.len() && t[i] == x;
        assert(a[i + 1] == x);
    }
    assert forall|x: usize| a.contains(x) implies x == a[0] || t.contains(x) by {
        let i = choose|i: int| 0 <= i < a.len() && a[i] == x;
        if i > 0 {
            assert(t[i - 1] == x);
        }
    }
    assert forall|x: usize| x == a[0] || t.contains(x) implies a.contains(x) by {
        if x == a[0] {
            assert(a[0] == x);
        } else {
            let i = choose|i: int| 0 <= i < t.len() && t[i] == x;
            assert(a[i + 1] == x);
        }
    }
}

proof fn lemma_cons_descending(h: usize, r: Seq<usize>)
    requires
        strictly_descending(r),
        forall|x: usize| r.contains(x) ==> x < h,
    ensures
        strictly_descending(seq![h] + r),
{
    let c = seq![h] + r;
    assert forall|i: int, j: int| 0 <= i < j < c.len() implies c[i] > c[j] by {
        if i == 0 {
            assert(r.contains(r[j - 1]));
        } else {
            assert(r[i - 1] > r[j - 1]);
        }
    }
}

/// Adding two valid columns yields a valid column whose members are exactly
/// the indices in one input but not the other: addition is symmetric
/// difference, and the strictly descending invariant is preserved.
pub proof fn lemma_z2_add_elements(a: Seq<usize>, b: Seq<usize>)
    requires
        strictly_descending(a),
        strictly_descending(b),
    ensures
        strictly_descending(z2_add(a, b)),
        forall|x: usize| z2_add(a, b).contains(x) <==> (a.contains(x) != b.contains(x)),
    decreases a.len() + b.len(),
{
    let c = z2_add(a, b);
    if a.len() == 0 {
        assert(forall|x: usize| !a.contains(x));
    } else if b.len() == 0 {
        assert(forall|x: usize| !b.contains(x));
    } else if a[0] == b[0] {
        lemma_tail_of_descending(a);
        lemma_tail_of_descending(b);
        lemma_z2_add_elements(a.skip(1), b.skip(1));
        assert forall|x: usize| c.contains(x) <==> (a.contains(x) != b.contains(x)) by {
            if x == a[0] {
                assert(!a.skip(1).contains(x));
                assert(!b.skip(1).contains(x));
                assert(a.contains(x) && b.contains(x));
            }
        }
    } else if a[0] > b[0] {
        lemma_tail_of_descending(a);
        lemma_z2_add_elements(a.skip(1), b);
        let r = z2_add(a.skip(1), b);
        assert forall|x: usize| r.contains(x) implies x < a[0] by {
            if b.contains(x) {
                lemma_lowest_is_max(b);
            }
        }
        lemma_cons_descending(a[0], r);
        lemma_cons_contains(a[0], r);
        assert forall|x: usize| c.contains(x) <==> (a.contains(x) != b.contains(x)) by {
            if b.contains(x) {
                lemma_lowest_is_max(b);
            }
        }
    } else {
        lemma_tail_of_descending(b);
        lemma_z2_add_elements(a, b.skip(1));
        let r = z2_add(a, b.skip(1));
        assert forall|x: usize| r.contains(x) implies x < b[0] by {
            if a.contains(x) {
                lemma_lowest_is_max(a);
            }
        }
        lemma_cons_descending(b[0], r);
        lemma_cons_contains(b[0], r);
        assert forall|x: usize| c.contains(x) <==> (a.contains(x) != b.contains(x)) by {
            if a.contains(x) {
                lemma_lowest_is_max(a);
            }
        }
    }
}

/// Column addition is commutative.
pub proof fn lemma_z2_add_comm(a: Seq<usize>, b: Seq<usize>)
    ensures
        z2_add(a, b) == z2_add(b, a),
    decreases a.len() + b.len(),
{
    if a.len() == 0 || b.len() == 0 {
        assert(z2_add(a, b) =~= z2_add(b, a));
    } else if a[0] == b[0] {
        lemma_z2_add_comm(a.skip(1), b.skip(1));
    } else if a[0] > b[0] {
        lemma_z2_add_comm(a.skip(1), b);
    } else {
        lemma_z2_add_comm(a, b.skip(1));
    }
}

/// Adding a column to itself cancels every index: the result is empty.
pub proof fn lemma_z2_add_self(a: Seq<usize>)
    ensures
        z2_add(a, a) == Seq::<usize>::empty(),
    decreases a.len(),
{
    if a.len() == 0 {
        assert(z2_add(a, a) =~= Seq::<usize>::empty());
    } else {
        lemma_z2_add_self(a.skip(1));
    }
}

/// Adding the empty column is the identity.
pub proof fn lemma_z2_add_empty(a: Seq<usize>)
    ensures
        z2_add(a, Seq::<usize>::empty()) == a,
        z2_add(Seq::<usize>::empty(), a) == a,
{
    if a.len() == 0 {
        assert(z2_add(a, Seq::<usize>::empty()) =~= a);
    }
}

/// The sum of a list of columns, added left to right.
pub open spec fn z2_add_all(cols: Seq<Seq<usize>>) -> Seq<usize>
    decreases cols.len(),
{
    if cols.len() == 0 {
        Seq::empty()
    } else {
        z2_add(z2_add_all(cols.drop_last()), cols.last())
    }
}

/// In how many of the columns an index occurs.
pub open spec fn occurrence_count(cols: Seq<Seq<usize>>, x: usize) -> int
    decreases cols.len(),
{
    if cols.len() == 0 {
        0
    } else {
        occurrence_count(cols.drop_last(), x) + (if cols.last().contains(x) {
            1int
        } else {
            0int
        })
    }
}

/// The sum of a list of valid columns holds exactly the indices that occur in
/// an odd number of them.
pub proof fn lemma_z2_add_all_parity(cols: Seq<Seq<usize>>)
    requires
        forall|k: int| 0 <= k < cols.len() ==> strictly_descending(#[trigger] cols[k]),
    ensures
        strictly_descending(z2_add_all(cols)),
        forall|x: usize|
            z2_add_all(cols).contains(x) <==> occurrence_count(cols, x) % 2 == 1,
        forall|x: usize| occurrence_count(cols, x) >= 0,
    decreases cols.len(),
{
    if cols.len() == 0 {
        assert(forall|x: usize| !z2_add_all(cols).contains(x));
    } else {
        let pre = cols.drop_last();
        assert(forall|k: int| 0 <= k < pre.len() ==> strictly_descending(#[trigger] pre[k])) by {
            assert(forall|k: int| 0 <= k < pre.len() ==> pre[k] == cols[k]);
        }
        lemma_z2_add_all_parity(pre);
        assert(strictly_descending(cols.last()));
        lemma_z2_add_elements(z2_add_all(pre), cols.last());
    }
}

/// A strictly descending sequence is determined by comparing each element to
/// its successor.
proof fn lemma_adjacent_gt(s: Seq<usize>, i: int, j: int)
    requires
        forall|k: int| 0 <= k < s.len() - 1 ==> #[trigger] s[k] > s[k + 1],
        0 <= i < j < s.len(),
    ensures
        s[i] > s[j],
    decreases j - i,
{
    if i + 1 < j {
        lemma_adjacent_gt(s, i + 1, j);
    }
}

/// Adding a column with an equal pivot strictly lowers the pivot (or empties
/// the column): the cancellation step of the reduction always makes progress.
pub proof fn lemma_z2_add_same_lowest(a: Seq<usize>, b: Seq<usize>)
    requires
        strictly_descending(a),
        strictly_descending(b),
        a.len() > 0,
        b.len() > 0,
        a[0] == b[0],
    ensures
        strictly_descending(z2_add(a, b)),
        z2_add(a, b).len() == 0 || z2_add(a, b)[0] < a[0],
{
    lemma_z2_add_elements(a, b);
    let c = z2_add(a, b);
    if c.len() > 0 {
        assert(c.contains(c[0]));
        lemma_lowest_is_max(a);
        lemma_lowest_is_max(b);
        assert(a.contains(a[0]));
        assert(b.contains(b[0]));
        assert(a.contains(c[0]) != b.contains(c[0]));
        assert(c[0] != a[0]);
        assert(c[0] <= a[0]);
    }
}

/// The operations the column reducer needs of a sparse column over the
/// two-element field.
pub trait Z2Vector: Sized {
    /// The working boundary column, as its strictly descending index sequence.
    spec fn image(&self) -> Seq<usize>;

    /// Validity of the representation.
    spec fn inv(&self) -> bool;

    /// A valid column's image is strictly descending.
    proof fn inv_descending(&self)
        requires
            self.inv(),
        ensures
            strictly_descending(self.image());

    /// The pivot: the largest index of the column, or `None` if it is empty.
    fn lowest(&self) -> (r: Option<usize>)
        requires
            self.inv(),
        ensures
            r == z2_lowest(self.image()),
    ;

    /// A column is a cycle exactly when it is empty.
    fn is_cycle(&self) -> (r: bool)
        requires
            self.inv(),
        ensures
            r == (self.image().len() == 0),
    ;

    /// Replaces the column by its sum with `other` (symmetric difference).
    fn add_assign(&mut self, other: &Self)
        requires
            old(self).inv(),
            other.inv(),
        ensures
            final(self).inv(),
            final(self).image() == z2_add(old(self).image(), other.image()),
    ;
}

/// A sparse column over the two-element field, stored as the vector of its
/// nonzero indices in strictly descending order.
#[derive(Debug, Clone)]
pub struct Z2VectorVec {
    vec: Vec<usize>,
}

impl View for Z2VectorVec {
    type V = Seq<usize>;

    closed spec fn view(&self) -> Seq<usize> {
        self.vec@
    }
}

impl Z2VectorVec {
    /// The empty column.
    pub fn new() -> (r: Z2VectorVec)
        ensures
            r@ == Seq::<usize>::empty(),
            r.inv(),
    {
        Z2VectorVec { vec: Vec::new() }
    }

    /// Builds a column from a list of distinct indices, sorting it descending.
    pub fn from_vec(v: Vec<usize>) -> (r: Z2VectorVec)
        requires
            v@.no_duplicates(),
        ensures
            r.inv(),
            r@.to_set() == v@.to_set(),
    {
        let mut res: Vec<usize> = Vec::new();
        let mut k: usize = 0;
        while k < v.len()
            invariant
                k <= v.len(),
                v@.no_duplicates(),
                strictly_descending(res@),
                res@.to_set() == v@.take(k as int).to_set(),
            decreases v.len() - k,
        {
            let x = v[k];
            proof {
                if res@.to_set().contains(x) {
                    let i = choose|i: int| 0 <= i < k && v@[i] == x;
                    assert(v@[i] == v@[k as int]);
                    assert(false);
                }
            }
            let mut pos: usize = 0;
            while pos < res.len() && res[pos] > x
                invariant
                    pos <= res.len(),
                    forall|i: int| 0 <= i < pos ==> res@[i] > x,
                decreases res.len() - pos,
            {
                pos += 1;
            }
            proof {
                if pos < res.len() {
                    assert(res@.contains(res@[pos as int]));
                    assert(res@[pos as int] < x);
                }
            }
            let ghost old_res = res@;
            res.insert(pos, x);
            proof {
                let n = res@;
                assert forall|i: int, j: int| 0 <= i < j < n.len() implies n[i] > n[j] by {
                    assert(n == old_res.insert(pos as int, x));
                }
                assert(strictly_descending(res@));
                assert(res@.to_set() =~= old_res.to_set().insert(x)) by {
                    assert forall|y: usize| res@.to_set().contains(y) implies old_res.to_set().contains(y)
                        || y == x by {
                        let i = choose|i: int| 0 <= i < res@.len() && res@[i] == y;
                        if i < pos {
                            assert(old_res[i] == y);
                        } else if i > pos {
                            assert(old_res[i - 1] == y);
                        }
                    }
                    assert forall|y: usize| old_res.to_set().contains(y) implies res@.to_set().contains(
                        y,
                    ) by {
                        let i = choose|i: int| 0 <= i < old_res.len() && old_res[i] == y;
                        if i < pos {
                            assert(res@[i] == y);
                        } else {
                            assert(res@[i + 1] == y);
                        }
                    }
                    assert(res@[pos as int] == x);
                    assert(res@.to_set().contains(x));
                }
                assert(v@.take(k + 1) =~= v@.take(k as int).push(x));
                v@.take(k as int).lemma_push_to_set_commute(x);
            }
            k += 1;
        }
        proof {
            assert(v@.take(v@.len() as int) =~= v@);
        }
        Z2VectorVec { vec: res }
    }

    /// Whether the stored indices are strictly descending.
    pub fn is_valid(&self) -> (r: bool)
        ensures
            r == strictly_descending(self@),
    {
        let mut i: usize = 0;
        if self.vec.len() == 0 {
            return true;
        }
        while i + 1 < self.vec.len()
            invariant
                i < self.vec.len(),
                forall|k: int| 0 <= k < i ==> #[trigger] self.vec@[k] > self.vec@[k + 1],
            decreases self.vec.len() - i,
        {
            if self.vec[i] <= self.vec[i + 1] {
                return false;
            }
            i += 1;
        }
        proof {
            assert forall|p: int, q: int| 0 <= p < q < self@.len() implies self@[p] > self@[q] by {
                lemma_adjacent_gt(self@, p, q);
            }
        }
        true
    }

    /// The stored indices, descending; what a consumer reads off a
    /// representative column.
    pub fn elements(&self) -> (r: &Vec<usize>)
        ensures
            r@ == self@,
    {
        &self.vec
    }

    /// The singleton column holding one index.
    pub fn singleton(index: usize) -> (r: Z2VectorVec)
        ensures
            r.inv(),
            r@ == seq![index],
    {
        let mut v: Vec<usize> = Vec::new();
        v.push(index);
        Z2VectorVec { vec: v }
    }
}

impl Z2Vector for Z2VectorVec {
    open spec fn image(&self) -> Seq<usize> {
        self@
    }

    open spec fn inv(&self) -> bool {
        strictly_descending(self@)
    }

    proof fn inv_descending(&self) {
    }

    fn lowest(&self) -> (r: Option<usize>) {
        if self.vec.len() == 0 {
            None
        } else {
            Some(self.vec[0])
        }
    }

    fn is_cycle(&self) -> (r: bool) {
        self.vec.len() == 0
    }

    fn add_assign(&mut self, other: &Z2VectorVec) {
        let ghost a = self@;
        let ghost b = other@;
        let mut result: Vec<usize> = Vec::new();
        let mut i: usize = 0;
        let mut j: usize = 0;
        proof {
            assert(a.skip(0) =~= a);
            assert(b.skip(0) =~= b);
            assert(Seq::<usize>::empty() + z2_add(a, b) =~= z2_add(a, b));
        }
        while i < self.vec.len() || j < other.vec.len()
            invariant
                i <= self.vec.len(),
                j <= other.vec.len(),
                self@ == a,
                other@ == b,
                strictly_descending(a),
                strictly_descending(b),
                z2_add(a, b) == result@ + z2_add(a.skip(i as int), b.skip(j as int)),
            decreases self.vec.len() - i + other.vec.len() - j,
        {
            let ghost ra = a.skip(i as int);
            let ghost rb = b.skip(j as int);
            if i < self.vec.len() && j < other.vec.len() {
                let x = self.vec[i];
                let y = other.vec[j];
                proof {
                    assert(ra[0] == a[i as int]);
                    assert(rb[0] == b[j as int]);
                    assert(ra.skip(1) =~= a.skip(i + 1));
                    assert(rb.skip(1) =~= b.skip(j + 1));
                }
                if x == y {
                    i += 1;
                    j += 1;
                } else if x > y {
                    result.push(x);
                    proof {
                        assert(z2_add(ra, rb) == seq![x] + z2_add(a.skip(i + 1), rb));
                        assert(result@ + z2_add(a.skip(i + 1), rb) =~= z2_add(a, b));
                    }
                    i += 1;
                } else {
                    result.push(y);
                    proof {
                        assert(z2_add(ra, rb) == seq![y] + z2_add(ra, b.skip(j + 1)));
                        assert(result@ + z2_add(ra, b.skip(j + 1)) =~= z2_add(a, b));
                    }
                    j += 1;
                }
            } else if i < self.vec.len() {
                let x = self.vec[i];
                result.push(x);
                proof {
                    assert(rb =~= Seq::<usize>::empty());
                    assert(ra[0] == a[i as int]);
                    assert(z2_add(ra, rb) == ra);
                    assert(ra =~= seq![x] + a.skip(i + 1));
                    assert(a.skip(i + 1).skip(0) =~= a.skip(i + 1));
                    lemma_z2_add_empty(a.skip(i + 1));
                    assert(z2_add(a.skip(i + 1), rb) == a.skip(i + 1));
                    assert(result@ + z2_add(a.skip(i + 1), rb) =~= z2_add(a, b));
                }
                i += 1;
            } else {
                let y = other.vec[j];
                result.push(y);
                proof {
                    assert(ra =~= Seq::<usize>::empty());
                    assert(rb[0] == b[j as int]);
                    assert(z2_add(ra, rb) == rb);
                    assert(rb =~= seq![y] + b.skip(j + 1));
                    lemma_z2_add_empty(b.skip(j + 1));
                    assert(z2_add(ra, b.skip(j + 1)) == b.skip(j + 1));
                    assert(result@ + z2_add(ra, b.skip(j + 1)) =~= z2_add(a, b));
                }
                j += 1;
            }
        }
        proof {
            assert(a.skip(i as int) =~= Seq::<usize>::empty());
            assert(b.skip(j as int) =~= Seq::<usize>::empty());
            lemma_z2_add_empty(Seq::<usize>::empty());
            assert(result@ + Seq::<usize>::empty() =~= result@);
            assert(z2_add(a, b) == result@);
            lemma_z2_add_elements(a, b);
        }
        self.vec = result;
    }
}

impl PartialEq for Z2VectorVec {
    /// Element-wise equality of the ordered representations.
    fn eq(&self, other: &Z2VectorVec) -> (r: bool) {
        if self.vec.len() != other.vec.len() {
            proof {
                assert(self@.len() != other@.len());
            }
            false
        } else {
            let mut i: usize = 0;
            while i < self.vec.len()
                invariant
                    i <= self.vec.len(),
                    self.vec.len() == other.vec.len(),
                    forall|k: int| 0 <= k < i ==> self.vec@[k] == other.vec@[k],
                decreases self.vec.len() - i,
            {
                if self.vec[i] != other.vec[i] {
                    return false;
                }
                i += 1;
            }
            proof {
                assert(self@ =~= other@);
            }
            true
        }
    }
}

impl Eq for Z2VectorVec {

}

impl vstd::std_specs::cmp::PartialEqSpecImpl for Z2VectorVec {
    open spec fn obeys_eq_spec() -> bool {
        true
    }

    open spec fn eq_spec(&self, other: &Z2VectorVec) -> bool {
        self@ == other@
    }
}

/// A reduced column together with the combination of original columns that
/// produced it. `boundary` is the working image the reducer cancels against;
/// `chain` records, in the domain index space, which original columns were
/// added in. The two are only ever updated in lock-step.
#[derive(Debug, Clone)]
pub struct Z2Chain {
    /// The combination of original columns, in the domain index space.
    pub chain: Z2VectorVec,
    /// The working boundary column.
    pub boundary: Z2VectorVec,
}

impl Z2Chain {
    /// Starts tracking column `index` with starting image `boundary`: the
    /// origin combination is the singleton `{index}`.
    pub fn new(index: usize, boundary: Z2VectorVec) -> (r: Z2Chain)
        requires
            boundary.inv(),
        ensures
            r.inv(),
            r.chain@ == seq![index],
            r.boundary == boundary,
    {
        Z2Chain { chain: Z2VectorVec::singleton(index), boundary }
    }
}

impl Z2Vector for Z2Chain {
    open spec fn image(&self) -> Seq<usize> {
        self.boundary@
    }

    open spec fn inv(&self) -> bool {
        strictly_descending(self.chain@) && strictly_descending(self.boundary@)
    }

    proof fn inv_descending(&self) {
    }

    fn lowest(&self) -> (r: Option<usize>) {
        self.boundary.lowest()
    }

    fn is_cycle(&self) -> (r: bool) {
        self.boundary.is_cycle()
    }

    /// Adds the images and the origin combinations in lock-step.
    fn add_assign(&mut self, other: &Z2Chain)
        ensures
            final(self).chain@ == z2_add(old(self).chain@, other.chain@),
    {
        self.boundary.add_assign(&other.boundary);
        self.chain.add_assign(&other.chain);
    }
}

} // verus!
