use vstd::prelude::*;

use itertools::Itertools;

use crate::simplex::strictly_ascending;

verus! {

/// All k-element subsets of {0, …, n-1}, each ascending, pairwise distinct,
/// and with every such subset present.
///
/// Relies on itertools' `combinations` adaptor over the range iterator: it
/// yields every k-length combination of the range exactly once, each as an
/// increasing index vector.
#[verifier::external_body]
fn k_subsets(n: usize, k: usize) -> (r: Vec<Vec<usize>>)
    ensures
        forall|t: int|
            0 <= t < r@.len() ==> strictly_ascending((#[trigger] r@[t])@) && r@[t]@.len() == k
                && (forall|i: int| 0 <= i < k ==> r@[t]@[i] < n),
        forall|t1: int, t2: int| 0 <= t1 < t2 < r@.len() ==> r@[t1]@ != r@[t2]@,
        forall|s: Seq<usize>| #![trigger strictly_ascending(s)]
            strictly_ascending(s) && s.len() == k && (forall|i: int| 0 <= i < s.len() ==> s[i] < n)
                ==> exists|t: int| 0 <= t < r@.len() && s == r@[t]@,
{
    (0..n).combinations(k).collect()
}

/// Every ascending k-element subset of {0, …, n-1} occurs among the simplex
/// slots of `r`.
pub open spec fn covers_all_subsets(r: Seq<(Vec<usize>, u64)>, n: int, k: int) -> bool {
    forall|s: Seq<usize>| #![trigger strictly_ascending(s)]
        strictly_ascending(s) && s.len() == k && (forall|i: int| 0 <= i < s.len() ==> s[i] < n)
            ==> exists|t: int| 0 <= t < r.len() && s == r[t].0@
}

/// The number of entries of the packed upper triangle before row `i`: row t
/// stores the distances from point t to every point from t on.
pub open spec fn row_start(size: int, i: int) -> int
    decreases i,
{
    if i <= 0 {
        0
    } else {
        row_start(size, i - 1) + (size - (i - 1))
    }
}

/// Row starts are nonnegative.
proof fn lemma_row_start_nonneg(size: int, i: int)
    requires
        0 <= i <= size,
    ensures
        0 <= row_start(size, i),
    decreases i,
{
    if i > 0 {
        lemma_row_start_nonneg(size, i - 1);
    }
}

/// Earlier rows start earlier in the packed triangle.
proof fn lemma_row_start_monotone(size: int, i: int, j: int)
    requires
        0 <= i <= j <= size,
    ensures
        row_start(size, i) <= row_start(size, j),
    decreases j - i,
{
    if i < j {
        lemma_row_start_monotone(size, i, j - 1);
    }
}

/// A symmetric distance matrix over a point set, stored as its packed upper
/// triangle, diagonal included.
#[derive(Debug, Clone)]
pub struct DistanceMatrix {
    /// The number of points.
    size: usize,
    /// The packed upper triangle, row by row.
    data: Vec<u64>,
}

impl DistanceMatrix {
    /// The number of points.
    pub closed spec fn spec_size(&self) -> int {
        self.size as int
    }

    /// The stored distance between points i <= j.
    pub closed spec fn entry(&self, i: int, j: int) -> u64 {
        self.data@[row_start(self.size as int, i) + (j - i)]
    }

    /// Validity: the triangle is fully populated.
    pub closed spec fn wf(&self) -> bool {
        self.data@.len() == row_start(self.size as int, self.size as int)
    }

    /// Fills the triangle from a distance function: entry (i, j), for
    /// i <= j, holds `f(i, j)`.
    pub fn from_fn<F: Fn(usize, usize) -> u64>(size: usize, f: F) -> (r: DistanceMatrix)
        requires
            forall|i: usize, j: usize| i <= j < size ==> call_requires(f, (i, j)),
        ensures
            r.wf(),
            r.spec_size() == size,
            forall|i: usize, j: usize|
                i <= j < size ==> call_ensures(f, (i, j), #[trigger] r.entry(i as int, j as int)),
    {
        let mut data: Vec<u64> = Vec::new();
        let mut i: usize = 0;
        while i < size
            invariant
                i <= size,
                forall|a: usize, b: usize| a <= b < size ==> call_requires(f, (a, b)),
                data@.len() == row_start(size as int, i as int),
                forall|a: usize, b: usize|
                    a <= b < size && a < i ==> call_ensures(
                        f,
                        (a, b),
                        #[trigger] data@[row_start(size as int, a as int) + (b - a)],
                    ),
            decreases size - i,
        {
            let mut j: usize = i;
            while j < size
                invariant
                    i < size,
                    i <= j <= size,
                    forall|a: usize, b: usize| a <= b < size ==> call_requires(f, (a, b)),
                    data@.len() == row_start(size as int, i as int) + (j - i),
                    forall|a: usize, b: usize|
                        a <= b < size && a < i ==> call_ensures(
                            f,
                            (a, b),
                            #[trigger] data@[row_start(size as int, a as int) + (b - a)],
                        ),
                    forall|b: usize|
                        i <= b < j ==> call_ensures(
                            f,
                            (i, b),
                            #[trigger] data@[row_start(size as int, i as int) + (b - i)],
                        ),
                decreases size - j,
            {
                let ghost old_data = data@;
                let d = f(i, j);
                data.push(d);
                proof {
                    assert forall|a: usize, b: usize|
                        a <= b < size && a < i implies call_ensures(
                        f,
                        (a, b),
                        #[trigger] data@[row_start(size as int, a as int) + (b - a)],
                    ) by {
                        lemma_row_start_nonneg(size as int, a as int);
                        lemma_row_start_monotone(size as int, a + 1, i as int);
                        let idx = row_start(size as int, a as int) + (b - a);
                        assert(idx < row_start(size as int, a + 1));
                        assert(idx < old_data.len());
                        assert(data@[idx] == old_data[idx]);
                    }
                    assert forall|b: usize|
                        i <= b < j + 1 implies call_ensures(
                        f,
                        (i, b),
                        #[trigger] data@[row_start(size as int, i as int) + (b - i)],
                    ) by {
                        lemma_row_start_nonneg(size as int, i as int);
                        let idx = row_start(size as int, i as int) + (b - i);
                        if b < j {
                            assert(data@[idx] == old_data[idx]);
                        } else {
                            assert(idx == old_data.len());
                            assert(data@[idx] == d);
                        }
                    }
                }
                j += 1;
            }
            i += 1;
        }
        DistanceMatrix { size, data }
    }

    /// The distance between two points, in either argument order; `None`
    /// outside the point set.
    pub fn get(&self, i: usize, j: usize) -> (r: Option<u64>)
        requires
            self.wf(),
        ensures
            r == if i < self.spec_size() && j < self.spec_size() {
                Some(
                    self.entry(
                        (if i <= j {
                            i
                        } else {
                            j
                        }) as int,
                        (if i <= j {
                            j
                        } else {
                            i
                        }) as int,
                    ),
                )
            } else {
                None::<u64>
            },
    {
        if i >= self.size || j >= self.size {
            return None;
        }
        let (a, b) = if i <= j {
            (i, j)
        } else {
            (j, i)
        };
        let mut rs: usize = 0;
        let mut t: usize = 0;
        let dlen = self.data.len();
        while t < a
            invariant
                self.wf(),
                t <= a < self.size,
                b < self.size,
                dlen == self.data@.len(),
                rs == row_start(self.size as int, t as int),
                rs <= dlen,
            decreases a - t,
        {
            proof {
                lemma_row_start_monotone(self.size as int, t + 1, self.size as int);
                assert(row_start(self.size as int, t + 1) == rs + (self.size - t));
                assert(rs + (self.size - t) <= dlen);
            }
            rs = rs + (self.size - t);
            t += 1;
        }
        proof {
            lemma_row_start_monotone(self.size as int, a + 1, self.size as int);
            assert(row_start(self.size as int, a + 1) == rs + (self.size - a));
            assert(rs + (b - a) < row_start(self.size as int, a + 1));
            assert(rs + (b - a) < dlen);
        }
        Some(self.data[rs + (b - a)])
    }
}

/// The filtration value of a simplex: the largest pairwise distance among its
/// vertices, and 0 for a single vertex.
pub fn filtration_value(vertices: &Vec<usize>, dist: &DistanceMatrix) -> (r: u64)
    requires
        dist.wf(),
        vertices@.len() >= 1,
        forall|k: int| 0 <= k < vertices@.len() ==> vertices@[k] < dist.spec_size(),
        strictly_ascending(vertices@),
    ensures
        vertices@.len() == 1 ==> r == 0,
        forall|a: int, b: int|
            0 <= a < b < vertices@.len() ==> dist.entry(vertices@[a] as int, vertices@[b] as int)
                <= r,
        vertices@.len() > 1 ==> exists|a: int, b: int|
            0 <= a < b < vertices@.len() && r == dist.entry(
                #[trigger] vertices@[a] as int,
                #[trigger] vertices@[b] as int,
            ),
{
    let mut best: u64 = 0;
    let ghost mut witness: (int, int) = (0int, 0int);
    let mut a: usize = 0;
    while a < vertices.len()
        invariant
            dist.wf(),
            a <= vertices@.len(),
            forall|k: int| 0 <= k < vertices@.len() ==> vertices@[k] < dist.spec_size(),
            strictly_ascending(vertices@),
            forall|x: int, y: int|
                0 <= x < y < vertices@.len() && x < a ==> dist.entry(
                    vertices@[x] as int,
                    vertices@[y] as int,
                ) <= best,
            best != 0 ==> 0 <= witness.0 < witness.1 < vertices@.len() && best == dist.entry(
                vertices@[witness.0] as int,
                vertices@[witness.1] as int,
            ),
        decreases vertices@.len() - a,
    {
        let mut b: usize = a + 1;
        while b < vertices.len()
            invariant
                dist.wf(),
                a < vertices@.len(),
                a + 1 <= b <= vertices@.len(),
                forall|k: int| 0 <= k < vertices@.len() ==> vertices@[k] < dist.spec_size(),
                strictly_ascending(vertices@),
                forall|x: int, y: int|
                    0 <= x < y < vertices@.len() && x < a ==> dist.entry(
                        vertices@[x] as int,
                        vertices@[y] as int,
                    ) <= best,
                forall|y: int|
                    a < y < b ==> dist.entry(vertices@[a as int] as int, vertices@[y] as int)
                        <= best,
                best != 0 ==> 0 <= witness.0 < witness.1 < vertices@.len() && best == dist.entry(
                    vertices@[witness.0] as int,
                    vertices@[witness.1] as int,
                ),
            decreases vertices@.len() - b,
        {
            let va = vertices[a];
            let vb = vertices[b];
            let d = match dist.get(va, vb) {
                Some(d) => d,
                None => {
                    proof {
                        assert(false);
                    }
                    0
                },
            };
            proof {
                assert(va <= vb) by {
                    assert(vertices@[a as int] < vertices@[b as int]);
                }
            }
            if d > best {
                best = d;
                proof {
                    witness = (a as int, b as int);
                }
            }
            b += 1;
        }
        a += 1;
    }
    proof {
        if vertices@.len() > 1 {
            if best == 0 {
                witness = (0int, 1int);
                assert(dist.entry(vertices@[0] as int, vertices@[1] as int) <= best);
            }
            assert(0 <= witness.0 < witness.1 < vertices@.len() && best == dist.entry(
                vertices@[witness.0] as int,
                vertices@[witness.1] as int,
            ));
        }
    }
    best
}

/// All simplices of dimension q on n points, each with its filtration value,
/// sorted by value ascending: every q-simplex on {0, …, n-1} occurs exactly
/// once, carrying the largest pairwise distance of its vertices.
pub fn enumerate_simplices(n: usize, q: usize, dist: &DistanceMatrix) -> (r: Vec<(Vec<usize>, u64)>)
    requires
        dist.wf(),
        n <= dist.spec_size(),
        q < usize::MAX,
    ensures
        forall|t: int|
            0 <= t < r@.len() ==> {
                let vs = (#[trigger] r@[t]).0@;
                &&& strictly_ascending(vs)
                &&& vs.len() == q + 1
                &&& (forall|i: int| 0 <= i < vs.len() ==> vs[i] < n)
                &&& (vs.len() == 1 ==> r@[t].1 == 0)
                &&& (forall|a: int, b: int|
                    0 <= a < b < vs.len() ==> dist.entry(vs[a] as int, vs[b] as int) <= r@[t].1)
                &&& (vs.len() > 1 ==> exists|a: int, b: int|
                    0 <= a < b < vs.len() && r@[t].1 == dist.entry(
                        #[trigger] vs[a] as int,
                        #[trigger] vs[b] as int,
                    ))
            },
        forall|t1: int, t2: int| 0 <= t1 < t2 < r@.len() ==> r@[t1].1 <= r@[t2].1,
        forall|t1: int, t2: int| 0 <= t1 < t2 < r@.len() ==> (#[trigger] r@[t1]).0@ != (
        #[trigger] r@[t2]).0@,
        covers_all_subsets(r@, n as int, q + 1 as int),
    {
    let combos = k_subsets(n, q + 1);
    let mut pairs: Vec<(Vec<usize>, u64)> = Vec::new();
    let mut k: usize = 0;
    while k < combos.len()
        invariant
            dist.wf(),
            n <= dist.spec_size(),
            k <= combos@.len(),
            pairs@.len() == k,
            forall|t: int|
                0 <= t < combos@.len() ==> strictly_ascending((#[trigger] combos@[t])@)
                    && combos@[t]@.len() == q + 1 && (forall|i: int|
                    0 <= i < combos@[t]@.len() ==> combos@[t]@[i] < n),
            forall|t: int| 0 <= t < k ==> (#[trigger] pairs@[t]).0@ == combos@[t]@,
            forall|t: int|
                0 <= t < k ==> {
                    let vs = (#[trigger] pairs@[t]).0@;
                    &&& (vs.len() == 1 ==> pairs@[t].1 == 0)
                    &&& (forall|a: int, b: int|
                        0 <= a < b < vs.len() ==> dist.entry(vs[a] as int, vs[b] as int)
                            <= pairs@[t].1)
                    &&& (vs.len() > 1 ==> exists|a: int, b: int|
                        0 <= a < b < vs.len() && pairs@[t].1 == dist.entry(
                            #[trigger] vs[a] as int,
                            #[trigger] vs[b] as int,
                        ))
                },
        decreases combos@.len() - k,
    {
        let combo = copy_indices(&combos[k]);
        let value = filtration_value(&combo, dist);
        pairs.push((combo, value));
        k += 1;
    }
    let sorted = sort_pairs_by_value(pairs);
    proof {
        pairs@.to_multiset_ensures();
        sorted@.to_multiset_ensures();
        assert forall|t: int| 0 <= t < sorted@.len() implies {
            let vs = (#[trigger] sorted@[t]).0@;
            &&& strictly_ascending(vs)
            &&& vs.len() == q + 1
            &&& (forall|i: int| 0 <= i < vs.len() ==> vs[i] < n)
            &&& (vs.len() == 1 ==> sorted@[t].1 == 0)
            &&& (forall|a: int, b: int|
                0 <= a < b < vs.len() ==> dist.entry(vs[a] as int, vs[b] as int) <= sorted@[t].1)
            &&& (vs.len() > 1 ==> exists|a: int, b: int|
                0 <= a < b < vs.len() && sorted@[t].1 == dist.entry(
                    #[trigger] vs[a] as int,
                    #[trigger] vs[b] as int,
                ))
        } by {
            assert(sorted@.contains(sorted@[t]));
            assert(sorted@.to_multiset().count(sorted@[t]) > 0);
            assert(pairs@.contains(sorted@[t]));
            let u = choose|u: int| 0 <= u < pairs@.len() && pairs@[u] == sorted@[t];
            assert(pairs@[u].0@ == combos@[u]@);
        }
        assert forall|s: Seq<usize>| #![trigger strictly_ascending(s)]
            strictly_ascending(s) && s.len() == (q + 1 as int) && (forall|i: int|
                0 <= i < s.len() ==> s[i] < n) implies exists|t: int|
            0 <= t < sorted@.len() && s == sorted@[t].0@ by {
            let u = choose|u: int| 0 <= u < combos@.len() && s == combos@[u]@;
            assert(pairs@[u].0@ == s);
            assert(pairs@.contains(pairs@[u]));
            assert(pairs@.to_multiset().count(pairs@[u]) > 0);
            assert(sorted@.contains(pairs@[u]));
            let t = choose|t: int| 0 <= t < sorted@.len() && sorted@[t] == pairs@[u];
            assert(s == sorted@[t].0@);
        }
        assert(covers_all_subsets(sorted@, n as int, q + 1 as int));
        assert forall|t1: int, t2: int|
            0 <= t1 < t2 < pairs@.len() implies pairs@[t1] != pairs@[t2] by {
            assert(pairs@[t1].0@ == combos@[t1]@);
            assert(pairs@[t2].0@ == combos@[t2]@);
        }
        pairs@.lemma_multiset_has_no_duplicates();
        assert forall|x: (Vec<usize>, u64)|
            sorted@.to_multiset().contains(x) implies sorted@.to_multiset().count(x) == 1 by {
            assert(pairs@.to_multiset().contains(x));
        }
        sorted@.lemma_multiset_has_no_duplicates_conv();
        assert forall|t1: int, t2: int|
            0 <= t1 < t2 < sorted@.len() implies (#[trigger] sorted@[t1]).0@ != (
        #[trigger] sorted@[t2]).0@ by {
            if sorted@[t1].0@ == sorted@[t2].0@ {
                // both entries are values of the unsorted list; equal simplex
                // views mean equal positions there, so the two entries are one
                // value, which a duplicate-free list cannot hold twice
                assert(sorted@.contains(sorted@[t1]));
                assert(sorted@.to_multiset().count(sorted@[t1]) > 0);
                assert(pairs@.contains(sorted@[t1]));
                assert(sorted@.contains(sorted@[t2]));
                assert(sorted@.to_multiset().count(sorted@[t2]) > 0);
                assert(pairs@.contains(sorted@[t2]));
                let u1 = choose|u: int| 0 <= u < pairs@.len() && pairs@[u] == sorted@[t1];
                let u2 = choose|u: int| 0 <= u < pairs@.len() && pairs@[u] == sorted@[t2];
                assert(combos@[u1]@ == combos@[u2]@);
                assert(u1 == u2);
                assert(sorted@[t1] == sorted@[t2]);
                assert(false);
            }
        }
    }
    sorted
}


/// Sorts (simplex, value) pairs by value ascending, keeping the pairs
/// themselves intact: the result is a permutation of the input.
fn sort_pairs_by_value(pairs: Vec<(Vec<usize>, u64)>) -> (r: Vec<(Vec<usize>, u64)>)
    ensures
        forall|t1: int, t2: int| 0 <= t1 < t2 < r@.len() ==> r@[t1].1 <= r@[t2].1,
        r@.to_multiset() == pairs@.to_multiset(),
        r@.len() == pairs@.len(),
{
    broadcast use vstd::seq_lib::to_multiset_build;
    broadcast use vstd::seq_lib::to_multiset_insert;
    broadcast use vstd::seq_lib::to_multiset_len;

    let mut out: Vec<(Vec<usize>, u64)> = Vec::new();
    let mut rest = pairs;
    let ghost whole = rest@;
    proof {
        assert(whole.take(whole.len() as int) =~= whole);
        assert(whole.skip(whole.len() as int) =~= Seq::<(Vec<usize>, u64)>::empty());
        whole.skip(whole.len() as int).to_multiset_ensures();
    }
    loop
        invariant
            rest@ == whole.take(rest@.len() as int),
            out@.to_multiset() == whole.skip(rest@.len() as int).to_multiset(),
            out@.len() + rest@.len() == whole.len(),
            forall|t1: int, t2: int| 0 <= t1 < t2 < out@.len() ==> out@[t1].1 <= out@[t2].1,
        ensures
            rest@.len() == 0,
            out@.to_multiset() == whole.to_multiset(),
            out@.len() == whole.len(),
            forall|t1: int, t2: int| 0 <= t1 < t2 < out@.len() ==> out@[t1].1 <= out@[t2].1,
        decreases rest@.len(),
    {
        let ghost pre_rest = rest@;
        match rest.pop() {
            None => {
                proof {
                    assert(whole.skip(0) =~= whole);
                }
                break ;
            },
            Some(elem) => {
                let ghost n = pre_rest.len() as int;
                proof {
                    assert(rest@ =~= whole.take(n - 1));
                    assert(elem == whole[n - 1]);
                    assert(whole.skip(n - 1) =~= seq![elem] + whole.skip(n));
                    vstd::seq_lib::lemma_seq_union_to_multiset_commutative(
                        seq![elem],
                        whole.skip(n),
                    );
                    assert((seq![elem] + whole.skip(n)).to_multiset() == (whole.skip(n)
                        + seq![elem]).to_multiset());
                    assert(whole.skip(n) + seq![elem] =~= whole.skip(n).push(elem));
                    whole.skip(n).to_multiset_ensures();
                    assert(whole.skip(n).push(elem).to_multiset() == whole.skip(
                        n,
                    ).to_multiset().insert(elem));
                    assert(whole.skip(n - 1).to_multiset() == whole.skip(n).to_multiset().insert(
                        elem,
                    ));
                }
                let mut pos: usize = 0;
                while pos < out.len() && out[pos].1 <= elem.1
                    invariant
                        pos <= out@.len(),
                        forall|t: int| 0 <= t < pos ==> (#[trigger] out@[t]).1 <= elem.1,
                        forall|t1: int, t2: int|
                            0 <= t1 < t2 < out@.len() ==> out@[t1].1 <= out@[t2].1,
                    decreases out@.len() - pos,
                {
                    pos += 1;
                }
                let ghost pre = out@;
                out.insert(pos, elem);
                proof {
                    pre.insert_ensures(pos as int, elem);
                    assert forall|t1: int, t2: int|
                        0 <= t1 < t2 < out@.len() implies out@[t1].1 <= out@[t2].1 by {
                        if t2 < pos {
                            assert(pre[t1].1 <= pre[t2].1);
                        } else if t1 < pos && t2 == pos {
                            assert(pre[t1].1 <= elem.1);
                        } else if t1 < pos && t2 > pos {
                            assert(pre[t1].1 <= elem.1);
                            assert(pos < pre.len() ==> elem.1 < pre[pos as int].1);
                            assert(pre[t2 - 1].1 >= pre[pos as int].1 || t2 - 1 == pos);
                            assert(elem.1 <= pre[t2 - 1].1);
                        } else if t1 == pos {
                            assert(pos < pre.len() ==> elem.1 < pre[pos as int].1);
                            assert(pre[t2 - 1].1 >= pre[pos as int].1 || t2 - 1 == pos);
                        } else {
                            assert(pre[t1 - 1].1 <= pre[t2 - 1].1);
                        }
                    }
                    vstd::seq_lib::to_multiset_insert(pre, pos as int, elem);
                }
            },
        }
    }
    out
}

/// A plain copy of an index vector.
fn copy_indices(v: &Vec<usize>) -> (r: Vec<usize>)
    ensures
        r@ == v@,
{
    let mut r: Vec<usize> = Vec::new();
    let mut k: usize = 0;
    while k < v.len()
        invariant
            k <= v@.len(),
            r@ == v@.take(k as int),
        decreases v@.len() - k,
    {
        r.push(v[k]);
        proof {
            assert(r@ =~= v@.take(k + 1));
        }
        k += 1;
    }
    proof {
        assert(v@.take(v@.len() as int) =~= v@);
    }
    r
}

} // verus!
