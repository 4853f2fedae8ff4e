use vstd::prelude::*;

use crate::csc::col_lane;
use crate::csc_storage::{CoordsMatrix, SMatrix};
use crate::int_storage::IDX_MAX;
use crate::lanes::{lemma_distinct_sums_fit, lemma_merged_distinct, sums_fit, summed};

verus! {

/// The lane `l` of column `c`, as (row, column, value) triples.
pub open spec fn tagged(l: Seq<(int, i64)>, c: int) -> Seq<(int, int, i64)> {
    Seq::new(l.len(), |k: int| (l[k].0, c, l[k].1))
}

/// The value that a dense view shows at row `r` of lane `l`: that of the last entry in row
/// `r`, or `zero` where there is none.
pub open spec fn value_at(l: Seq<(int, i64)>, r: int, zero: i64) -> i64
    decreases l.len(),
{
    if l.len() == 0 {
        zero
    } else if l.last().0 == r {
        l.last().1
    } else {
        value_at(l.drop_last(), r, zero)
    }
}

proof fn lemma_col_lane_concat(s1: Seq<(int, int, i64)>, s2: Seq<(int, int, i64)>, c: int)
    ensures
        col_lane(s1 + s2, c) == col_lane(s1, c) + col_lane(s2, c),
    decreases s2.len(),
{
    if s2.len() == 0 {
        assert(s1 + s2 =~= s1);
        assert(col_lane(s1, c) + col_lane(s2, c) =~= col_lane(s1, c));
    } else {
        lemma_col_lane_concat(s1, s2.drop_last(), c);
        assert((s1 + s2).drop_last() =~= s1 + s2.drop_last());
        if s2.last().1 == c {
            assert(col_lane(s1, c) + col_lane(s2.drop_last(), c).push((s2.last().0, s2.last().2))
                =~= (col_lane(s1, c) + col_lane(s2.drop_last(), c)).push(
                (s2.last().0, s2.last().2),
            ));
        }
    }
}

proof fn lemma_col_lane_tagged(l: Seq<(int, i64)>, d: int, c: int)
    ensures
        col_lane(tagged(l, d), c) == if d == c {
            l
        } else {
            Seq::<(int, i64)>::empty()
        },
    decreases l.len(),
{
    if l.len() > 0 {
        assert(tagged(l, d).drop_last() =~= tagged(l.drop_last(), d));
        lemma_col_lane_tagged(l.drop_last(), d, c);
        if d == c {
            assert(l.drop_last().push(l.last()) =~= l);
        }
    } else {
        assert(tagged(l, d) =~= Seq::<(int, int, i64)>::empty());
    }
}

impl SMatrix {
    pub fn get_shape(&self) -> (r: (usize, usize))
        ensures
            r == (self.m, self.n),
    {
        (self.m, self.n)
    }

    pub fn get_x(&self) -> (r: &[i64])
        ensures
            r@ == self.x@,
    {
        self.x.as_slice()
    }

    pub fn get_nnz(&self) -> (r: usize)
        requires
            self.wf(),
        ensures
            r == self.nnz(),
    {
        self.i.values.len()
    }

    /// The entries of the first `k` columns as (row, column, value) triples, column by column,
    /// each column in storage order.
    pub open spec fn flat(&self, k: int) -> Seq<(int, int, i64)>
        decreases k,
    {
        if k <= 0 {
            Seq::empty()
        } else {
            self.flat(k - 1) + tagged(self.lane(k - 1), k - 1)
        }
    }

    /// The matrix in coordinate form: its entries column by column, each column in storage
    /// order.
    pub fn to_coords(self) -> (r: CoordsMatrix)
        requires
            self.wf(),
        ensures
            r.triples() == self.flat(self.n as int),
            r.fits(self.m as int, self.n as int),
            r.x@.len() <= IDX_MAX,
    {
        let n = self.n;
        let nnz = self.i.values.len();
        let mut j: Vec<u32> = Vec::with_capacity(nnz);
        let mut k: usize = 0;
        while k < n
            invariant
                self.wf(),
                n == self.n,
                nnz == self.nnz(),
                k <= n,
                j@.len() == self.col_start(k as int),
                self.flat(k as int).len() == j@.len(),
                forall|q: int|
                    0 <= q < j@.len() ==> #[trigger] self.flat(k as int)[q] == (
                        self.i.values@[q] as int,
                        j@[q] as int,
                        self.x@[q],
                    ),
                forall|q: int| 0 <= q < j@.len() ==> #[trigger] j@[q] < n,
            decreases n - k,
        {
            let start = self.p.get(k);
            let end = self.p.get(k + 1);
            let ghost tl = tagged(self.lane(k as int), k as int);
            let ghost f0 = self.flat(k as int);
            proof {
                assert(self.col_start(k as int) <= self.col_start(k + 1));
                assert(self.col_start(k + 1) <= self.col_start(n as int));
            }
            let mut t = start;
            while t < end
                invariant
                    self.wf(),
                    start == self.col_start(k as int),
                    end == self.col_start(k + 1),
                    end <= nnz,
                    nnz == self.nnz(),
                    k < n,
                    n == self.n,
                    start <= t <= end,
                    j@.len() == t,
                    f0.len() == start,
                    tl == tagged(self.lane(k as int), k as int),
                    forall|q: int|
                        0 <= q < j@.len() ==> #[trigger] (f0 + tl)[q] == (
                            self.i.values@[q] as int,
                            j@[q] as int,
                            self.x@[q],
                        ),
                    forall|q: int| 0 <= q < j@.len() ==> #[trigger] j@[q] < n,
                decreases end - t,
            {
                j.push(k as u32);
                proof {
                    assert((f0 + tl)[t as int] == tl[t - start]);
                }
                t += 1;
            }
            k += 1;
        }
        let r = CoordsMatrix { i: self.i.values, j, x: self.x };
        proof {
            assert(r.triples() =~= self.flat(n as int));
        }
        r
    }
}

/// Row-major position of row `i`, column `j` in an `m` by `n` array.
pub open spec fn row_major_spec(m: int, n: int, i: int, j: int) -> int {
    i * n + j
}

/// Column-major position of row `i`, column `j` in an `m` by `n` array.
pub open spec fn column_major_spec(m: int, n: int, i: int, j: int) -> int {
    i + j * m
}

fn row_major_index(m: usize, n: usize, i: usize, j: usize) -> (o: usize)
    requires
        i < m,
        j < n,
        m * n <= usize::MAX,
    ensures
        o == row_major_spec(m as int, n as int, i as int, j as int),
{
    proof {
        assert(i * n + j < m * n) by (nonlinear_arith)
            requires
                i < m,
                j < n,
        ;
    }
    i * n + j
}

fn column_major_index(m: usize, n: usize, i: usize, j: usize) -> (o: usize)
    requires
        i < m,
        j < n,
        m * n <= usize::MAX,
    ensures
        o == column_major_spec(m as int, n as int, i as int, j as int),
{
    proof {
        assert(i + j * m < m * n) by (nonlinear_arith)
            requires
                i < m,
                j < n,
        ;
    }
    i + j * m
}

proof fn lemma_row_major(m: int, n: int)
    ensures
        forall|i1: int, j1: int, i2: int, j2: int|
            0 <= i1 < m && 0 <= j1 < n && 0 <= i2 < m && 0 <= j2 < n && row_major_spec(m, n, i1, j1)
                == row_major_spec(m, n, i2, j2) ==> i1 == i2 && j1 == j2,
        forall|i: int, j: int|
            0 <= i < m && 0 <= j < n ==> 0 <= #[trigger] row_major_spec(m, n, i, j) < m * n,
{
    assert forall|i1: int, j1: int, i2: int, j2: int|
        0 <= i1 < m && 0 <= j1 < n && 0 <= i2 < m && 0 <= j2 < n && row_major_spec(m, n, i1, j1)
            == row_major_spec(m, n, i2, j2) implies i1 == i2 && j1 == j2 by {
        if i1 < i2 {
            assert(i1 * n + j1 < i2 * n + j2) by (nonlinear_arith)
                requires
                    i1 < i2,
                    0 <= j1 < n,
                    0 <= j2,
            ;
        } else if i2 < i1 {
            assert(i2 * n + j2 < i1 * n + j1) by (nonlinear_arith)
                requires
                    i2 < i1,
                    0 <= j2 < n,
                    0 <= j1,
            ;
        }
    }
    assert forall|i: int, j: int| 0 <= i < m && 0 <= j < n implies 0 <= #[trigger] row_major_spec(
        m,
        n,
        i,
        j,
    ) < m * n by {
        assert(0 <= i * n + j < m * n) by (nonlinear_arith)
            requires
                0 <= i < m,
                0 <= j < n,
        ;
    }
}

proof fn lemma_column_major(m: int, n: int)
    ensures
        forall|i1: int, j1: int, i2: int, j2: int|
            0 <= i1 < m && 0 <= j1 < n && 0 <= i2 < m && 0 <= j2 < n && column_major_spec(
                m,
                n,
                i1,
                j1,
            ) == column_major_spec(m, n, i2, j2) ==> i1 == i2 && j1 == j2,
        forall|i: int, j: int|
            0 <= i < m && 0 <= j < n ==> 0 <= #[trigger] column_major_spec(m, n, i, j) < m * n,
{
    assert forall|i1: int, j1: int, i2: int, j2: int|
        0 <= i1 < m && 0 <= j1 < n && 0 <= i2 < m && 0 <= j2 < n && column_major_spec(
            m,
            n,
            i1,
            j1,
        ) == column_major_spec(m, n, i2, j2) implies i1 == i2 && j1 == j2 by {
        if j1 < j2 {
            assert(i1 + j1 * m < i2 + j2 * m) by (nonlinear_arith)
                requires
                    j1 < j2,
                    0 <= i1 < m,
                    0 <= i2,
            ;
        } else if j2 < j1 {
            assert(i2 + j2 * m < i1 + j1 * m) by (nonlinear_arith)
                requires
                    j2 < j1,
                    0 <= i2 < m,
                    0 <= i1,
            ;
        }
    }
    assert forall|i: int, j: int| 0 <= i < m && 0 <= j < n implies 0
        <= #[trigger] column_major_spec(m, n, i, j) < m * n by {
        assert(0 <= i + j * m < m * n) by (nonlinear_arith)
            requires
                0 <= i < m,
                0 <= j < n,
        ;
    }
}

impl SMatrix {
    /// A dense `m * n` array filled with `zero`, with each stored entry written at the position
    /// that `index(m, n, row, col)` gives; `index` computes the map `layout`, which sends the
    /// positions of the matrix one to one into the array. Where a column holds a row twice, the
    /// later entry is the one that shows.
    pub fn to_dense_by_idx<F: Fn(usize, usize, usize, usize) -> usize>(
        &self,
        index: F,
        zero: i64,
        Ghost(layout): Ghost<spec_fn(int, int, int, int) -> int>,
    ) -> (r: Vec<i64>)
        requires
            self.wf(),
            self.m * self.n <= usize::MAX,
            forall|i: usize, j: usize|
                i < self.m && j < self.n ==> #[trigger] index.requires((self.m, self.n, i, j)),
            forall|i: usize, j: usize, o: usize|
                i < self.m && j < self.n && #[trigger] index.ensures((self.m, self.n, i, j), o)
                    ==> o == layout(self.m as int, self.n as int, i as int, j as int),
            forall|i: int, j: int|
                0 <= i < self.m && 0 <= j < self.n ==> 0 <= #[trigger] layout(
                    self.m as int,
                    self.n as int,
                    i,
                    j,
                ) < self.m * self.n,
            forall|i1: int, j1: int, i2: int, j2: int|
                0 <= i1 < self.m && 0 <= j1 < self.n && 0 <= i2 < self.m && 0 <= j2 < self.n
                    && #[trigger] layout(self.m as int, self.n as int, i1, j1) == #[trigger] layout(
                    self.m as int,
                    self.n as int,
                    i2,
                    j2,
                ) ==> i1 == i2 && j1 == j2,
        ensures
            r@.len() == self.m * self.n,
            forall|i: int, j: int|
                0 <= i < self.m && 0 <= j < self.n ==> r@[layout(self.m as int, self.n as int, i, j)]
                    == #[trigger] value_at(self.lane(j), i, zero),
            forall|o: int|
                0 <= o < r@.len() && r@[o] != zero ==> exists|i: int, j: int|
                    0 <= i < self.m && 0 <= j < self.n && o == #[trigger] layout(
                        self.m as int,
                        self.n as int,
                        i,
                        j,
                    ),
    {
        let m = self.m;
        let n = self.n;
        let mut dense = vec![zero; m * n];
        let mut c: usize = 0;
        while c < n
            invariant
                self.wf(),
                m == self.m,
                n == self.n,
                m * n <= usize::MAX,
                c <= n,
                dense@.len() == m * n,
                forall|i: usize, j: usize| i < m && j < n ==> #[trigger] index.requires((m, n, i, j)),
                forall|i: usize, j: usize, o: usize|
                    i < m && j < n && #[trigger] index.ensures((m, n, i, j), o) ==> o == layout(
                        m as int,
                        n as int,
                        i as int,
                        j as int,
                    ),
                forall|i: int, j: int|
                    0 <= i < m && 0 <= j < n ==> 0 <= #[trigger] layout(m as int, n as int, i, j) < m
                        * n,
                forall|i1: int, j1: int, i2: int, j2: int|
                    0 <= i1 < m && 0 <= j1 < n && 0 <= i2 < m && 0 <= j2 < n && #[trigger] layout(
                        m as int,
                        n as int,
                        i1,
                        j1,
                    ) == #[trigger] layout(m as int, n as int, i2, j2) ==> i1 == i2 && j1 == j2,
                forall|i: int, j: int|
                    0 <= i < m && 0 <= j < n ==> dense@[#[trigger] layout(m as int, n as int, i, j)]
                        == if j < c {
                        value_at(self.lane(j), i, zero)
                    } else {
                        zero
                    },
                forall|o: int|
                    0 <= o < dense@.len() && dense@[o] != zero ==> exists|i: int, j: int|
                        0 <= i < m && 0 <= j < n && o == #[trigger] layout(m as int, n as int, i, j),
            decreases n - c,
        {
            let start = self.p.get(c);
            let end = self.p.get(c + 1);
            let ghost l = self.lane(c as int);
            proof {
                assert(self.col_start(c as int) <= self.col_start(c + 1));
                assert(self.col_start(c + 1) <= self.col_start(n as int));
                assert(l.take(0) =~= Seq::<(int, i64)>::empty());
            }
            let mut k = start;
            while k < end
                invariant
                    self.wf(),
                    m == self.m,
                    n == self.n,
                    m * n <= usize::MAX,
                    c < n,
                    l == self.lane(c as int),
                    start == self.col_start(c as int),
                    end == self.col_start(c + 1),
                    end <= self.nnz(),
                    start <= k <= end,
                    dense@.len() == m * n,
                    forall|i: usize, j: usize|
                        i < m && j < n ==> #[trigger] index.requires((m, n, i, j)),
                    forall|i: usize, j: usize, o: usize|
                        i < m && j < n && #[trigger] index.ensures((m, n, i, j), o) ==> o == layout(
                            m as int,
                            n as int,
                            i as int,
                            j as int,
                        ),
                    forall|i: int, j: int|
                        0 <= i < m && 0 <= j < n ==> 0 <= #[trigger] layout(m as int, n as int, i, j)
                            < m * n,
                    forall|i1: int, j1: int, i2: int, j2: int|
                        0 <= i1 < m && 0 <= j1 < n && 0 <= i2 < m && 0 <= j2 < n && #[trigger] layout(
                            m as int,
                            n as int,
                            i1,
                            j1,
                        ) == #[trigger] layout(m as int, n as int, i2, j2) ==> i1 == i2 && j1 == j2,
                    forall|i: int, j: int|
                        0 <= i < m && 0 <= j < n ==> dense@[#[trigger] layout(
                            m as int,
                            n as int,
                            i,
                            j,
                        )] == if j < c {
                            value_at(self.lane(j), i, zero)
                        } else if j == c {
                            value_at(l.take(k - start), i, zero)
                        } else {
                            zero
                        },
                    forall|o: int|
                        0 <= o < dense@.len() && dense@[o] != zero ==> exists|i: int, j: int|
                            0 <= i < m && 0 <= j < n && o == #[trigger] layout(
                                m as int,
                                n as int,
                                i,
                                j,
                            ),
                decreases end - k,
            {
                let i = self.i.get(k);
                let o = index(m, n, i, c);
                let ghost d0 = dense@;
                dense.set(o, self.x[k]);
                proof {
                    let t = k - start;
                    assert(l.take(t + 1).drop_last() =~= l.take(t));
                    assert(l.take(t + 1).last() == (i as int, self.x@[k as int]));
                    assert forall|i2: int, j2: int|
                        0 <= i2 < m && 0 <= j2 < n implies dense@[#[trigger] layout(
                        m as int,
                        n as int,
                        i2,
                        j2,
                    )] == if j2 < c {
                        value_at(self.lane(j2), i2, zero)
                    } else if j2 == c {
                        value_at(l.take(t + 1), i2, zero)
                    } else {
                        zero
                    } by {
                        if i2 != i || j2 != c {
                            assert(layout(m as int, n as int, i2, j2) != layout(
                                m as int,
                                n as int,
                                i as int,
                                c as int,
                            ));
                        }
                    }
                    assert forall|o2: int|
                        0 <= o2 < dense@.len() && dense@[o2] != zero implies exists|i2: int, j2: int|
                        0 <= i2 < m && 0 <= j2 < n && o2 == #[trigger] layout(
                            m as int,
                            n as int,
                            i2,
                            j2,
                        ) by {
                        if o2 == o {
                            assert(o2 == layout(m as int, n as int, i as int, c as int));
                        } else {
                            assert(d0[o2] != zero);
                        }
                    }
                }
                k += 1;
            }
            proof {
                assert(l.take(end - start) =~= l);
            }
            c += 1;
        }
        dense
    }

    /// The matrix as a dense array in row-major order (row `i`, column `j` at `i * n + j`),
    /// `zero` where no entry is stored.
    pub fn to_dense_row_major(&self, zero: i64) -> (r: Vec<i64>)
        requires
            self.wf(),
            self.m * self.n <= usize::MAX,
        ensures
            r@.len() == self.m * self.n,
            forall|i: int, j: int|
                0 <= i < self.m && 0 <= j < self.n ==> r@[i * self.n + j] == #[trigger] value_at(self.lane(j), i, zero),
    {
        proof {
            lemma_row_major(self.m as int, self.n as int);
        }
        let r = self.to_dense_by_idx(
            row_major_index,
            zero,
            Ghost(|m: int, n: int, i: int, j: int| row_major_spec(m, n, i, j)),
        );
        r
    }

    /// The matrix as a dense array in column-major order (row `i`, column `j` at `i + j * m`),
    /// `zero` where no entry is stored.
    pub fn to_dense_column_major(&self, zero: i64) -> (r: Vec<i64>)
        requires
            self.wf(),
            self.m * self.n <= usize::MAX,
        ensures
            r@.len() == self.m * self.n,
            forall|i: int, j: int|
                0 <= i < self.m && 0 <= j < self.n ==> r@[i + j * self.m] == #[trigger] value_at(self.lane(j), i, zero),
    {
        proof {
            lemma_column_major(self.m as int, self.n as int);
        }
        let r = self.to_dense_by_idx(
            column_major_index,
            zero,
            Ghost(|m: int, n: int, i: int, j: int| column_major_spec(m, n, i, j)),
        );
        r
    }
}

/// Coordinates read back from a canonical matrix build that matrix again: each column of the
/// coordinates is the matrix's column, its sums fit, and summing its duplicate rows leaves it
/// as it is. With `lemma_same_lanes`, rebuilding from `to_coords` gives the same arrays.
pub proof fn lemma_round_trip(a: SMatrix)
    requires
        a.wf(),
        a.is_canonical(),
    ensures
        forall|j: int|
            0 <= j < a.n ==> #[trigger] col_lane(a.flat(a.n as int), j) == a.lane(j),
        forall|j: int|
            0 <= j < a.n ==> sums_fit(Seq::empty(), #[trigger] col_lane(a.flat(a.n as int), j)),
        forall|j: int|
            0 <= j < a.n ==> #[trigger] summed(col_lane(a.flat(a.n as int), j)) == a.lane(j),
{
    assert forall|j: int| 0 <= j < a.n implies #[trigger] col_lane(a.flat(a.n as int), j) == a.lane(j)
        && sums_fit(Seq::empty(), col_lane(a.flat(a.n as int), j)) && summed(
        col_lane(a.flat(a.n as int), j),
    ) == a.lane(j) by {
        lemma_col_lane_flat(a, a.n as int, j);
        lemma_merged_distinct(a.lane(j), crate::lanes::wrapping_sum());
        lemma_distinct_sums_fit(a.lane(j));
    }
}

proof fn lemma_col_lane_flat(a: SMatrix, k: int, c: int)
    requires
        0 <= k,
    ensures
        col_lane(a.flat(k), c) == if 0 <= c < k {
            a.lane(c)
        } else {
            Seq::<(int, i64)>::empty()
        },
    decreases k,
{
    if k <= 0 {
        assert(a.flat(k) =~= Seq::<(int, int, i64)>::empty());
    } else {
        lemma_col_lane_flat(a, k - 1, c);
        lemma_col_lane_concat(a.flat(k - 1), tagged(a.lane(k - 1), k - 1), c);
        lemma_col_lane_tagged(a.lane(k - 1), k - 1, c);
        if c == k - 1 {
            assert(Seq::<(int, i64)>::empty() + a.lane(c) =~= a.lane(c));
        } else if 0 <= c < k - 1 {
            assert(a.lane(c) + Seq::<(int, i64)>::empty() =~= a.lane(c));
        } else {
            assert(Seq::<(int, i64)>::empty() + Seq::<(int, i64)>::empty() =~= Seq::<
                (int, i64),
            >::empty());
        }
    }
}

} // verus!
