use vstd::prelude::*;

use crate::csc_storage::{lane_from, CoordsMatrix, SMatrix};
use crate::int_storage::{IdxStorage, IDX_MAX};
use crate::lanes::{
    absorb_one, distinct_rows, dup_count, has_row, lemma_absorb_rows, lemma_dup_count_distinct,
    lemma_dup_count_one, lemma_merged_distinct, merged,
    row_pos, summed, sums_fit, wrapping_sum,
};

verus! {

/// The entries of column `c` among the triples `t`, as (row, value) pairs in input order.
pub open spec fn col_lane(t: Seq<(int, int, i64)>, c: int) -> Seq<(int, i64)>
    decreases t.len(),
{
    if t.len() == 0 {
        Seq::empty()
    } else {
        let prev = col_lane(t.drop_last(), c);
        if t.last().1 == c {
            prev.push((t.last().0, t.last().2))
        } else {
            prev
        }
    }
}

/// How many of the triples `t` lie in a column below `c`.
pub open spec fn below(t: Seq<(int, int, i64)>, c: int) -> nat
    decreases t.len(),
{
    if t.len() == 0 {
        0
    } else {
        below(t.drop_last(), c) + if t.last().1 < c {
            1nat
        } else {
            0nat
        }
    }
}

proof fn lemma_below_step(t: Seq<(int, int, i64)>, c: int)
    ensures
        below(t, c + 1) == below(t, c) + col_lane(t, c).len(),
    decreases t.len(),
{
    if t.len() > 0 {
        lemma_below_step(t.drop_last(), c);
    }
}

proof fn lemma_below_bounds(t: Seq<(int, int, i64)>, a: int, b: int)
    requires
        a <= b,
    ensures
        below(t, a) <= below(t, b),
        below(t, b) <= t.len(),
    decreases t.len(),
{
    if t.len() > 0 {
        lemma_below_bounds(t.drop_last(), a, b);
    }
}

proof fn lemma_below_ends(t: Seq<(int, int, i64)>, n: int)
    requires
        forall|k: int| 0 <= k < t.len() ==> 0 <= #[trigger] t[k].1 < n,
    ensures
        below(t, 0) == 0,
        below(t, n) == t.len(),
    decreases t.len(),
{
    if t.len() > 0 {
        let s = t.drop_last();
        assert forall|k: int| 0 <= k < s.len() implies 0 <= #[trigger] s[k].1 < n by {
            assert(s[k] == t[k]);
        }
        lemma_below_ends(s, n);
        assert(0 <= t[t.len() - 1].1 < n);
    }
}

proof fn lemma_col_lane_len(t: Seq<(int, int, i64)>, c: int)
    ensures
        col_lane(t, c).len() <= t.len(),
    decreases t.len(),
{
    if t.len() > 0 {
        lemma_col_lane_len(t.drop_last(), c);
    }
}

proof fn lemma_col_lane_prefix(t: Seq<(int, int, i64)>, k: int, c: int)
    requires
        0 <= k <= t.len(),
    ensures
        col_lane(t.take(k), c).len() <= col_lane(t, c).len(),
    decreases t.len(),
{
    if k < t.len() {
        assert(t.drop_last().take(k) =~= t.take(k));
        lemma_col_lane_prefix(t.drop_last(), k, c);
    } else {
        assert(t.take(k) =~= t);
    }
}

proof fn lemma_take_step(t: Seq<(int, int, i64)>, k: int)
    requires
        0 <= k < t.len(),
    ensures
        t.take(k + 1).drop_last() == t.take(k),
        t.take(k + 1).last() == t[k],
{
    assert(t.take(k + 1).drop_last() =~= t.take(k));
}

impl SMatrix {
    /// Builds the matrix of the given `(rows, cols)` shape from coordinates by a counting sort
    /// on the column, keeping every entry: column `j` holds the entries of `a` in column `j`,
    /// in input order, duplicates included.
    pub fn from_coords_no_dedup(shape: (usize, usize), a: &CoordsMatrix) -> (r: Self)
        requires
            a.fits(shape.0 as int, shape.1 as int),
            shape.0 <= IDX_MAX,
            shape.1 <= IDX_MAX,
            shape.1 < usize::MAX,
            a.x@.len() <= IDX_MAX,
        ensures
            r.wf(),
            r.m == shape.0,
            r.n == shape.1,
            r.nnz() == a.x@.len(),
            forall|j: int| 0 <= j < shape.1 ==> #[trigger] r.lane(j) == col_lane(a.triples(), j),
    {
        let nnz = a.x.len();
        let m = shape.0;
        let n = shape.1;
        let ghost t = a.triples();
        proof {
            assert forall|k: int| 0 <= k < t.len() implies 0 <= #[trigger] t[k].1 < n by {
                assert(a.j@[k] < n);
            }
            lemma_below_ends(t, n as int);
            assert(t.take(nnz as int) =~= t);
        }
        // count the entries of each column, column c at slot c + 1
        let mut bp = IdxStorage::from(vec![0u32; n + 1]);
        let mut k: usize = 0;
        while k < nnz
            invariant
                nnz == a.x@.len(),
                t == a.triples(),
                a.fits(m as int, n as int),
                nnz <= IDX_MAX,
                k <= nnz,
                bp.values@.len() == n + 1,
                bp.values@[0] == 0,
                forall|d: int|
                    1 <= d <= n ==> #[trigger] bp.values@[d] == col_lane(t.take(k as int), d - 1).len(),
            decreases nnz - k,
        {
            let c = a.j[k] as usize;
            proof {
                lemma_take_step(t, k as int);
                lemma_col_lane_len(t.take(k as int), c as int);
            }
            let v = bp.get(c + 1) + 1;
            bp.set(c + 1, v);
            k += 1;
        }
        // prefix sums: slot c becomes the first position of column c
        let mut c: usize = 0;
        while c < n
            invariant
                nnz == a.x@.len(),
                t == a.triples(),
                t.take(nnz as int) == t,
                nnz <= IDX_MAX,
                c <= n,
                bp.values@.len() == n + 1,
                forall|d: int| 0 <= d <= c ==> #[trigger] bp.values@[d] == below(t, d),
                forall|d: int| c < d <= n ==> #[trigger] bp.values@[d] == col_lane(t, d - 1).len(),
                below(t, 0) == 0,
            decreases n - c,
        {
            proof {
                lemma_below_step(t, c as int);
                lemma_below_bounds(t, c as int + 1, c as int + 1);
            }
            let v = bp.get(c) + bp.get(c + 1);
            bp.set(c + 1, v);
            c += 1;
        }
        let ghost st = bp.values@.map_values(|v: u32| v as int);
        proof {
            assert forall|x: int, y: int| 0 <= x <= y <= n implies #[trigger] st[x] <= #[trigger] st[y] by {
                lemma_below_bounds(t, x, y);
            }
        }
        // scatter each entry to the cursor of its column
        let mut bi = IdxStorage::from(vec![0u32; nnz]);
        let mut bx: Vec<i64> = vec![0i64; nnz];
        let mut k: usize = 0;
        while k < nnz
            invariant
                nnz == a.x@.len(),
                t == a.triples(),
                a.fits(m as int, n as int),
                k <= nnz,
                st.len() == n + 1,
                forall|d: int| 0 <= d <= n ==> #[trigger] st[d] == below(t, d),
                forall|x: int, y: int| 0 <= x <= y <= n ==> #[trigger] st[x] <= #[trigger] st[y],
                below(t, 0) == 0,
                below(t, n as int) == nnz,
                bp.values@.len() == n + 1,
                bp.values@[n as int] == st[n as int],
                forall|c: int|
                    0 <= c < n ==> #[trigger] bp.values@[c] == st[c] + col_lane(t.take(k as int), c).len(),
                bi.values@.len() == nnz,
                bx@.len() == nnz,
                forall|c: int, q: int|
                    0 <= c < n && 0 <= q < col_lane(t.take(k as int), c).len() ==> (
                    bi.values@[st[c] + q] as int,
                    bx@[st[c] + q],
                ) == #[trigger] col_lane(t.take(k as int), c)[q],
                forall|q: int| 0 <= q < nnz ==> #[trigger] bi.values@[q] < m,
            decreases nnz - k,
        {
            let c = a.j[k] as usize;
            let pos = bp.get(c);
            let ghost old_bi = bi.values@;
            let ghost old_bx = bx@;
            let ghost lk = col_lane(t.take(k as int), c as int);
            proof {
                lemma_take_step(t, k as int);
                lemma_col_lane_prefix(t, k + 1, c as int);
                lemma_below_step(t, c as int);
                assert(st[c as int + 1] == st[c as int] + col_lane(t, c as int).len());
                assert(st[c as int + 1] <= st[n as int]);
            }
            bi.set(pos, a.i[k] as usize);
            bx.set(pos, a.x[k]);
            bp.set(c, pos + 1);
            proof {
                let kk = k as int + 1;
                assert forall|c2: int, q: int|
                    0 <= c2 < n && 0 <= q < col_lane(t.take(kk), c2).len() implies (
                    bi.values@[st[c2] + q] as int,
                    bx@[st[c2] + q],
                ) == #[trigger] col_lane(t.take(kk), c2)[q] by {
                    if c2 == c && q == lk.len() {
                        assert(t[k as int].1 == c);
                        assert(col_lane(t.take(kk), c2) == lk.push((t[k as int].0, t[k as int].2)));
                        assert(st[c2] + q == pos);
                    } else {
                        lemma_col_lane_prefix(t, k as int, c2);
                        lemma_below_step(t, c2);
                        assert(col_lane(t.take(kk), c2)[q] == col_lane(t.take(k as int), c2)[q]);
                        assert(st[c2 + 1] == st[c2] + col_lane(t, c2).len());
                        if c2 < c {
                            assert(st[c2 + 1] <= st[c as int]);
                        } else if c2 > c {
                            assert(st[c as int + 1] <= st[c2]);
                        }
                        assert(st[c2] + q != pos);
                    }
                }
            }
            k += 1;
        }
        let _ = bp.values.pop();
        bp.values.insert(0, 0u32);
        let r = SMatrix { m, n, p: bp, i: bi, x: bx };
        proof {
            assert forall|d: int| 0 <= d <= n implies #[trigger] r.col_start(d) == st[d] by {
                if d > 0 {
                    lemma_below_step(t, d - 1);
                }
            }
            assert forall|j: int| 0 <= j < n implies #[trigger] r.lane(j) == col_lane(t, j) by {
                lemma_below_step(t, j);
                assert(r.lane(j) =~= col_lane(t, j));
            }
        }
        r
    }
}

impl SMatrix {
    /// How many entries of the columns below `c` repeat a row held earlier in their column.
    pub open spec fn dups_below(&self, c: int) -> nat
        decreases c,
    {
        if c <= 0 {
            0
        } else {
            self.dups_below(c - 1) + dup_count(self.lane(c - 1))
        }
    }

    /// Merges, within each column, the entries that share a row: the first entry of a row keeps
    /// its slot and takes in each later one by `reduce(kept, later)`. The closure `reduce`
    /// computes `combine`.
    pub fn dedup_by<F: Fn(i64, i64) -> i64>(self, reduce: F, Ghost(combine): Ghost<
        spec_fn(i64, i64) -> i64,
    >) -> (r: Self)
        requires
            self.wf(),
            forall|a: i64, b: i64| #[trigger] reduce.requires((a, b)),
            forall|a: i64, b: i64, v: i64| #[trigger] reduce.ensures((a, b), v) ==> v == combine(a, b),
        ensures
            r.wf(),
            r.m == self.m,
            r.n == self.n,
            forall|j: int| 0 <= j < self.n ==> #[trigger] r.lane(j) == merged(self.lane(j), combine),
            r.nnz() + self.dups_below(self.n as int) == self.nnz(),
            r.is_canonical(),
    {
        let ghost orig = self;
        let ghost nnz = self.nnz();
        let mut s = self;
        let m = s.m;
        let n = s.n;
        let mut last_seen_at = IdxStorage::from(vec![0u32; m]);
        let mut writeidx: usize = 0;
        let ghost mut np: Seq<int> = seq![0int];
        let mut col: usize = 0;
        while col < n
            invariant
                orig.wf(),
                nnz == orig.nnz(),
                nnz <= IDX_MAX,
                forall|a: i64, b: i64| #[trigger] reduce.requires((a, b)),
                forall|a: i64, b: i64, v: i64|
                    #[trigger] reduce.ensures((a, b), v) ==> v == combine(a, b),
                m == orig.m,
                n == orig.n,
                s.m == m,
                s.n == n,
                col <= n,
                s.p.values@.len() == n + 1,
                s.i.values@.len() == nnz,
                s.x@.len() == nnz,
                forall|c: int| col <= c <= n ==> #[trigger] s.p.values@[c] == orig.p.values@[c],
                np.len() == col + 1,
                np[col as int] == writeidx,
                np[0] == 0,
                forall|c: int| 0 <= c < col ==> #[trigger] s.p.values@[c] == np[c],
                forall|a: int, b: int| 0 <= a <= b <= col ==> #[trigger] np[a] <= #[trigger] np[b],
                forall|c: int|
                    0 <= c < col ==> #[trigger] lane_from(s.i.values@, s.x@, np[c], np[c + 1])
                        == merged(orig.lane(c), combine),
                writeidx + orig.dups_below(col as int) == orig.col_start(col as int),
                forall|q: int|
                    orig.col_start(col as int) <= q < nnz ==> #[trigger] s.i.values@[q]
                        == orig.i.values@[q],
                forall|q: int| orig.col_start(col as int) <= q < nnz ==> #[trigger] s.x@[q] == orig.x@[q],
                forall|q: int| 0 <= q < writeidx ==> #[trigger] s.i.values@[q] < m,
                last_seen_at.values@.len() == m,
                forall|r: int| 0 <= r < m ==> #[trigger] last_seen_at.values@[r] <= writeidx,
            decreases n - col,
        {
            let start = s.p.get(col);
            let end = s.p.get(col + 1);
            let ws = writeidx;
            s.p.set(col, writeidx);
            let ghost p1 = s.p.values@;
            let ghost lane = orig.lane(col as int);
            let ghost i0 = s.i.values@;
            let ghost x0 = s.x@;
            proof {
                assert(orig.col_start(col as int) <= orig.col_start(col + 1));
                assert(orig.col_start(col + 1) <= orig.col_start(n as int));
                assert(lane.take(0) =~= Seq::<(int, i64)>::empty());
                assert(lane_from(s.i.values@, s.x@, ws as int, ws as int) =~= Seq::<(int, i64)>::empty());
            }
            let mut readidx = start;
            while readidx < end
                invariant
                    orig.wf(),
                    nnz == orig.nnz(),
                    nnz <= IDX_MAX,
                    forall|a: i64, b: i64| #[trigger] reduce.requires((a, b)),
                    forall|a: i64, b: i64, v: i64|
                        #[trigger] reduce.ensures((a, b), v) ==> v == combine(a, b),
                    m == orig.m,
                    s.m == m,
                    s.n == n,
                    s.p.values@ == p1,
                    col < n,
                    lane == orig.lane(col as int),
                    start == orig.col_start(col as int),
                    end == orig.col_start(col + 1),
                    end <= nnz,
                    start <= readidx <= end,
                    ws <= writeidx,
                    ws + orig.dups_below(col as int) == start,
                    s.i.values@.len() == nnz,
                    s.x@.len() == nnz,
                    (writeidx - ws) + dup_count(lane.take(readidx - start)) == readidx - start,
                    lane_from(s.i.values@, s.x@, ws as int, writeidx as int) == merged(
                        lane.take(readidx - start),
                        combine,
                    ),
                    distinct_rows(lane_from(s.i.values@, s.x@, ws as int, writeidx as int)),
                    forall|q: int|
                        readidx <= q < nnz ==> #[trigger] s.i.values@[q] == orig.i.values@[q],
                    forall|q: int| readidx <= q < nnz ==> #[trigger] s.x@[q] == orig.x@[q],
                    forall|q: int| 0 <= q < ws ==> #[trigger] s.i.values@[q] == i0[q],
                    forall|q: int| 0 <= q < ws ==> #[trigger] s.x@[q] == x0[q],
                    forall|q: int| 0 <= q < writeidx ==> #[trigger] s.i.values@[q] < m,
                    last_seen_at.values@.len() == m,
                    forall|r: int| 0 <= r < m ==> #[trigger] last_seen_at.values@[r] <= writeidx,
                    forall|r: int|
                        0 <= r < m ==> (#[trigger] last_seen_at.values@[r] > ws <==> has_row(
                            lane_from(s.i.values@, s.x@, ws as int, writeidx as int),
                            r,
                        )),
                    forall|r: int|
                        0 <= r < m && #[trigger] last_seen_at.values@[r] > ws ==> s.i.values@[
                            last_seen_at.values@[r] - 1] == r,
                decreases end - readidx,
            {
                let ghost k = readidx - start;
                let ghost cur = lane_from(s.i.values@, s.x@, ws as int, writeidx as int);
                let ghost e = lane[k];
                proof {
                    assert(lane.take(k + 1).drop_last() =~= lane.take(k));
                    assert(lane.take(k + 1).last() == e);
                    lemma_absorb_rows(Seq::empty(), lane.take(k), combine);
                    assert(e == (orig.i.values@[readidx as int] as int, orig.x@[readidx as int]));
                }
                let row = s.i.get(readidx);
                let seen = last_seen_at.get(row);
                if seen > ws {
                    let t = seen - 1;
                    let v = reduce(s.x[t], s.x[readidx]);
                    s.x.set(t, v);
                    proof {
                        let q0 = t - ws;
                        assert(cur[q0].0 == row);
                        assert(has_row(cur, row as int));
                        assert(row_pos(cur, row as int) == q0);
                        let nc = lane_from(s.i.values@, s.x@, ws as int, writeidx as int);
                        assert(absorb_one(cur, e, combine) =~= nc);
                        assert forall|r: int| has_row(nc, r) <==> has_row(cur, r) by {
                            if has_row(nc, r) {
                                let q = choose|q: int| 0 <= q < nc.len() && #[trigger] nc[q].0 == r;
                                assert(cur[q].0 == r);
                            }
                            if has_row(cur, r) {
                                let q = choose|q: int| 0 <= q < cur.len() && #[trigger] cur[q].0 == r;
                                assert(nc[q].0 == r);
                            }
                        }
                    }
                } else {
                    proof {
                        if has_row(cur, row as int) {
                            let q = choose|q: int| 0 <= q < cur.len() && #[trigger] cur[q].0 == row;
                            assert(s.i.values@[ws + q] == row);
                        }
                    }
                    s.i.set(writeidx, row);
                    let xv = s.x[readidx];
                    s.x.set(writeidx, xv);
                    writeidx += 1;
                    last_seen_at.set(row, writeidx);
                    proof {
                        let nc = lane_from(s.i.values@, s.x@, ws as int, writeidx as int);
                        assert(nc =~= cur.push(e));
                        assert forall|r: int|
                            0 <= r < m implies (#[trigger] last_seen_at.values@[r] > ws <==> has_row(
                            nc,
                            r,
                        )) by {
                            if has_row(nc, r) && r != row {
                                let q = choose|q: int| 0 <= q < nc.len() && #[trigger] nc[q].0 == r;
                                assert(cur[q].0 == r);
                            }
                            if has_row(cur, r) {
                                let q = choose|q: int| 0 <= q < cur.len() && #[trigger] cur[q].0 == r;
                                assert(nc[q].0 == r);
                            }
                            if r == row {
                                assert(nc[nc.len() - 1].0 == r);
                            }
                        }
                    }
                }
                readidx += 1;
            }
            proof {
                assert(lane.take(lane.len() as int) =~= lane);
                let np2 = np.push(writeidx as int);
                assert forall|c: int|
                    0 <= c < col + 1 implies #[trigger] lane_from(s.i.values@, s.x@, np2[c], np2[c + 1])
                        == merged(orig.lane(c), combine) by {
                    if c < col {
                        assert(np[c + 1] <= np[col as int]);
                        assert(lane_from(s.i.values@, s.x@, np2[c], np2[c + 1]) =~= lane_from(
                            i0,
                            x0,
                            np[c],
                            np[c + 1],
                        ));
                    }
                }
                np = np2;
            }
            col += 1;
        }
        s.p.set(n, writeidx);
        let ghost i_pre = s.i.values@;
        let ghost x_pre = s.x@;
        s.i.values.truncate(writeidx);
        s.x.truncate(writeidx);
        proof {
            assert forall|c: int| 0 <= c <= n implies #[trigger] s.col_start(c) == np[c] by {}
            assert forall|j: int| 0 <= j < n implies #[trigger] s.lane(j) == merged(
                orig.lane(j),
                combine,
            ) && distinct_rows(s.lane(j)) by {
                assert(np[j] <= np[j + 1]);
                assert(np[j + 1] <= np[n as int]);
                assert(s.lane(j) =~= lane_from(
                    i_pre,
                    x_pre,
                    np[j],
                    np[j + 1],
                ));
                lemma_absorb_rows(Seq::empty(), orig.lane(j), combine);
            }
        }
        s
    }
}

/// Two well-formed matrices with the same columns hold the same arrays.
pub proof fn lemma_same_lanes(a: SMatrix, b: SMatrix, c: int)
    requires
        a.wf(),
        b.wf(),
        a.n == b.n,
        forall|j: int| 0 <= j < a.n ==> #[trigger] a.lane(j) == b.lane(j),
        0 <= c <= a.n,
    ensures
        a.col_start(c) == b.col_start(c),
        forall|q: int| 0 <= q < a.col_start(c) ==> #[trigger] a.i.values@[q] == b.i.values@[q],
        forall|q: int| 0 <= q < a.col_start(c) ==> #[trigger] a.x@[q] == b.x@[q],
    decreases c,
{
    if c > 0 {
        lemma_same_lanes(a, b, c - 1);
        let la = a.lane(c - 1);
        let lb = b.lane(c - 1);
        assert(la.len() == lb.len());
        assert(a.col_start(c - 1) <= a.col_start(c));
        assert(b.col_start(c - 1) <= b.col_start(c));
        assert forall|q: int| 0 <= q < a.col_start(c) implies #[trigger] a.i.values@[q]
            == b.i.values@[q] by {
            if q >= a.col_start(c - 1) {
                assert(la[q - a.col_start(c - 1)] == lb[q - a.col_start(c - 1)]);
            }
        }
        assert forall|q: int| 0 <= q < a.col_start(c) implies #[trigger] a.x@[q] == b.x@[q] by {
            if q >= a.col_start(c - 1) {
                assert(la[q - a.col_start(c - 1)] == lb[q - a.col_start(c - 1)]);
            }
        }
    }
}

/// How many of the triples `t` in the columns below `c` repeat a row that an earlier triple of
/// their column holds.
pub open spec fn coords_dups(t: Seq<(int, int, i64)>, c: int) -> nat
    decreases c,
{
    if c <= 0 {
        0
    } else {
        coords_dups(t, c - 1) + dup_count(col_lane(t, c - 1))
    }
}

proof fn lemma_coords_dups(b: SMatrix, t: Seq<(int, int, i64)>, c: int)
    requires
        0 <= c <= b.n,
        forall|j: int| 0 <= j < b.n ==> #[trigger] b.lane(j) == col_lane(t, j),
    ensures
        b.dups_below(c) == coords_dups(t, c),
    decreases c,
{
    if c > 0 {
        lemma_coords_dups(b, t, c - 1);
        assert(b.lane(c - 1) == col_lane(t, c - 1));
    }
}

/// Two's-complement addition of two values.
fn add_wrapping(a: i64, b: i64) -> (v: i64)
    ensures
        v == a.wrapping_add(b),
{
    a.wrapping_add(b)
}

impl SMatrix {
    /// No column holds two entries in one row.
    pub open spec fn is_canonical(&self) -> bool {
        forall|j: int| 0 <= j < self.n ==> distinct_rows(#[trigger] self.lane(j))
    }

    /// Summing the entries that share a row, column by column, never leaves the range of `i64`.
    pub open spec fn column_sums_fit(&self) -> bool {
        forall|j: int| 0 <= j < self.n ==> sums_fit(Seq::empty(), #[trigger] self.lane(j))
    }

    /// Sums, within each column, the entries that share a row; the sums must fit in `i64`.
    /// A matrix without such entries comes back unchanged.
    pub fn dedup_accumulate(self) -> (r: Self)
        requires
            self.wf(),
            self.column_sums_fit(),
        ensures
            r.wf(),
            r.m == self.m,
            r.n == self.n,
            forall|j: int| 0 <= j < self.n ==> #[trigger] r.lane(j) == summed(self.lane(j)),
            r.nnz() + self.dups_below(self.n as int) == self.nnz(),
            r.is_canonical(),
            self.is_canonical() ==> r.p.values@ == self.p.values@ && r.i.values@
                == self.i.values@ && r.x@ == self.x@,
    {
        let ghost orig = self;
        let r = self.dedup_by(add_wrapping, Ghost(wrapping_sum()));
        proof {
            if orig.is_canonical() {
                assert forall|j: int| 0 <= j < orig.n implies #[trigger] orig.lane(j) == r.lane(j) by {
                    lemma_merged_distinct(orig.lane(j), wrapping_sum());
                }
                lemma_same_lanes(orig, r, orig.n as int);
                assert forall|c: int| 0 <= c <= orig.n implies #[trigger] r.p.values@[c]
                    == orig.p.values@[c] by {
                    lemma_same_lanes(orig, r, c);
                }
                assert(r.p.values@ =~= orig.p.values@);
                assert(r.i.values@ =~= orig.i.values@);
                assert(r.x@ =~= orig.x@);
            }
        }
        r
    }

    /// Builds the canonical matrix of the given shape from coordinates: column `j` holds each
    /// row that the coordinates name in column `j` once, in order of first occurrence, with the
    /// sum of that row's values. The sums must fit in `i64`.
    pub fn from_coords_dedup_accumulate(shape: (usize, usize), a: &CoordsMatrix) -> (r: Self)
        requires
            a.fits(shape.0 as int, shape.1 as int),
            forall|j: int|
                0 <= j < shape.1 ==> sums_fit(Seq::empty(), #[trigger] col_lane(a.triples(), j)),
            shape.0 <= IDX_MAX,
            shape.1 <= IDX_MAX,
            shape.1 < usize::MAX,
            a.x@.len() <= IDX_MAX,
        ensures
            r.wf(),
            r.m == shape.0,
            r.n == shape.1,
            forall|j: int|
                0 <= j < shape.1 ==> #[trigger] r.lane(j) == summed(col_lane(a.triples(), j)),
            r.is_canonical(),
            r.nnz() + coords_dups(a.triples(), shape.1 as int) == a.x@.len(),
    {
        let b = Self::from_coords_no_dedup(shape, a);
        let r = b.dedup_accumulate();
        proof {
            lemma_coords_dups(b, a.triples(), shape.1 as int);
            assert forall|j: int| 0 <= j < shape.1 implies #[trigger] r.lane(j) == summed(
                col_lane(a.triples(), j),
            ) by {
                assert(b.lane(j) == col_lane(a.triples(), j));
            }
        }
        r
    }
}

/// A matrix whose only repeated position is one pair of entries, at offsets `q1 < q2` of column
/// `j0`, repeats exactly one entry; so `dedup_accumulate` leaves one entry fewer.
pub proof fn lemma_one_duplicate(a: SMatrix, j0: int, q1: int, q2: int)
    requires
        a.wf(),
        0 <= j0 < a.n,
        0 <= q1 < q2 < a.lane(j0).len(),
        a.lane(j0)[q1].0 == a.lane(j0)[q2].0,
        forall|x: int, y: int|
            0 <= x < a.lane(j0).len() && 0 <= y < a.lane(j0).len() && x != y && !(x == q1 && y
                == q2) && !(x == q2 && y == q1) ==> #[trigger] a.lane(j0)[x].0
                != #[trigger] a.lane(j0)[y].0,
        forall|j: int| 0 <= j < a.n && j != j0 ==> distinct_rows(#[trigger] a.lane(j)),
    ensures
        a.dups_below(a.n as int) == 1,
{
    lemma_dup_count_one(a.lane(j0), q1, q2);
    lemma_dups_below_one(a, j0, a.n as int);
}

proof fn lemma_dups_below_one(a: SMatrix, j0: int, c: int)
    requires
        0 <= c <= a.n,
        0 <= j0 < a.n,
        dup_count(a.lane(j0)) == 1,
        forall|j: int| 0 <= j < a.n && j != j0 ==> distinct_rows(#[trigger] a.lane(j)),
    ensures
        a.dups_below(c) == if j0 < c {
            1nat
        } else {
            0nat
        },
    decreases c,
{
    if c > 0 {
        lemma_dups_below_one(a, j0, c - 1);
        if c - 1 != j0 {
            lemma_dup_count_distinct(a.lane(c - 1));
        }
    }
}

} // verus!
