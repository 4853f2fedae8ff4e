use vstd::prelude::*;

use crate::csc_storage::SLaneAccessor;
use crate::int_storage::IdxStorage;
use crate::lanes::{distinct_rows, has_row};

verus! {

/// One flag per dense slot: whether the slot has been written in the current pass.
#[derive(Debug, Clone, PartialEq, Eq)]
pub struct BoolWorkspace {
    pub values: Vec<bool>,
}

/// A dense accumulator for one column: the rows touched so far, in first-touch order, a flag
/// per row, and a value per row that is meaningful where the flag is set.
#[derive(Debug, Clone, PartialEq, Eq)]
pub struct DLaneWorkspace {
    pub sparse_i: IdxStorage,
    pub dense_exist: BoolWorkspace,
    pub dense_x: Vec<i64>,
}

impl DLaneWorkspace {
    /// The accumulated entries, as (row, value) pairs in first-touch order.
    pub open spec fn entries(&self) -> Seq<(int, i64)> {
        Seq::new(
            self.sparse_i.values@.len(),
            |q: int| (self.sparse_i.values@[q] as int, self.dense_x@[self.sparse_i.values@[q] as int]),
        )
    }

    /// The touched rows are distinct and in range, and a row's flag is set exactly when the row
    /// has been touched.
    pub open spec fn wf(&self) -> bool {
        &&& self.dense_exist.values@.len() == self.dense_x@.len()
        &&& forall|q: int|
            0 <= q < self.sparse_i.values@.len() ==> #[trigger] self.sparse_i.values@[q]
                < self.dense_x@.len()
        &&& distinct_rows(self.entries())
        &&& forall|r: int|
            0 <= r < self.dense_x@.len() ==> (#[trigger] self.dense_exist.values@[r] <==> has_row(
                self.entries(),
                r,
            ))
    }

    /// The number of dense slots.
    pub fn m(&self) -> (r: usize)
        ensures
            r == self.dense_x@.len(),
    {
        self.dense_x.len()
    }

    /// A workspace of `size` slots with nothing touched.
    pub fn new(size: usize) -> (r: Self)
        ensures
            r.wf(),
            r.dense_x@.len() == size,
            r.entries() == Seq::<(int, i64)>::empty(),
    {
        let r = DLaneWorkspace {
            sparse_i: IdxStorage::from(Vec::new()),
            dense_exist: BoolWorkspace { values: vec![false; size] },
            dense_x: vec![0i64; size],
        };
        assert(r.entries() =~= Seq::<(int, i64)>::empty());
        r
    }

    /// A workspace over the viewed column's row space that holds that column's entries. The
    /// column must hold each row at most once, as every column of a canonical matrix does
    /// (one built by `from_coords_dedup_accumulate`, `dedup_accumulate` or `mat_mul`): the
    /// workspace keeps each touched row once.
    pub fn new_from_sparse(lane: &SLaneAccessor) -> (r: Self)
        requires
            lane.matrix.wf(),
            lane.j < lane.matrix.n,
            distinct_rows(lane.lane()),
        ensures
            r.wf(),
            r.dense_x@.len() == lane.matrix.m,
            r.entries() == lane.lane(),
    {
        let mut res = Self::new(lane.matrix.m);
        let range = lane.value_range();
        let start = range.start;
        let end = range.end;
        let ghost l = lane.lane();
        proof {
            assert(lane.matrix.col_start(lane.j as int) <= lane.matrix.col_start(lane.j + 1));
            assert(lane.matrix.col_start(lane.j + 1) <= lane.matrix.col_start(lane.matrix.n as int));
        }
        let mut k = start;
        while k < end
            invariant
                lane.matrix.wf(),
                l == lane.lane(),
                distinct_rows(l),
                start == lane.matrix.col_start(lane.j as int),
                end == lane.matrix.col_start(lane.j + 1),
                end <= lane.matrix.nnz(),
                start <= k <= end,
                res.wf(),
                res.dense_x@.len() == lane.matrix.m,
                res.entries() == l.take(k - start),
            decreases end - k,
        {
            let i = lane.matrix.i.get(k);
            let ghost e0 = res.entries();
            let ghost e = l[k - start];
            proof {
                if has_row(e0, i as int) {
                    let q = choose|q: int| 0 <= q < e0.len() && #[trigger] e0[q].0 == i;
                    assert(l[q].0 == l[k - start].0);
                }
            }
            res.dense_exist.values.set(i, true);
            res.sparse_i.values.push(lane.matrix.i.values[k]);
            res.dense_x.set(i, lane.matrix.x[k]);
            proof {
                let e1 = res.entries();
                assert(!has_row(e0, i as int));
                assert forall|q: int| 0 <= q < e0.len() implies #[trigger] e1[q] == e0[q] by {
                    assert(e0[q].0 != i);
                }
                assert(e1[e0.len() as int] == e);
                assert(e1 =~= e0.push(e));
                assert(e0.push(e) =~= l.take(k + 1 - start));
                assert forall|r: int| has_row(e1, r) <==> (has_row(e0, r) || r == i) by {
                    if has_row(e1, r) {
                        let q = choose|q: int| 0 <= q < e1.len() && #[trigger] e1[q].0 == r;
                        if q < e0.len() {
                            assert(e0[q].0 == r);
                        }
                    }
                    if has_row(e0, r) {
                        let q = choose|q: int| 0 <= q < e0.len() && #[trigger] e0[q].0 == r;
                        assert(e1[q].0 == r);
                    }
                    if r == i {
                        assert(e1[e0.len() as int].0 == r);
                    }
                }
                assert(distinct_rows(e1)) by {
                    assert forall|x: int, y: int|
                        0 <= x < e1.len() && 0 <= y < e1.len() && x != y implies #[trigger] e1[x].0
                        != #[trigger] e1[y].0 by {
                        assert(e1[x].0 == l[x].0 && e1[y].0 == l[y].0);
                    }
                }
            }
            k += 1;
        }
        proof {
            assert(l.take(end - start) =~= l);
        }
        res
    }
}

} // verus!
