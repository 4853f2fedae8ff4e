use vstd::prelude::*;

use crate::int_storage::{IdxStorage, IDX_MAX};

verus! {

/// The entries stored at positions `a .. b`, as (row, value) pairs.
pub open spec fn lane_from(rows: Seq<u32>, vals: Seq<i64>, a: int, b: int) -> Seq<(int, i64)> {
    Seq::new((b - a) as nat, |k: int| (rows[a + k] as int, vals[a + k]))
}

/// A sparse matrix of `m` rows and `n` columns in compressed-sparse-column form:
/// the entries of column `j` sit at positions `p[j] .. p[j + 1]` of `i` (rows) and `x` (values).
#[derive(Debug, Clone, PartialEq, Eq)]
pub struct SMatrix {
    pub m: usize,
    pub n: usize,
    pub p: IdxStorage,
    pub i: IdxStorage,
    pub x: Vec<i64>,
}

impl SMatrix {
    pub open spec fn nnz(&self) -> int {
        self.x@.len() as int
    }

    pub open spec fn col_start(&self, j: int) -> int {
        self.p.values@[j] as int
    }

    /// The column pointers are in order from 0 to the entry count, the row and value arrays
    /// agree in length, every row lies below `m`, and `m`, `n` and the entry count fit the
    /// index type (and `n + 1` fits in `usize`).
    pub open spec fn wf(&self) -> bool {
        &&& self.p.values@.len() == self.n + 1
        &&& self.p.values@[0] == 0
        &&& self.col_start(self.n as int) == self.nnz()
        &&& forall|a: int, b: int|
            0 <= a <= b <= self.n ==> #[trigger] self.col_start(a) <= #[trigger] self.col_start(b)
        &&& self.i.values@.len() == self.x@.len()
        &&& forall|q: int| 0 <= q < self.nnz() ==> #[trigger] self.i.values@[q] < self.m
        &&& self.m <= IDX_MAX
        &&& self.n <= IDX_MAX
        &&& self.n < usize::MAX
    }

    /// Column `j` as (row, value) pairs in storage order.
    pub open spec fn lane(&self, j: int) -> Seq<(int, i64)> {
        lane_from(self.i.values@, self.x@, self.col_start(j), self.col_start(j + 1))
    }
}

/// A matrix in coordinate form: entry `k` holds value `x[k]` at row `i[k]`, column `j[k]`.
/// Entries may repeat a position and come in any order.
#[derive(Debug, Clone, PartialEq, Eq)]
pub struct CoordsMatrix {
    pub i: Vec<u32>,
    pub j: Vec<u32>,
    pub x: Vec<i64>,
}

impl CoordsMatrix {
    /// The entries as (row, column, value) triples.
    pub open spec fn triples(&self) -> Seq<(int, int, i64)> {
        Seq::new(self.x@.len(), |k: int| (self.i@[k] as int, self.j@[k] as int, self.x@[k]))
    }

    /// The three arrays agree in length and every entry lies inside a `rows` by `cols` shape.
    pub open spec fn fits(&self, rows: int, cols: int) -> bool {
        &&& self.i@.len() == self.x@.len()
        &&& self.j@.len() == self.x@.len()
        &&& forall|k: int| 0 <= k < self.x@.len() ==> #[trigger] self.i@[k] < rows
        &&& forall|k: int| 0 <= k < self.x@.len() ==> #[trigger] self.j@[k] < cols
    }
}

/// A read-only view of column `j` of a matrix.
#[derive(Debug, PartialEq, Eq)]
pub struct SLaneAccessor<'a> {
    pub matrix: &'a SMatrix,
    pub j: usize,
}

impl<'a> SLaneAccessor<'a> {
    /// The entries of the viewed column.
    pub open spec fn lane(&self) -> Seq<(int, i64)> {
        self.matrix.lane(self.j as int)
    }

    pub fn from_matrix_lane(matrix: &'a SMatrix, j: usize) -> (r: Self)
        requires
            j < matrix.n,
        ensures
            r.matrix == matrix,
            r.j == j,
    {
        SLaneAccessor { matrix, j }
    }

    /// The positions of the viewed column's entries in the matrix's arrays.
    pub fn value_range(&self) -> (r: std::ops::Range<usize>)
        requires
            self.matrix.wf(),
            self.j < self.matrix.n,
        ensures
            r.start == self.matrix.col_start(self.j as int),
            r.end == self.matrix.col_start(self.j + 1),
    {
        self.matrix.p.get(self.j)..self.matrix.p.get(self.j + 1)
    }
}

} // verus!
