use vstd::prelude::*;

use crate::csc_storage::{lane_from, SLaneAccessor, SMatrix};
use crate::int_storage::{IdxStorage, IDX_MAX};
use crate::lane_workspace::DLaneWorkspace;
use crate::lanes::{
    absorb, absorb_one, distinct_rows, has_row, row_pos, summed, sums_fit, wrapping_sum,
};

verus! {

/// The lane `l` with every value multiplied (in two's complement) by `v`.
pub open spec fn scaled(l: Seq<(int, i64)>, v: i64) -> Seq<(int, i64)> {
    Seq::new(l.len(), |k: int| (l[k].0, l[k].1.wrapping_mul(v)))
}

/// The products that `a * x` is summed from, in the order of the computation: for each entry
/// `(j, v)` of the sparse column `x`, the entries of column `j` of `a` times `v`.
pub open spec fn contributions(a: SMatrix, x: Seq<(int, i64)>) -> Seq<(int, i64)>
    decreases x.len(),
{
    if x.len() == 0 {
        Seq::empty()
    } else {
        contributions(a, x.drop_last()) + scaled(a.lane(x.last().0), x.last().1)
    }
}

/// Every product that `contributions(a, x)` is made of fits in `i64`.
pub open spec fn products_fit(a: SMatrix, x: Seq<(int, i64)>) -> bool
    decreases x.len(),
{
    if x.len() == 0 {
        true
    } else {
        &&& products_fit(a, x.drop_last())
        &&& forall|k: int|
            0 <= k < a.lane(x.last().0).len() ==> i64::MIN <= #[trigger] a.lane(x.last().0)[k].1
                * x.last().1 <= i64::MAX
    }
}

/// Column `j` of the product `a * b`: one entry per row that the products reach, in
/// first-touch order, holding the sum of that row's products.
pub open spec fn product_lane(a: SMatrix, b: SMatrix, j: int) -> Seq<(int, i64)> {
    summed(contributions(a, b.lane(j)))
}

/// The number of entries in the first `c` columns of the product `a * b`.
pub open spec fn product_nnz(a: SMatrix, b: SMatrix, c: int) -> nat
    decreases c,
{
    if c <= 0 {
        0
    } else {
        product_nnz(a, b, c - 1) + product_lane(a, b, c - 1).len()
    }
}

proof fn lemma_product_nnz_mono(a: SMatrix, b: SMatrix, c: int, d: int)
    requires
        0 <= c <= d,
    ensures
        product_nnz(a, b, c) <= product_nnz(a, b, d),
    decreases d - c,
{
    if c < d {
        lemma_product_nnz_mono(a, b, c, d - 1);
    }
}

/// Adds `v` into row `i` of the workspace, touching the row if it was untouched.
fn accumulate_one(y: &mut DLaneWorkspace, i: usize, v: i64)
    requires
        old(y).wf(),
        i < old(y).dense_x@.len(),
        i <= IDX_MAX,
    ensures
        final(y).wf(),
        final(y).dense_x@.len() == old(y).dense_x@.len(),
        final(y).entries() == absorb_one(old(y).entries(), (i as int, v), wrapping_sum()),
        forall|r: int|
            has_row(final(y).entries(), r) <==> (has_row(old(y).entries(), r) || r == i),
        forall|r: int|
            0 <= r < old(y).dense_x@.len() && r != i ==> final(y).dense_x@[r] == old(y).dense_x@[r],
{
    let ghost e0 = y.entries();
    let ghost s0 = y.sparse_i.values@;
    if y.dense_exist.values[i] {
        let cur = y.dense_x[i];
        y.dense_x.set(i, cur.wrapping_add(v));
        proof {
            let q = row_pos(e0, i as int);
            assert(e0[q].0 == i);
            let e1 = y.entries();
            assert forall|t: int| 0 <= t < e0.len() && t != q implies #[trigger] e1[t] == e0[t] by {
                assert(e0[t].0 != e0[q].0);
            }
            assert(e1 =~= e0.update(q, (i as int, wrapping_sum()(e0[q].1, v))));
            assert(has_row(e0, i as int));
            assert forall|r: int| has_row(e1, r) <==> has_row(e0, r) by {
                if has_row(e1, r) {
                    let t = choose|t: int| 0 <= t < e1.len() && #[trigger] e1[t].0 == r;
                    assert(e0[t].0 == r);
                }
                if has_row(e0, r) {
                    let t = choose|t: int| 0 <= t < e0.len() && #[trigger] e0[t].0 == r;
                    assert(e1[t].0 == r);
                }
            }
            assert(distinct_rows(e1)) by {
                assert forall|x: int, z: int|
                    0 <= x < e1.len() && 0 <= z < e1.len() && x != z implies #[trigger] e1[x].0
                    != #[trigger] e1[z].0 by {
                    assert(e1[x].0 == e0[x].0 && e1[z].0 == e0[z].0);
                }
            }
        }
    } else {
        y.dense_exist.values.set(i, true);
        y.sparse_i.values.push(i as u32);
        y.dense_x.set(i, v);
        proof {
            let e = (i as int, v);
            let e1 = y.entries();
            assert(!has_row(e0, i as int));
            assert forall|q: int| 0 <= q < e0.len() implies #[trigger] e1[q] == e0[q] by {
                assert(e0[q].0 != i);
            }
            assert(e1 =~= e0.push(e));
            assert forall|r: int| has_row(e1, r) <==> (has_row(e0, r) || r == i) by {
                if has_row(e1, r) {
                    let q = choose|q: int| 0 <= q < e1.len() && #[trigger] e1[q].0 == r;
                    if q < e0.len() {
                        assert(e0[q].0 == r);
                    }
                }
                if has_row(e0, r) {
                    let q = choose|q: int| 0 <= q < e0.len() && #[trigger] e0[q].0 == r;
                    assert(e1[q].0 == r);
                }
                if r == i {
                    assert(e1[e0.len() as int].0 == r);
                }
            }
            assert(distinct_rows(e1)) by {
                assert forall|x: int, z: int|
                    0 <= x < e1.len() && 0 <= z < e1.len() && x != z implies #[trigger] e1[x].0
                    != #[trigger] e1[z].0 by {
                    if x < e0.len() && z < e0.len() {
                        assert(e1[x].0 == e0[x].0 && e1[z].0 == e0[z].0);
                    } else if x < e0.len() {
                        assert(e1[x].0 == e0[x].0);
                    } else {
                        assert(e1[z].0 == e0[z].0);
                    }
                }
            }
        }
    }
}

/// Adds `a * x` into the workspace `y`, where `x` is a sparse column: each product is added
/// into its row, and a row touched for the first time is appended to the touched list.
/// Every product, and every sum formed in the workspace, must fit in `i64`.
pub fn add_ax(y: &mut DLaneWorkspace, a: &SMatrix, x: SLaneAccessor)
    requires
        old(y).wf(),
        a.wf(),
        x.matrix.wf(),
        x.j < x.matrix.n,
        a.n == x.matrix.m,
        a.m == old(y).dense_x@.len(),
        products_fit(*a, x.lane()),
        sums_fit(old(y).entries(), contributions(*a, x.lane())),
    ensures
        final(y).wf(),
        final(y).dense_x@.len() == old(y).dense_x@.len(),
        final(y).entries() == absorb(old(y).entries(), contributions(*a, x.lane()), wrapping_sum()),
        forall|r: int|
            0 <= r < old(y).dense_x@.len() && !has_row(final(y).entries(), r)
                ==> final(y).dense_x@[r] == old(y).dense_x@[r],
        x.lane().len() == 0 ==> *final(y) == *old(y),
{
    let ghost y0 = *y;
    let ghost xl = x.lane();
    let range = x.value_range();
    let xs = range.start;
    let xe = range.end;
    proof {
        assert(x.matrix.col_start(x.j as int) <= x.matrix.col_start(x.j + 1));
        assert(x.matrix.col_start(x.j + 1) <= x.matrix.col_start(x.matrix.n as int));
        assert(xl.take(0) =~= Seq::<(int, i64)>::empty());
    }
    let mut kx = xs;
    while kx < xe
        invariant
            a.wf(),
            x.matrix.wf(),
            x.j < x.matrix.n,
            a.n == x.matrix.m,
            xl == x.lane(),
            xs == x.matrix.col_start(x.j as int),
            xe == x.matrix.col_start(x.j + 1),
            xe <= x.matrix.nnz(),
            xs <= kx <= xe,
            y.wf(),
            y.dense_x@.len() == a.m,
            y.entries() == absorb(y0.entries(), contributions(*a, xl.take(kx - xs)), wrapping_sum()),
            kx == xs ==> *y == y0,
            forall|r: int|
                0 <= r < a.m && !has_row(y.entries(), r) ==> y.dense_x@[r] == y0.dense_x@[r],
        decreases xe - kx,
    {
        let j = x.matrix.i.get(kx);
        let xv = x.matrix.x[kx];
        let ghost k = kx - xs;
        let ghost c0 = contributions(*a, xl.take(k));
        let ghost sc = scaled(a.lane(j as int), xv);
        let ka_start = a.p.get(j);
        let ka_end = a.p.get(j + 1);
        proof {
            assert(xl.take(k + 1).drop_last() =~= xl.take(k));
            assert(xl.take(k + 1).last() == (j as int, xv));
            assert(a.col_start(j as int) <= a.col_start(j + 1));
            assert(a.col_start(j + 1) <= a.col_start(a.n as int));
            assert(sc.take(0) =~= Seq::<(int, i64)>::empty());
            assert(c0 + sc.take(0) =~= c0);
        }
        let mut ka = ka_start;
        while ka < ka_end
            invariant
                a.wf(),
                j < a.n,
                ka_start == a.col_start(j as int),
                ka_end == a.col_start(j + 1),
                ka_end <= a.nnz(),
                ka_start <= ka <= ka_end,
                sc == scaled(a.lane(j as int), xv),
                y.wf(),
                y.dense_x@.len() == a.m,
                y.entries() == absorb(y0.entries(), c0 + sc.take(ka - ka_start), wrapping_sum()),
                forall|r: int|
                    0 <= r < a.m && !has_row(y.entries(), r) ==> y.dense_x@[r] == y0.dense_x@[r],
            decreases ka_end - ka,
        {
            let i = a.i.get(ka);
            let prod = a.x[ka].wrapping_mul(xv);
            proof {
                let t = ka - ka_start;
                assert((c0 + sc.take(t + 1)).drop_last() =~= c0 + sc.take(t));
                assert((c0 + sc.take(t + 1)).last() == (i as int, prod));
            }
            accumulate_one(y, i, prod);
            ka += 1;
        }
        proof {
            assert(sc.take(ka_end - ka_start) =~= sc);
        }
        kx += 1;
    }
    proof {
        assert(xl.take(xe - xs) =~= xl);
    }
}

/// Why a product cannot be formed.
#[derive(Debug, Clone, Copy, PartialEq, Eq)]
pub enum MatMulError {
    /// The left factor's column count differs from the right factor's row count.
    ShapeMismatch { a_cols: usize, b_rows: usize },
    /// The product has more entries than the index type can count.
    IndexOverflow,
}

/// Computes `a * b` column by column (Gustavson's method): column `j` of the product gathers,
/// in a workspace of `a.m` slots reused for every column, the products of column `j` of `b`.
/// Where the shapes agree, every product and every partial sum must fit in `i64`.
pub fn mat_mul(a: &SMatrix, b: &SMatrix) -> (r: Result<SMatrix, MatMulError>)
    requires
        a.wf(),
        b.wf(),
        a.n == b.m ==> forall|j: int|
            0 <= j < b.n ==> products_fit(*a, #[trigger] b.lane(j)) && sums_fit(
                Seq::empty(),
                contributions(*a, b.lane(j)),
            ),
    ensures
        (a.n != b.m) <==> r == Err::<SMatrix, MatMulError>(
            (MatMulError::ShapeMismatch { a_cols: a.n, b_rows: b.m }),
        ),
        (a.n == b.m && product_nnz(*a, *b, b.n as int) > IDX_MAX) <==> r == Err::<
            SMatrix,
            MatMulError,
        >(MatMulError::IndexOverflow),
        (a.n == b.m && product_nnz(*a, *b, b.n as int) <= IDX_MAX) ==> r is Ok,
        r matches Ok(c) ==> {
            &&& c.wf()
            &&& c.m == a.m
            &&& c.n == b.n
            &&& forall|j: int| 0 <= j < b.n ==> #[trigger] c.lane(j) == product_lane(*a, *b, j)
        },
{
    if a.n != b.m {
        return Err(MatMulError::ShapeMismatch { a_cols: a.n, b_rows: b.m });
    }
    let cm = a.m;
    let cn = b.n;
    let mut cp = IdxStorage::from(vec![0u32; cn + 1]);
    let mut ci = IdxStorage::from(Vec::new());
    let mut cx: Vec<i64> = Vec::new();
    let mut ws = DLaneWorkspace::new(cm);
    let mut j: usize = 0;
    while j < cn
        invariant
            a.wf(),
            b.wf(),
            a.n == b.m,
            forall|jj: int|
                0 <= jj < b.n ==> products_fit(*a, #[trigger] b.lane(jj)) && sums_fit(
                    Seq::empty(),
                    contributions(*a, b.lane(jj)),
                ),
            cm == a.m,
            cn == b.n,
            j <= cn,
            ws.wf(),
            ws.dense_x@.len() == cm,
            ws.entries() == Seq::<(int, i64)>::empty(),
            cp.values@.len() == cn + 1,
            cp.values@[0] == 0,
            forall|c: int| 0 <= c <= j ==> #[trigger] cp.values@[c] == product_nnz(*a, *b, c),
            forall|c: int| j < c <= cn ==> #[trigger] cp.values@[c] == 0,
            ci.values@.len() == cp.values@[j as int],
            cx@.len() == cp.values@[j as int],
            forall|c: int|
                0 <= c < j ==> #[trigger] lane_from(
                    ci.values@,
                    cx@,
                    cp.values@[c] as int,
                    cp.values@[c + 1] as int,
                ) == product_lane(*a, *b, c),
            forall|q: int| 0 <= q < ci.values@.len() ==> #[trigger] ci.values@[q] < cm,
        decreases cn - j,
    {
        proof {
            assert(products_fit(*a, b.lane(j as int)));
        }
        add_ax(&mut ws, a, SLaneAccessor::from_matrix_lane(b, j));
        let ghost e = ws.entries();
        proof {
            assert(absorb(Seq::empty(), contributions(*a, b.lane(j as int)), wrapping_sum())
                == product_lane(*a, *b, j as int));
        }
        let cnt = ws.sparse_i.values.len();
        let base = cp.get(j);
        if cnt > IDX_MAX - base {
            proof {
                lemma_product_nnz_mono(*a, *b, j + 1, cn as int);
            }
            return Err(MatMulError::IndexOverflow);
        }
        let ghost ci0 = ci.values@;
        let ghost cx0 = cx@;
        let ghost s = ws.sparse_i.values@;
        let ghost dx = ws.dense_x@;
        proof {
            assert forall|r: int|
                0 <= r < cm implies (#[trigger] ws.dense_exist.values@[r] <==> exists|q: int|
                0 <= q < s.len() && #[trigger] s[q] == r) by {
                if has_row(e, r) {
                    let q = choose|q: int| 0 <= q < e.len() && #[trigger] e[q].0 == r;
                    assert(s[q] == r);
                }
                if exists|q: int| 0 <= q < s.len() && #[trigger] s[q] == r {
                    let q = choose|q: int| 0 <= q < s.len() && #[trigger] s[q] == r;
                    assert(e[q].0 == r);
                }
            }
        }
        let mut t: usize = 0;
        while t < cnt
            invariant
                cnt == s.len(),
                t <= cnt,
                ws.sparse_i.values@ == s,
                ws.dense_x@ == dx,
                ws.dense_exist.values@.len() == cm,
                dx.len() == cm,
                e == ws.entries(),
                distinct_rows(e),
                forall|q: int| 0 <= q < s.len() ==> #[trigger] s[q] < cm,
                forall|r: int|
                    0 <= r < cm ==> (#[trigger] ws.dense_exist.values@[r] <==> exists|q: int|
                        t <= q < s.len() && #[trigger] s[q] == r),
                cx@ == cx0 + e.take(t as int).map_values(|p: (int, i64)| p.1),
            decreases cnt - t,
        {
            let i = ws.sparse_i.get(t);
            let v = ws.dense_x[i];
            cx.push(v);
            ws.dense_exist.values.set(i, false);
            proof {
                assert(e.take(t + 1).map_values(|p: (int, i64)| p.1) =~= e.take(t as int).map_values(
                    |p: (int, i64)| p.1,
                ).push(v));
                assert forall|r: int|
                    0 <= r < cm implies (#[trigger] ws.dense_exist.values@[r] <==> exists|q: int|
                    t + 1 <= q < s.len() && #[trigger] s[q] == r) by {
                    if r != i && exists|q: int| t <= q < s.len() && #[trigger] s[q] == r {
                        let q = choose|q: int| t <= q < s.len() && #[trigger] s[q] == r;
                        assert(q != t);
                    }
                    if exists|q: int| t + 1 <= q < s.len() && #[trigger] s[q] == r {
                        let q = choose|q: int| t + 1 <= q < s.len() && #[trigger] s[q] == r;
                        if r == i {
                            assert(e[q].0 == e[t as int].0);
                        }
                    }
                }
            }
            t += 1;
        }
        ci.values.append(&mut ws.sparse_i.values);
        cp.set(j + 1, base + cnt);
        proof {
            assert(e.take(cnt as int) =~= e);
            assert(ws.entries() =~= Seq::<(int, i64)>::empty());
            assert forall|r: int| 0 <= r < cm implies !(#[trigger] ws.dense_exist.values@[r]) by {}
            let nl = lane_from(ci.values@, cx@, base as int, (base + cnt) as int);
            assert(nl =~= e);
            assert forall|c: int| 0 <= c < j implies #[trigger] lane_from(
                ci.values@,
                cx@,
                cp.values@[c] as int,
                cp.values@[c + 1] as int,
            ) == product_lane(*a, *b, c) by {
                lemma_product_nnz_mono(*a, *b, c + 1, j as int);
                assert(lane_from(ci.values@, cx@, cp.values@[c] as int, cp.values@[c + 1] as int)
                    =~= lane_from(ci0, cx0, cp.values@[c] as int, cp.values@[c + 1] as int));
            }
        }
        j += 1;
    }
    let c = SMatrix { m: cm, n: cn, p: cp, i: ci, x: cx };
    proof {
        assert forall|x: int, y: int| 0 <= x <= y <= cn implies #[trigger] c.col_start(x)
            <= #[trigger] c.col_start(y) by {
            lemma_product_nnz_mono(*a, *b, x, y);
        }
    }
    Ok(c)
}

} // verus!
