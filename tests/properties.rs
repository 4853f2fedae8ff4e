use sparse::{
    add_ax, mat_mul, CoordsMatrix, DLaneWorkspace, MatMulError, SLaneAccessor, SMatrix,
};

fn coords(i: Vec<u32>, j: Vec<u32>, x: Vec<i64>) -> CoordsMatrix {
    CoordsMatrix { i, j, x }
}

#[test]
fn dedup_on_canonical_matrix_changes_nothing() {
    let coo = coords(vec![2, 0, 1, 0], vec![0, 0, 1, 2], vec![5, -3, 7, 9]);
    let m = SMatrix::from_coords_no_dedup((3, 3), &coo);
    let d = m.clone().dedup_accumulate();
    assert_eq!(d.p.values, m.p.values);
    assert_eq!(d.i.values, m.i.values);
    assert_eq!(d.x, m.x);
    assert_eq!(d.clone().dedup_accumulate(), d);
}

#[test]
fn dedup_merges_one_duplicate_pair() {
    let coo = coords(vec![0, 1, 0, 2], vec![1, 0, 1, 2], vec![3, 4, 5, 6]);
    let m = SMatrix::from_coords_dedup_accumulate((3, 3), &coo);
    assert_eq!(m.get_nnz(), 4 - 1);
    assert_eq!(m.p.values, vec![0, 1, 2, 3]);
    assert_eq!(m.i.values, vec![1, 0, 2]);
    assert_eq!(m.get_x(), &[4, 8, 6]);
}

#[test]
fn accumulation_places_sums() {
    let coo = coords(vec![1, 1, 1, 0, 0, 0], vec![1, 1, 1, 0, 0, 0], vec![1, 2, 3, 4, 5, 6]);
    let m = SMatrix::from_coords_dedup_accumulate((2, 4), &coo);
    assert_eq!(m.get_nnz(), 2);
    let d = m.to_dense_row_major(0);
    assert_eq!(d, vec![15, 0, 0, 0, 0, 6, 0, 0]);
}

#[test]
fn duplicates_fold_in_reading_order_with_first_slot() {
    let coo = coords(vec![2, 0, 2, 0, 2], vec![0, 0, 0, 0, 0], vec![1, 10, 100, 1000, 10000]);
    let m = SMatrix::from_coords_dedup_accumulate((3, 1), &coo);
    assert_eq!(m.i.values, vec![2, 0]);
    assert_eq!(m.get_x(), &[10101, 1010]);
}

#[test]
fn from_coords_no_dedup_sorts_stably_by_column() {
    let coo = coords(vec![0, 1, 2, 1], vec![2, 0, 2, 0], vec![1, 2, 3, 4]);
    let m = SMatrix::from_coords_no_dedup((3, 3), &coo);
    assert_eq!(m.get_shape(), (3, 3));
    assert_eq!(m.p.values, vec![0, 2, 2, 4]);
    assert_eq!(m.i.values, vec![1, 1, 0, 2]);
    assert_eq!(m.get_x(), &[2, 4, 1, 3]);
}

#[test]
fn empty_coordinates_give_empty_matrix() {
    let coo = coords(vec![], vec![], vec![]);
    let m = SMatrix::from_coords_dedup_accumulate((0, 0), &coo);
    assert_eq!(m.get_nnz(), 0);
    assert_eq!(m.p.values, vec![0]);
    assert!(m.to_dense_row_major(0).is_empty());
}

#[test]
fn round_trip_rebuilds_the_canonical_matrix() {
    let coo = coords(vec![3, 0, 3, 1, 2, 0], vec![1, 0, 1, 2, 0, 0], vec![1, 2, 3, 4, 5, 6]);
    let m = SMatrix::from_coords_dedup_accumulate((4, 3), &coo);
    let back = m.clone().to_coords();
    assert_eq!(back.j, vec![0, 0, 1, 2]);
    assert_eq!(back.i, vec![0, 2, 3, 1]);
    assert_eq!(back.x, vec![8, 5, 4, 4]);
    let again = SMatrix::from_coords_dedup_accumulate((4, 3), &back);
    assert_eq!(again, m);
}

#[test]
fn dense_layouts_place_each_entry() {
    // 2 rows, 3 columns: (0,1)=7, (1,0)=8, (1,2)=9
    let coo = coords(vec![0, 1, 1], vec![1, 0, 2], vec![7, 8, 9]);
    let m = SMatrix::from_coords_dedup_accumulate((2, 3), &coo);
    assert_eq!(m.to_dense_row_major(-1), vec![-1, 7, -1, 8, -1, 9]);
    assert_eq!(m.to_dense_column_major(-1), vec![-1, 8, 7, -1, -1, 9]);
}

#[test]
fn multiply_rejects_mismatched_shapes() {
    let a = SMatrix::from_coords_dedup_accumulate((2, 3), &coords(vec![0], vec![0], vec![1]));
    let b = SMatrix::from_coords_dedup_accumulate((2, 2), &coords(vec![0], vec![0], vec![1]));
    assert_eq!(mat_mul(&a, &b), Err(MatMulError::ShapeMismatch { a_cols: 3, b_rows: 2 }));
}

#[test]
fn multiply_gives_product_shape() {
    // a is 2x3, b is 3x1
    let a = SMatrix::from_coords_dedup_accumulate(
        (2, 3),
        &coords(vec![0, 1, 0], vec![0, 1, 2], vec![2, 3, 4]),
    );
    let b = SMatrix::from_coords_dedup_accumulate(
        (3, 1),
        &coords(vec![0, 1, 2], vec![0, 0, 0], vec![1, 10, 100]),
    );
    let c = mat_mul(&a, &b).unwrap();
    assert_eq!(c.get_shape(), (2, 1));
    assert_eq!(c.to_dense_row_major(0), vec![402, 30]);
}

#[test]
fn multiply_worked_example_values() {
    let coo = coords(vec![0, 1, 2, 1, 2, 2], vec![0, 0, 0, 1, 1, 2], vec![10, 1, 1, 1, 1, 100]);
    let a = SMatrix::from_coords_dedup_accumulate((3, 3), &coo);
    let c = mat_mul(&a, &a).unwrap();
    let mut got: Vec<i64> = c.get_x().to_vec();
    got.sort();
    assert_eq!(got, vec![1, 11, 100, 101, 111, 10000]);
    assert_eq!(c.to_dense_row_major(0), vec![100, 0, 0, 11, 1, 0, 111, 101, 10000]);
}

#[test]
fn accumulate_with_empty_lane_leaves_workspace_alone() {
    let a = SMatrix::from_coords_dedup_accumulate((2, 2), &coords(vec![0, 1], vec![0, 1], vec![3, 4]));
    let empty = SMatrix::from_coords_dedup_accumulate((2, 1), &coords(vec![], vec![], vec![]));
    let mut y = DLaneWorkspace::new(2);
    let before = y.clone();
    add_ax(&mut y, &a, SLaneAccessor::from_matrix_lane(&empty, 0));
    assert_eq!(y, before);
    assert!(y.sparse_i.values.is_empty());
}

#[test]
fn accumulate_appends_rows_in_first_touch_order() {
    let a = SMatrix::from_coords_dedup_accumulate(
        (3, 2),
        &coords(vec![2, 0, 0], vec![0, 0, 1], vec![1, 2, 3]),
    );
    let x = SMatrix::from_coords_dedup_accumulate((2, 1), &coords(vec![1, 0], vec![0, 0], vec![5, 7]));
    let mut y = DLaneWorkspace::new(3);
    add_ax(&mut y, &a, SLaneAccessor::from_matrix_lane(&x, 0));
    assert_eq!(y.sparse_i.values, vec![0, 2]);
    assert_eq!(y.dense_x[0], 15 + 14);
    assert_eq!(y.dense_x[2], 7);
    assert_eq!(y.dense_x[1], 0);
    assert_eq!(y.dense_exist.values, vec![true, false, true]);
}

#[test]
fn workspace_from_sparse_lane_holds_its_entries() {
    let m = SMatrix::from_coords_dedup_accumulate((4, 2), &coords(vec![3, 1], vec![1, 1], vec![6, 9]));
    let lane = SLaneAccessor::from_matrix_lane(&m, 1);
    assert_eq!(lane.value_range(), 0..2);
    let w = DLaneWorkspace::new_from_sparse(&lane);
    assert_eq!(w.m(), 4);
    assert_eq!(w.sparse_i.values, vec![3, 1]);
    assert_eq!(w.dense_exist.values, vec![false, true, false, true]);
    assert_eq!(w.dense_x[3], 6);
    assert_eq!(w.dense_x[1], 9);
}
