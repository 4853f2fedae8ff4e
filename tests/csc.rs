use sparse::{CoordsMatrix, SMatrix};

#[test]
fn matrix_from_coords_dedup_noop_1() {
    let i: Vec<u32> = vec![0, 1, 2, 3, 5];
    let j: Vec<u32> = vec![0, 1, 3, 2, 3];
    let x: Vec<i64> = vec![0; 5];
    let coo = CoordsMatrix { i, j, x };
    let m = SMatrix::from_coords_no_dedup((6, 4), &coo);
    let m2 = m.clone().dedup_accumulate();
    assert!(m == m2);
    assert!(SMatrix::from_coords_dedup_accumulate((6, 4), &coo) == m2);
}

#[test]
fn matrix_from_coords_dedup_noop_2() {
    let i: Vec<u32> = vec![0, 1, 1];
    let j: Vec<u32> = vec![0, 1, 1];
    let x: Vec<i64> = vec![0; 3];
    let coo = CoordsMatrix { i, j, x };
    let m = SMatrix::from_coords_no_dedup((2, 2), &coo);
    let m2 = m.clone().dedup_accumulate();
    assert!(m != m2);
    assert!(m2.get_nnz() == 2);
    assert!(SMatrix::from_coords_dedup_accumulate((2, 2), &coo) == m2);
}

#[test]
fn matrix_from_coords_dedup_op_1() {
    let i: Vec<u32> = vec![1, 1, 1, 0, 0, 0];
    let j: Vec<u32> = vec![1, 1, 1, 0, 0, 0];
    let x: Vec<i64> = vec![1, 2, 3, 4, 5, 6];
    let coo = CoordsMatrix { i, j, x };

    let m = SMatrix::from_coords_dedup_accumulate((2, 4), &coo);
    assert!(m.get_x().len() == 2 && m.get_x()[0] == 15 && m.get_x()[1] == 6);
    assert!(m.to_dense_row_major(0).len() == 8);
    assert!(m.to_dense_column_major(0).len() == 8);
}
