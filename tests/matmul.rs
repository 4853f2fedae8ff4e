use sparse::{add_ax, mat_mul, CoordsMatrix, DLaneWorkspace, SLaneAccessor, SMatrix};

#[test]
fn matrix_dot_1() {
    let i: Vec<u32> = vec![1, 1, 0, 2, 2, 2];
    let j: Vec<u32> = vec![1, 1, 0, 0, 1, 2];
    let x: Vec<i64> = vec![1, 2, 2, 2, 3, 4];
    let coo = CoordsMatrix { i, j, x };
    let m = SMatrix::from_coords_dedup_accumulate((3, 3), &coo);
    let x: Vec<i64> = vec![1, 10, 100];
    let i: Vec<u32> = vec![0, 1, 2];
    let x_ = SMatrix::from_coords_dedup_accumulate((3, 1), &CoordsMatrix { i, j: vec![0; 3], x });
    let x = SLaneAccessor::from_matrix_lane(&x_, 0);
    // m = (2 0 0) \ (0 3 0) \ (2 3 4)
    // x = (1 10 100)
    let should_be: Vec<i64> = vec![2, 30, 432];
    let mut y = DLaneWorkspace::new(3);
    add_ax(&mut y, &m, x);
    assert!(y.dense_x.len() == 3 && y.sparse_i.values.len() == 3);
    assert!(y.dense_x.iter().zip(should_be).map(|tup| (tup.0 - tup.1).abs()).sum::<i64>() == 0);

    let x: Vec<i64> = vec![];
    let i: Vec<u32> = vec![];
    let x_ = SMatrix::from_coords_dedup_accumulate((3, 1), &CoordsMatrix { i: i.clone(), j: i, x });
    let x = SLaneAccessor::from_matrix_lane(&x_, 0);
    let mut y = DLaneWorkspace::new(3);
    add_ax(&mut y, &m, x);
    assert!(y.sparse_i.values.is_empty())
}

#[test]
fn matrix_mul_1() {
    let i: Vec<u32> = vec![0, 1, 2, 1, 2, 2];
    let j: Vec<u32> = vec![0, 0, 0, 1, 1, 2];
    let x: Vec<i64> = vec![10, 1, 1, 1, 1, 100];
    let coo = CoordsMatrix { i, j, x };
    let m = SMatrix::from_coords_dedup_accumulate((3, 3), &coo);
    let res = mat_mul(&m, &m).unwrap();
    let should_be: Vec<i64> = vec![100, 11, 111, 1, 101, 10000];
    assert!(res.get_x().len() == 6);
    assert!(res.get_x().iter().zip(should_be).map(|tup| (tup.0 - tup.1).abs()).sum::<i64>() == 0);
}
