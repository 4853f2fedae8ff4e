use sparse::IdxStorage;

#[test]
fn compiles() {
    let a: Vec<u32> = vec![1, 2, 3];
    let _store_vec = IdxStorage::from(a);

    let a: Vec<u32> = vec![1, 2, 3, 4];
    let s = &a[..];
    let _store_slice = IdxStorage::from(s.to_vec());
}

#[test]
fn idx_storage_get_set_round_trip() {
    let mut s = IdxStorage::from(vec![7, 8, 9]);
    assert_eq!(s.get(1), 8);
    s.set(1, 4_000_000_000);
    assert_eq!(s.get(1), 4_000_000_000);
    assert_eq!(s.values, vec![7, 4_000_000_000, 9]);
}
