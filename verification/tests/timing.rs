use chess_engine::timing::duration_summary;

#[test]
fn duration_summary_statistics() {
    let nanos = vec![5, 3, 9, 3, 9, 1, 7];
    let s = duration_summary(&nanos, 1);
    assert_eq!((s.min, s.min_index), (1, 5));
    assert_eq!((s.max, s.max_index), (9, 2));
    assert_eq!(s.mean, 5);
    assert_eq!(s.middle_mean, 5);
    let one = duration_summary(&vec![42], 0);
    assert_eq!((one.min, one.max, one.mean, one.middle_mean), (42, 42, 42, 42));
    let ties = duration_summary(&vec![4, 2, 2, 8, 8], 0);
    assert_eq!((ties.min_index, ties.max_index), (1, 3));
    let big = duration_summary(&vec![u64::MAX, u64::MAX, 1], 1);
    assert_eq!(big.mean, (((u64::MAX as u128) * 2 + 1) / 3) as u64);
    assert_eq!(big.middle_mean, u64::MAX);
}
