use logic_circuit::cct_mesh::root::range_inc;

#[test]
fn test_range_inc() {
    assert_eq!(range_inc(0, 0).collect_vec(), vec![0]);
    assert_eq!(range_inc(3, 0).collect_vec(), vec![3, 2, 1, 0]);
    assert_eq!(range_inc(0, 3).collect_vec(), vec![0, 1, 2, 3]);
    assert_eq!(range_inc(4, 7).collect_vec(), vec![4, 5, 6, 7]);
}

#[test]
fn range_next_ends() {
    let mut r = range_inc(2, 1);
    assert_eq!(r.next(), Some(2));
    assert_eq!(r.next(), Some(1));
    assert_eq!(r.next(), None);
    assert_eq!(r.next(), None);
}

#[test]
fn range_reaches_the_largest_index() {
    assert_eq!(range_inc(usize::MAX - 1, usize::MAX).collect_vec(), vec![usize::MAX - 1, usize::MAX]);
    assert_eq!(range_inc(1, 0).collect_vec(), vec![1, 0]);
}
