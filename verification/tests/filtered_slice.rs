use fastgridcache::FilteredSlice;

#[test]
fn create_view_from_vector() {
    let array = vec![0u32, 1, 2, 3, 4, 5, 6, 7, 8, 9, 10];
    let mut res = FilteredSlice::create(array, vec![1, 4, 7]);

    assert_eq!(res.len(), 3);
    assert_eq!(*res.get(1), 4);
    res.set(2, 5000);
    assert_eq!(res.get_raw_ref()[7], 5000);
}

#[test]
fn create_view_from_slice() {
    let array = vec![0, 1, 2, 3, 4, 5, 6, 7, 8, 9, 10];
    let mut res = FilteredSlice::create((&array[2..6]).to_owned(), vec![0, 1, 3]);

    assert_eq!(res.len(), 3);
    assert_eq!(*res.get(1), 3);
    res.set(2, 1000);
    assert_eq!(*res.get(2), 1000);
    assert_eq!(res.get_raw_ref()[3], 1000);
}

#[test]
fn indices_are_sorted() {
    let res = FilteredSlice::create(vec![10u64, 11, 12, 13, 14, 15, 16, 17], vec![7, 1, 4]);

    assert_eq!(res.len(), 3);
    assert_eq!(*res.get(0), 11);
    assert_eq!(*res.get(1), 14);
    assert_eq!(*res.get(2), 17);
}

#[test]
fn repeated_indices_count_once() {
    let res = FilteredSlice::create(vec![10u64, 11, 12, 13, 14], vec![3, 1, 3, 1, 1, 0]);

    assert_eq!(res.len(), 3);
    assert_eq!(*res.get(0), 10);
    assert_eq!(*res.get(1), 11);
    assert_eq!(*res.get(2), 13);
}

#[test]
fn empty_view_leaves_the_buffer_whole() {
    let res = FilteredSlice::create(vec![1u8, 2, 3], vec![]);

    assert_eq!(res.len(), 0);
    assert_eq!(res.get_raw_ref(), &vec![1u8, 2, 3]);
}

#[test]
fn set_touches_one_position_only() {
    let mut res = FilteredSlice::create(vec![0u64, 1, 2, 3, 4], vec![4, 2]);

    res.set(0, 20);
    assert_eq!(res.get_raw_ref(), &vec![0u64, 1, 20, 3, 4]);
    assert_eq!(*res.get(1), 4);
    assert_eq!(res.len(), 2);
}
