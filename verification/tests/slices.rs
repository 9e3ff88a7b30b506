use orx_concurrent_vec::ConcurrentVec;

#[test]
fn slice_ranges_are_cut_to_the_length() {
    let vec = ConcurrentVec::from_iter(vec![0, 1, 2, 3, 4]);

    assert_eq!(vec.slice(1..5).clone_to_vec(), vec![1, 2, 3, 4]);
    assert_eq!(vec.slice(1..4).clone_to_vec(), vec![1, 2, 3]);
    assert_eq!(vec.slice(0..3).clone_to_vec(), vec![0, 1, 2]);
    assert_eq!(vec.slice(3..10).clone_to_vec(), vec![3, 4]);
    assert_eq!(vec.slice(7..9).clone_to_vec(), Vec::<i32>::new());
    assert_eq!(vec.slice(3..1).len(), 0);

    let slice = vec.slice(1..5);
    let sub_slice = slice.slice(1..3);
    assert_eq!(sub_slice.clone_to_vec(), vec![2, 3]);
    assert_eq!(vec.as_slice().clone_to_vec(), vec![0, 1, 2, 3, 4]);
}

#[test]
fn slice_reads() {
    let vec = ConcurrentVec::from_iter(vec![10, 0, 1, 2, 3, 14, 15]);
    let slice = vec.slice(1..5);
    assert_eq!(slice.len(), 4);
    assert!(!slice.is_empty());
    assert_eq!(slice.get_cloned(2), Some(2));
    assert_eq!(slice.get_cloned(4), None);
    assert_eq!(slice.get_copied(3), Some(3));
    assert!(slice.get(4).is_none());
    assert_eq!(slice.get(0).map(|e| e.copied()), Some(0));
    assert_eq!(slice.iter_cloned(), vec![0, 1, 2, 3]);
    assert_eq!(slice.iter().len(), 4);
    assert_eq!(slice.map(|x| x * 2), vec![0, 2, 4, 6]);
    assert_eq!(slice.fold(0, |s, x| s + x), 6);
    assert_eq!(slice.reduce(|a, b| a * b), Some(0));
    assert_eq!(slice.index_of(&2), Some(2));
    assert!(!slice.contains(&14));
    let odds: Vec<i32> = slice.filter(|x| x % 2 == 1).iter().map(|e| e.copied()).collect();
    assert_eq!(odds, vec![1, 3]);
}

#[test]
fn split_at_first_last() {
    let vec = ConcurrentVec::from_iter((0..8).collect());
    let (a, b) = vec.split_at(3);
    assert_eq!(a.clone_to_vec(), vec![0, 1, 2]);
    assert_eq!(b.clone_to_vec(), vec![3, 4, 5, 6, 7]);

    let vec = ConcurrentVec::from_iter((0..4).collect());
    let (a, b) = vec.split_first().unwrap();
    assert_eq!(a.copied(), 0);
    assert_eq!(b.clone_to_vec(), vec![1, 2, 3]);
    let (a, b) = vec.split_last().unwrap();
    assert_eq!(a.copied(), 3);
    assert_eq!(b.clone_to_vec(), vec![0, 1, 2]);

    let empty = ConcurrentVec::<i32>::new();
    assert!(empty.split_first().is_none());
    assert!(empty.split_last().is_none());
}

#[test]
fn chunks_cover_the_vec() {
    let vec = ConcurrentVec::from_iter(vec!['l', 'o', 'r', 'e', 'm']);
    let chunks = vec.chunks(2);
    assert_eq!(chunks.len(), 3);
    assert_eq!(chunks[0].clone_to_vec(), vec!['l', 'o']);
    assert_eq!(chunks[1].clone_to_vec(), vec!['r', 'e']);
    assert_eq!(chunks[2].clone_to_vec(), vec!['m']);

    let chunks = vec.chunks(5);
    assert_eq!(chunks.len(), 1);
    let chunks = vec.chunks(7);
    assert_eq!(chunks.len(), 1);
    assert_eq!(chunks[0].len(), 5);

    let empty = ConcurrentVec::<char>::new();
    assert_eq!(empty.chunks(3).len(), 0);
}

#[test]
fn index_into_vec_and_slices() {
    let vec = ConcurrentVec::from_iter((0..42).collect());
    assert_eq!(vec[5].copied(), 5);
    assert_eq!(vec[41].map(|x| x * 2), 82);

    let a = vec.slice(0..21);
    let b = vec.slice(21..42);
    assert_eq!(a.len(), 21);
    assert_eq!(b[0].copied(), 21);

    let (a, b) = vec.split_at(21);
    assert_eq!(a.len(), 21);
    assert_eq!(a[20].copied(), 20);
    assert_eq!(b[0].copied(), 21);
}
