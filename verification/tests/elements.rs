use orx_concurrent_vec::{eq_elem_iter_to_iter, eq_elem_iters, ConcurrentElement, ConcurrentVec};

#[test]
fn element_read_and_write() {
    let mut vec = ConcurrentVec::from_iter(vec![0, 1, 2, 3]);

    assert!(vec.get(4).is_none());
    assert_eq!(vec.get(2).map(|elem| elem.cloned()), Some(2));
    assert_eq!(vec.get(2).map(|elem| elem.map(|x| x * 2)), Some(4));

    let value = vec.get_mut(2).unwrap();
    *value = 42;
    assert_eq!(vec.get_copied(2), Some(42));
    *vec.get_mut(2).unwrap() /= 6;
    assert_eq!(vec.clone_to_vec(), vec![0, 1, 7, 3]);
    assert!(vec.get_mut(4).is_none());

    let mut elem = ConcurrentElement::some(2);
    elem.set(42);
    assert_eq!(elem.copied(), 42);
    elem.update(|x| *x = *x / 2);
    assert_eq!(elem.copied(), 21);
    let old = elem.replace(7);
    assert_eq!(old, 21);
    assert_eq!(elem.copied(), 7);
}

#[test]
fn get_mut_skips_positions_not_written() {
    let mut vec = ConcurrentVec::from_iter(vec![1, 2]);
    let slow = vec.reserve_positions(1);
    vec.push(4);
    assert!(vec.get_mut(slow).is_none());
    *vec.get_mut(3).unwrap() = 5;
    assert_eq!(vec.get_ref(3), Some(&5));
    assert_eq!(vec.len(), 2);
}

#[test]
fn element_clone_into_option() {
    let some = ConcurrentElement::some("x".to_string());
    let none = ConcurrentElement::<String>::none();
    assert_eq!(some.clone_into_option(), Some("x".to_string()));
    assert_eq!(none.clone_into_option(), None);
    assert!(some.is_some());
    assert!(!none.is_some());
}

#[test]
fn swap_in_and_out_of_bounds() {
    let mut vec = ConcurrentVec::from_iter(vec![0, 1, 2, 3]);
    assert!(vec.swap(0, 2));
    assert_eq!(vec.clone_to_vec(), vec![2, 1, 0, 3]);
    assert!(!vec.swap(0, 4));
    assert_eq!(vec.clone_to_vec(), vec![2, 1, 0, 3]);
    assert!(vec.swap(0, 2));
    assert_eq!(vec.clone_to_vec(), vec![0, 1, 2, 3]);
    assert!(vec.swap(1, 1));
    assert!(!vec.swap(4, 4));
    assert_eq!(vec.clone_to_vec(), vec![0, 1, 2, 3]);
}

#[test]
fn fill_and_fill_with() {
    let mut vec = ConcurrentVec::from_iter(vec![0, 1, 2, 3]);
    vec.fill(42);
    assert_eq!(vec.clone_to_vec(), vec![42, 42, 42, 42]);

    let mut current = 0;
    vec.fill_with(|i| {
        current += i as i32;
        current
    });
    assert_eq!(vec.clone_to_vec(), vec![0, 1, 3, 6]);
}

#[test]
fn index_of_and_contains() {
    let vec = ConcurrentVec::from_iter(vec!['a', 'b', 'c', 'b']);
    assert_eq!(vec.index_of(&'b'), Some(1));
    assert_eq!(vec.index_of(&'d'), None);
    assert!(vec.contains(&'c'));
    assert!(!vec.contains(&'d'));
}

#[test]
fn fold_and_reduce() {
    let mut vec = ConcurrentVec::new();
    assert_eq!(vec.reduce(|a, b| a + b), None);
    assert_eq!(vec.fold(5, |sum, x| sum + x), 5);
    vec.push(42);
    assert_eq!(vec.reduce(|a, b| a + b), Some(42));
    vec.extend(vec![6, 2]);
    assert_eq!(vec.reduce(|a, b| a + b), Some(50));
    assert_eq!(vec.fold(0, |sum, x| sum + x), 50);
}

#[test]
fn element_sequences_compare() {
    let a = ConcurrentVec::from_iter(vec![1, 2, 3]);
    let b = ConcurrentVec::from_iter(vec![1, 2, 3]);
    let c = ConcurrentVec::from_iter(vec![1, 2, 4]);
    assert!(eq_elem_iters(a.iter(), b.iter()));
    assert!(!eq_elem_iters(a.iter(), c.iter()));
    assert!(!eq_elem_iters(a.iter(), &b.iter()[..2]));
    assert!(eq_elem_iter_to_iter(a.iter(), &[1, 2, 3]));
    assert!(!eq_elem_iter_to_iter(a.iter(), &[1, 2]));
    assert!(!eq_elem_iter_to_iter(&[ConcurrentElement::none()], &[1]));
    assert!(eq_elem_iters::<i32>(&[ConcurrentElement::none()], &[ConcurrentElement::none()]));
}

#[test]
fn replace_set_and_update_at_positions() {
    let mut v = ConcurrentVec::from_iter(vec!['a', 'b', 'c', 'd']);
    assert_eq!(v.replace(2, 'x'), Some('c'));
    assert_eq!(v.clone_to_vec(), vec!['a', 'b', 'x', 'd']);
    assert_eq!(v.replace(4, 'y'), None);
    assert!(v.set(0, 'z'));
    assert!(!v.set(9, 'z'));
    assert_eq!(v.clone_to_vec(), vec!['z', 'b', 'x', 'd']);

    let mut v = ConcurrentVec::from_iter(vec![0, 1, 2, 3]);
    assert!(v.update(1, |x| *x *= 2));
    assert!(v.update(2, |x| *x += 10));
    assert!(v.update(3, |x| *x = 7));
    assert!(!v.update(4, |x| *x = 7));
    assert_eq!(v.clone_to_vec(), vec![0, 2, 12, 7]);
}

#[test]
fn writes_skip_positions_not_written() {
    let mut v = ConcurrentVec::from_iter(vec![1, 2]);
    let slow = v.reserve_positions(1);
    v.push(4);
    assert_eq!(v.replace(slow, 3), None);
    assert!(!v.set(3, 5));
    assert!(!v.update(3, |x| *x = 5));
    assert!(!v.swap(0, 3));
    assert_eq!(v.get_ref(3), Some(&4));
}
