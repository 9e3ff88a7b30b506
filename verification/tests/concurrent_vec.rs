use orx_concurrent_vec::{ConcurrentElement, ConcurrentVec};

#[test]
fn concurrent_vec_into_inner_from() {
    let mut bag = ConcurrentVec::new();

    bag.push('a');
    bag.push('b');
    bag.push('c');
    bag.push('d');
    assert_eq!(
        vec!['a', 'b', 'c', 'd'],
        bag.iter().iter().map(|e| e.copied()).collect::<Vec<_>>()
    );

    let growth = bag.growth();
    let mut split = bag.into_inner();
    assert_eq!(
        vec!['a', 'b', 'c', 'd'],
        split.iter().map(|e| e.copied()).collect::<Vec<_>>()
    );

    split.push(ConcurrentElement::some('e'));
    *split.get_mut(0).expect("exists") = ConcurrentElement::some('x');

    assert_eq!(
        vec!['x', 'b', 'c', 'd', 'e'],
        split.iter().map(|e| e.copied()).collect::<Vec<_>>()
    );

    let mut bag = ConcurrentVec::new_from_pinned(split, growth);
    assert_eq!(
        vec!['x', 'b', 'c', 'd', 'e'],
        bag.iter().iter().map(|e| e.copied()).collect::<Vec<_>>()
    );

    bag.clear();
    assert!(bag.is_empty());

    let split = bag.into_inner();
    assert!(split.is_empty());
}

#[test]
fn con_vec_into_inner_from() {
    let mut bag = ConcurrentVec::new();

    bag.push('a');
    bag.push('b');
    bag.push('c');
    bag.push('d');
    assert_eq!(vec!['a', 'b', 'c', 'd'], bag.iter_cloned());

    let growth = bag.growth();
    let mut split = bag.into_inner();
    assert_eq!(
        vec!['a', 'b', 'c', 'd'],
        split.iter().map(|e| e.copied()).collect::<Vec<_>>()
    );

    split.push(ConcurrentElement::some('e'));
    *split.get_mut(0).expect("exists") = ConcurrentElement::some('x');

    assert_eq!(
        vec!['x', 'b', 'c', 'd', 'e'],
        split.iter().map(|e| e.copied()).collect::<Vec<_>>()
    );

    let mut bag = ConcurrentVec::new_from_pinned(split, growth);
    assert_eq!(vec!['x', 'b', 'c', 'd', 'e'], bag.iter_cloned());

    bag.clear();
    assert!(bag.is_empty());

    let split = bag.into_inner();
    assert!(split.is_empty());
}

#[test]
fn iter() {
    let mut bag = ConcurrentVec::new();

    assert_eq!(0, bag.iter().len());

    bag.push('a');

    assert_eq!(vec!['a'], bag.iter().iter().map(|e| e.copied()).collect::<Vec<_>>());

    bag.push('b');
    bag.push('c');
    bag.push('d');

    assert_eq!(
        vec!['a', 'b', 'c', 'd'],
        bag.iter().iter().map(|e| e.copied()).collect::<Vec<_>>()
    );

    bag.clear();
    assert_eq!(0, bag.iter().len());
}

#[test]
fn iter_map() {
    let mut vec = ConcurrentVec::new();
    vec.extend(vec![0, 1, 2, 3, 4]);

    let doubles: Vec<_> = vec.map(|x| x * 2);
    assert_eq!(&doubles, &[0, 2, 4, 6, 8]);
}

#[test]
fn iter_filter() {
    let mut vec = ConcurrentVec::new();
    vec.extend(vec![0, 1, 2, 3, 4]);

    let doubles: Vec<_> = vec
        .filter(|x| x % 2 == 1)
        .into_iter()
        .map(|elem| elem.cloned())
        .collect();
    assert_eq!(&doubles, &[1, 3]);
}
