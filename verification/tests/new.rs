use orx_concurrent_vec::{ConcurrentElement, ConcurrentVec};

fn run_new_len_empty_clear(bag: ConcurrentVec<char>) {
    let mut bag = bag;

    assert!(bag.is_empty());
    assert_eq!(0, bag.len());

    bag.push('a');

    assert!(!bag.is_empty());
    assert_eq!(1, bag.len());

    bag.push('b');
    bag.push('c');
    bag.push('d');

    assert!(!bag.is_empty());
    assert_eq!(4, bag.len());

    bag.clear();
    assert!(bag.is_empty());
    assert_eq!(0, bag.len());
}

#[test]
fn new_new_len_empty_clear() {
    run_new_len_empty_clear(ConcurrentVec::new());
    run_new_len_empty_clear(ConcurrentVec::default());
    run_new_len_empty_clear(ConcurrentVec::with_doubling_growth());
    run_new_len_empty_clear(ConcurrentVec::with_linear_growth(2, 8));
    run_new_len_empty_clear(ConcurrentVec::with_linear_growth(4, 8));
    run_new_len_empty_clear(ConcurrentVec::with_fixed_capacity(64));
}

#[test]
fn con_vec_new_len_empty_clear() {
    fn test(con_vec: ConcurrentVec<char>) {
        let mut con_vec = con_vec;

        assert!(con_vec.is_empty());
        assert_eq!(0, con_vec.len());
        assert_eq!(0, con_vec.len_exact());

        con_vec.push('a');

        assert!(!con_vec.is_empty());
        assert_eq!(1, con_vec.len());
        assert_eq!(1, con_vec.len_exact());

        con_vec.push('b');
        con_vec.push('c');
        con_vec.push('d');

        assert!(!con_vec.is_empty());
        assert_eq!(4, con_vec.len());
        assert_eq!(4, con_vec.len_exact());

        con_vec.clear();
        assert!(con_vec.is_empty());
        assert_eq!(0, con_vec.len());
        assert_eq!(0, con_vec.len_exact());

        con_vec.push('a');
        con_vec.push('b');

        let growth = con_vec.growth();
        let mut pinned = con_vec.into_inner();
        *pinned.get_mut(0).expect("is-some") = ConcurrentElement::none();

        let con_vec = ConcurrentVec::new_from_pinned(pinned, growth);
        assert_eq!(2, con_vec.len());
        assert_eq!(1, con_vec.len_exact());
    }

    test(ConcurrentVec::new());
    test(ConcurrentVec::default());
    test(ConcurrentVec::with_doubling_growth());
    test(ConcurrentVec::with_recursive_growth());
    test(ConcurrentVec::with_linear_growth(2, 32));
    test(ConcurrentVec::with_linear_growth(4, 32));
    test(ConcurrentVec::with_fixed_capacity(64));
}

#[test]
fn con_vec_capacity() {
    let bag: ConcurrentVec<i32> = ConcurrentVec::from_iter((0..4).collect());
    assert_eq!(bag.capacity(), 4);
    let mut bag = bag;
    bag.push(42);
    assert_eq!(bag.capacity(), 12);

    let mut bag: ConcurrentVec<i32> = ConcurrentVec::with_recursive_growth();
    bag.extend(vec![0, 1, 2, 3]);
    assert_eq!(bag.capacity(), 4);
    bag.push(42);
    assert_eq!(bag.capacity(), 12);

    let mut bag: ConcurrentVec<i32> = ConcurrentVec::with_linear_growth(2, 32);
    bag.extend(vec![0, 1, 2, 3]);
    assert_eq!(bag.capacity(), 4);
    bag.push(42);
    assert_eq!(bag.capacity(), 8);

    let mut bag: ConcurrentVec<i32> = ConcurrentVec::with_fixed_capacity(5);
    bag.extend(vec![0, 1, 2, 3]);
    assert_eq!(bag.capacity(), 5);
    bag.push(42);
    assert_eq!(bag.capacity(), 5);
}

#[test]
fn pinned_concurrent_col_capacity() {
    let mut bag: ConcurrentVec<i32> = ConcurrentVec::new();
    bag.extend(vec![0, 1, 2, 3]);
    assert_eq!(bag.capacity(), 4);
    bag.push(42);
    assert_eq!(bag.capacity(), 12);

    let mut bag: ConcurrentVec<i32> = ConcurrentVec::with_linear_growth(2, 32);
    bag.extend(vec![0, 1, 2, 3]);
    assert_eq!(bag.capacity(), 4);
    bag.push(42);
    assert_eq!(bag.capacity(), 8);

    let mut bag: ConcurrentVec<i32> = ConcurrentVec::with_fixed_capacity(5);
    bag.extend(vec![0, 1, 2, 3]);
    assert_eq!(bag.capacity(), 5);
    bag.push(42);
    assert_eq!(bag.capacity(), 5);
}

#[test]
fn reserve_maximum_capacity() {
    // doubling
    let bag: ConcurrentVec<String> = ConcurrentVec::new();
    assert_eq!(bag.capacity(), 4); // only allocates the first fragment of 4
    assert_eq!(bag.maximum_capacity(), 17_179_869_180); // it can grow safely & exponentially

    let bag: ConcurrentVec<String> = ConcurrentVec::with_doubling_growth();
    assert_eq!(bag.capacity(), 4);
    assert_eq!(bag.maximum_capacity(), 17_179_869_180);

    // linear
    let mut bag: ConcurrentVec<String> = ConcurrentVec::with_linear_growth(10, 20);
    assert_eq!(bag.capacity(), 2usize.pow(10)); // only allocates first fragment of 1024
    assert_eq!(bag.maximum_capacity(), 2usize.pow(10) * 20); // it can concurrently allocate 19 more

    // linear -> reserve_maximum_capacity
    let new_max_capacity = bag.reserve_maximum_capacity(2usize.pow(10) * 30);
    assert!(new_max_capacity >= 2usize.pow(10) * 30);

    // no new allocation yet
    assert_eq!(bag.capacity(), 2usize.pow(10)); // first fragment capacity

    assert!(bag.maximum_capacity() >= 2usize.pow(10) * 30); // now it can safely reach 2^10 * 30

    // fixed
    let mut bag: ConcurrentVec<String> = ConcurrentVec::with_fixed_capacity(42);
    assert_eq!(bag.capacity(), 42);
    assert_eq!(bag.maximum_capacity(), 42);

    let new_max_capacity = bag.reserve_maximum_capacity(1024);
    assert!(new_max_capacity >= 1024);
}
