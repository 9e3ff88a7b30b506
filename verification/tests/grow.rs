use orx_concurrent_vec::{ConcurrentVec, GrowthStrategy, WritePermit, ConcurrentVecState};

#[test]
fn push_returns_position_and_keeps_order() {
    let mut vec = ConcurrentVec::new();
    assert_eq!(vec.push('a'), 0);
    assert_eq!(vec.push('b'), 1);
    assert_eq!(vec.push('c'), 2);
    assert_eq!(vec.clone_to_vec(), vec!['a', 'b', 'c']);
    assert_eq!(vec.get_copied(1), Some('b'));
}

#[test]
fn push_for_idx_uses_its_position() {
    let mut vec = ConcurrentVec::new();
    vec.push(0);
    vec.push_for_idx(|i| i * 2);
    vec.push_for_idx(|i| i + 10);
    vec.push(42);
    assert_eq!(vec.clone_to_vec(), vec![0, 2, 12, 42]);
}

#[test]
fn extend_writes_consecutively() {
    let mut vec = ConcurrentVec::new();
    vec.push(7);
    let begin = vec.extend(vec![1, 2, 3]);
    assert_eq!(begin, 1);
    assert_eq!(vec.clone_to_vec(), vec![7, 1, 2, 3]);

    // an empty extension returns the length
    let begin = vec.extend(Vec::new());
    assert_eq!(begin, 4);
    assert_eq!(vec.len(), 4);
}

#[test]
fn extend_n_items_ignores_extra_values() {
    let mut vec = ConcurrentVec::new();
    let begin = vec.extend_n_items(vec![1, 2, 3, 4, 5], 3);
    assert_eq!(begin, 0);
    assert_eq!(vec.clone_to_vec(), vec![1, 2, 3]);
}

#[test]
fn extend_for_idx_uses_the_first_position() {
    let mut vec = ConcurrentVec::new();
    vec.push(0);
    vec.extend_for_idx(|begin_idx: usize| (begin_idx..(begin_idx + 3)).map(|i| i * 5).collect(), 3);
    vec.push(42);
    assert_eq!(vec.clone_to_vec(), vec![0, 5, 10, 15, 42]);
}

#[test]
fn len_stops_at_the_first_position_being_written() {
    let mut vec = ConcurrentVec::<usize>::new();
    vec.extend(vec![0, 1, 2, 3, 4]);

    // a slow writer takes position 5, a fast one takes 6 .. 10
    let slow = vec.reserve_positions(1);
    assert_eq!(slow, 5);
    let fast = vec.reserve_positions(4);
    assert_eq!(fast, 6);
    for i in 0..4 {
        vec.write_reserved(fast + i, fast + i);
    }
    assert_eq!(vec.len(), 5);
    assert_eq!(vec.reserved_len(), 10);
    assert!(vec.get(5).is_none());
    assert_eq!(vec.get_cloned(5), None);
    // position 7 is written, but it lies beyond the length
    assert_eq!(vec.get_cloned(7), None);
    assert_eq!(vec.get_ref(7), Some(&7));

    assert_eq!(vec.len_exact(), 9);
    assert_eq!(vec.get_ref(5), None);
    assert_eq!(vec.get_ref(6), Some(&6));
    let written: Vec<usize> = vec.iter_ref().into_iter().copied().collect();
    assert_eq!(written, vec![0, 1, 2, 3, 4, 6, 7, 8, 9]);

    vec.write_reserved(slow, 42);
    assert_eq!(vec.len(), 10);
    assert_eq!(vec.len_exact(), 10);
    assert_eq!(vec.get_copied(5), Some(42));
}

#[test]
fn reserving_does_not_change_length() {
    let mut vec = ConcurrentVec::<u8>::new();
    vec.push(1);
    let begin = vec.reserve_positions(3);
    assert_eq!(begin, 1);
    assert_eq!(vec.len(), 1);
    assert_eq!(vec.reserved_len(), 4);
}

#[test]
fn capacity_grows_by_fragments() {
    let mut vec = ConcurrentVec::new();
    assert_eq!(vec.capacity(), 4);
    for i in 0..4 {
        vec.push(i);
    }
    assert_eq!(vec.capacity(), 4);
    vec.push(4);
    assert_eq!(vec.capacity(), 12);
    vec.extend((5..13).collect());
    assert_eq!(vec.capacity(), 28);

    let mut linear = ConcurrentVec::with_linear_growth(3, 4);
    assert_eq!(linear.capacity(), 8);
    assert_eq!(linear.maximum_capacity(), 32);
    linear.extend((0..9).collect());
    assert_eq!(linear.capacity(), 16);

    let mut fixed = ConcurrentVec::with_fixed_capacity(3);
    fixed.extend(vec![1, 2, 3]);
    assert_eq!(fixed.capacity(), 3);
    assert_eq!(fixed.maximum_capacity(), 3);
}

#[test]
fn clear_keeps_the_first_fragment() {
    let mut vec = ConcurrentVec::new();
    vec.extend((0..20).collect());
    assert_eq!(vec.capacity(), 28);
    vec.clear();
    assert!(vec.is_empty());
    assert_eq!(vec.capacity(), 4);
    assert_eq!(vec.push(5), 0);
}

#[test]
fn reserve_maximum_capacity_of_doubling_and_linear() {
    let mut vec: ConcurrentVec<u8> = ConcurrentVec::with_linear_growth(2, 2);
    assert_eq!(vec.maximum_capacity(), 8);
    assert_eq!(vec.reserve_maximum_capacity(9), 12);
    assert_eq!(vec.reserve_maximum_capacity(3), 12);
    assert_eq!(vec.capacity(), 4);

    let mut fixed: ConcurrentVec<u8> = ConcurrentVec::with_fixed_capacity(2);
    fixed.push(1);
    assert_eq!(fixed.reserve_maximum_capacity(10), 10);
    assert_eq!(fixed.capacity(), 10);
    assert_eq!(fixed.clone_to_vec(), vec![1]);
}

#[test]
fn growth_strategy_maximum_capacity() {
    let doubling = GrowthStrategy::Doubling { fragments_capacity: 4 };
    assert_eq!(doubling.maximum_capacity(), 4 + 8 + 16 + 32);
    let linear = GrowthStrategy::Linear {
        constant_fragment_capacity_exponent: 5,
        fragments_capacity: 10,
    };
    assert_eq!(linear.maximum_capacity(), 320);
    let fixed = GrowthStrategy::Fixed { capacity: 74 };
    assert_eq!(fixed.maximum_capacity(), 74);
    assert_eq!(doubling.next_fragment_capacity(&vec![4, 8]), 16);
    let recursive = GrowthStrategy::Recursive { fragments_capacity: 5 };
    assert_eq!(recursive.maximum_capacity(), 4 + 8 + 16 + 32 + 64);
    assert_eq!(recursive.next_fragment_capacity(&vec![4, 8, 16]), 32);
    assert_eq!(recursive.next_fragment_capacity(&vec![]), 4);
    assert_eq!(linear.next_fragment_capacity(&vec![32]), 32);
}

#[test]
fn write_permits() {
    let state = ConcurrentVecState::new_for_con_pinned_vec(7);
    assert_eq!(state.len(), 7);
    let state = ConcurrentVecState::new_for_pinned_vec(3);
    assert_eq!(state.len(), 3);
    assert_eq!(state.try_get_no_gap_len(), Some(3));
    assert_eq!(state.write_permit(3, 4), WritePermit::JustWrite);
    assert_eq!(state.write_permit(4, 4), WritePermit::GrowThenWrite);
    assert_eq!(state.write_permit(5, 4), WritePermit::Spin);
    assert_eq!(state.write_permit_n_items(2, 2, 4), WritePermit::JustWrite);
    assert_eq!(state.write_permit_n_items(2, 3, 4), WritePermit::GrowThenWrite);
    assert_eq!(state.write_permit_n_items(4, 3, 4), WritePermit::GrowThenWrite);
    assert_eq!(state.write_permit_n_items(5, 1, 4), WritePermit::Spin);
}

#[test]
fn to_vec_and_into_inner() {
    let mut vec = ConcurrentVec::new();
    vec.extend(vec!["a".to_string(), "b".to_string()]);
    assert_eq!(vec.iter_cloned(), vec!["a".to_string(), "b".to_string()]);
    let values = vec.to_vec();
    assert_eq!(values, vec!["a".to_string(), "b".to_string()]);

    let vec = ConcurrentVec::from_iter(vec![3, 4]);
    let inner = vec.into_inner();
    assert_eq!(inner.len(), 2);
    assert_eq!(inner[1].copied(), 4);
}

#[test]
fn writers_of_different_positions_do_not_interfere() {
    let mut first = ConcurrentVec::<i32>::new();
    let mut second = ConcurrentVec::<i32>::new();
    for vec in [&mut first, &mut second] {
        assert_eq!(vec.reserve_positions(1), 0);
        assert_eq!(vec.reserve_positions(1), 1);
    }
    first.write_reserved(0, 10);
    first.write_reserved(1, 20);
    second.write_reserved(1, 20);
    assert_eq!(second.len(), 0);
    second.write_reserved(0, 10);
    assert_eq!(first.clone_to_vec(), vec![10, 20]);
    assert_eq!(second.clone_to_vec(), vec![10, 20]);
}

#[test]
fn writing_never_shortens_the_vector() {
    let mut vec = ConcurrentVec::<u32>::new();
    vec.extend(vec![1, 2]);
    let a = vec.reserve_positions(1);
    let b = vec.reserve_positions(1);
    assert_eq!(vec.len(), 2);
    vec.write_reserved(b, 4);
    assert_eq!(vec.len(), 2);
    vec.write_reserved(a, 3);
    assert_eq!(vec.len(), 4);
    assert_eq!(vec.clone_to_vec(), vec![1, 2, 3, 4]);
}

#[test]
fn storage_round_trip_keeps_the_values() {
    let vec = ConcurrentVec::from_iter(vec!['x', 'y', 'z']);
    let growth = vec.growth();
    let inner = vec.into_inner();
    let vec = ConcurrentVec::new_from_pinned(inner, growth);
    assert_eq!(vec.len(), 3);
    assert_eq!(vec.clone_to_vec(), vec!['x', 'y', 'z']);

    // a position still being written stays unwritten, but counts in the length
    let mut vec = vec;
    let slow = vec.reserve_positions(1);
    vec.push('w');
    let mut vec = ConcurrentVec::new_from_pinned(vec.into_inner(), growth);
    assert_eq!(vec.len(), 5);
    assert_eq!(vec.len_exact(), 4);
    assert_eq!(vec.get_cloned(3), None);
    assert!(vec.get(3).is_some_and(|e| !e.is_some()));
    assert_eq!(vec.get_cloned(4), Some('w'));
    vec.write_reserved(slow, 'v');
    assert_eq!(vec.clone_to_vec(), vec!['x', 'y', 'z', 'v', 'w']);

    // the storage keeps the growth strategy it is given
    let fixed = ConcurrentVec::from_iter(vec![1, 2]);
    let fixed = ConcurrentVec::new_from_pinned(fixed.into_inner(), GrowthStrategy::Fixed { capacity: 5 });
    assert_eq!(fixed.capacity(), 5);
    assert_eq!(fixed.maximum_capacity(), 5);
    assert_eq!(fixed.len(), 2);
}

#[test]
fn pushes_after_a_storage_follow_its_values() {
    let storage = ConcurrentVec::from_iter(vec![10, 20]).into_inner();
    let mut vec = ConcurrentVec::new_from_pinned(storage, GrowthStrategy::Doubling { fragments_capacity: 32 });
    assert_eq!(vec.push(30), 2);
    assert_eq!(vec.push(40), 3);
    assert_eq!(vec.extend(vec![50, 60]), 4);
    let values: Vec<i32> = vec.into_inner().into_iter().map(|e| e.into_value()).collect();
    assert_eq!(values, vec![10, 20, 30, 40, 50, 60]);
}

#[test]
fn recursive_growth_doubles_fragments() {
    let mut vec = ConcurrentVec::with_recursive_growth();
    assert_eq!(vec.capacity(), 4);
    assert_eq!(vec.maximum_capacity(), 17_179_869_180);
    vec.extend((0..13).collect());
    assert_eq!(vec.capacity(), 28);
    assert_eq!(vec.reserve_maximum_capacity(100), 17_179_869_180);
}
