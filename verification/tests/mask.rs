use orx_concurrent_vec::Mask;

#[test]
fn mask_marks_positions() {
    let mut mask = Mask::new(3);
    assert!(!mask.is_growing());
    assert_eq!(mask.len(), 4);
    assert!(mask.is_available(2));
    assert!(!mask.is_available(3));
    assert!(!mask.is_available(10));
    assert_eq!(mask.num_available(100), 3);

    mask.taken_until(6);
    assert_eq!(mask.len(), 12);
    assert!(!mask.is_available(5));
    mask.written(4, 6);
    assert!(mask.is_available(5));
    assert_eq!(mask.num_available(5), 4);
    assert_eq!(mask.num_available(12), 5);

    mask.clear();
    assert_eq!(mask.num_available(12), 0);
    assert_eq!(mask.len(), 12);

    let big = Mask::new(13);
    assert_eq!(big.len(), 28);
    assert_eq!(big.num_available(100), 13);
}
