use heap_alloc::bump::BumpAllocator;

#[test]
fn bump_test_alloc() {
    let mut allocator = BumpAllocator::new(0x1000_0000, 0x1000_1000);
    let ptr1 = allocator.allocate(16);
    assert!(ptr1.is_some());
    let ptr2 = allocator.allocate(16);
    assert!(ptr2.is_some());
    assert!(!(ptr1 == ptr2));
}

#[test]
fn bump_hands_out_consecutive_addresses() {
    let mut allocator = BumpAllocator::new(100, 140);
    assert_eq!(allocator.allocate(16), Some(100));
    assert_eq!(allocator.allocate(8), Some(116));
    allocator.free(100, 16);
    assert_eq!(allocator.allocate(16), Some(124));
    assert_eq!(allocator.allocate(1), None);
}

#[test]
fn bump_failure_keeps_offset() {
    let mut allocator = BumpAllocator::new(0, 10);
    assert_eq!(allocator.allocate(11), None);
    assert_eq!(allocator.allocate(10), Some(0));
    assert_eq!(allocator.allocate(usize::MAX), None);
    assert_eq!(allocator.allocate(0), Some(10));
}

#[test]
fn bump_empty_or_reversed_range_refuses() {
    let mut allocator = BumpAllocator::new(50, 20);
    assert_eq!(allocator.allocate(1), None);
}
