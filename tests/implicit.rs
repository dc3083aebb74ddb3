use heap_alloc::implicit::{init_heap_allocator, ImplicitAllocator};
use heap_alloc::utils::{get_payload_size, is_free, HEADER_WIDTH};

#[test]
fn implicit_test_alloc() {
    let mut allocator: ImplicitAllocator = init_heap_allocator();
    let ptr1 = allocator.allocate(16, 8);
    assert!(ptr1.is_some());
    let ptr2 = allocator.allocate(32, 8);
    assert!(ptr2.is_some());
    assert!(!(ptr1 == ptr2));
}

#[test]
fn test_dealloc() {
    let mut allocator: ImplicitAllocator = init_heap_allocator();
    let ptr1 = allocator.allocate(16, 8);
    assert!(ptr1.is_some());
    let ptr1 = ptr1.unwrap();
    allocator.free(ptr1, 16);
    assert!(is_free(allocator.read_header(ptr1 - HEADER_WIDTH)));
    let ptr2 = allocator.allocate(16, 8);
    assert!(Some(ptr1) == ptr2);
}

#[test]
fn test_realloc() {
    let mut allocator: ImplicitAllocator = init_heap_allocator();
    let ptr1 = allocator.allocate(16, 8).unwrap();
    let new_ptr1 = allocator.resize(ptr1, 16, 32).unwrap();
    assert!(ptr1 != new_ptr1);
    assert!(get_payload_size(allocator.read_header(new_ptr1 - HEADER_WIDTH)) == 32);
    let ptr2 = allocator.allocate(16, 8).unwrap();
    let new_ptr2 = allocator.resize(ptr2, 16, 8).unwrap();
    assert!(ptr2 == new_ptr2);
    // The 24-byte block leaves 8 bytes over an 8-byte request: too little for a
    // header and a payload byte, so the block is handed out whole.
    assert!(get_payload_size(allocator.read_header(new_ptr2 - HEADER_WIDTH)) == 16);
}

#[test]
fn test_heap_overflow() {
    let mut allocator: ImplicitAllocator = init_heap_allocator();
    let ptr_overflow = allocator.allocate(8192, 8);
    assert!(ptr_overflow.is_none());
    assert!(is_free(allocator.read_header(0)));
}

#[test]
fn exhaustion_leaves_region_block_untouched() {
    let mut allocator: ImplicitAllocator = init_heap_allocator();
    assert!(allocator.allocate(4097, 8).is_none());
    let header = allocator.read_header(0);
    assert_eq!(header, 4096 + 1);
    assert_eq!(get_payload_size(header), 4096 - 8);
}

#[test]
fn whole_region_request_fails_by_one_header() {
    let mut allocator: ImplicitAllocator = init_heap_allocator();
    assert!(allocator.allocate(4096, 8).is_none());
    assert_eq!(allocator.allocate(4088, 8), Some(8));
    assert!(allocator.allocate(1, 8).is_none());
}

#[test]
fn split_gives_bounded_disjoint_blocks() {
    let mut allocator: ImplicitAllocator = init_heap_allocator();
    let p = allocator.allocate(16, 8).unwrap();
    let q = allocator.allocate(32, 8).unwrap();
    assert_eq!(p, 8);
    assert_eq!(q, 32);
    assert!(p + 16 <= q - HEADER_WIDTH);
    assert_eq!(allocator.read_header(0), 24);
    assert_eq!(allocator.read_header(24), 40);
    assert_eq!(allocator.read_header(64), (4096 - 64) + 1);
}

#[test]
fn sizes_round_up_to_whole_words() {
    let mut allocator: ImplicitAllocator = init_heap_allocator();
    let p = allocator.allocate(13, 8).unwrap();
    let q = allocator.allocate(1, 8).unwrap();
    let r = allocator.allocate(17, 1).unwrap();
    assert_eq!((p, q, r), (8, 32, 48));
    assert_eq!(get_payload_size(allocator.read_header(p - HEADER_WIDTH)), 16);
    assert_eq!(get_payload_size(allocator.read_header(q - HEADER_WIDTH)), 8);
    assert_eq!(get_payload_size(allocator.read_header(r - HEADER_WIDTH)), 24);
    assert_eq!(p % 8 + q % 8 + r % 8, 0);
}

#[test]
fn reuse_takes_first_freed_block() {
    let mut allocator: ImplicitAllocator = init_heap_allocator();
    let p = allocator.allocate(32, 8).unwrap();
    let q = allocator.allocate(32, 8).unwrap();
    allocator.free(p, 32);
    assert_eq!(allocator.allocate(16, 8), Some(p));
    assert_ne!(p, q);
}

#[test]
fn freed_neighbours_are_not_merged() {
    let mut allocator: ImplicitAllocator = init_heap_allocator();
    let p = allocator.allocate(16, 8).unwrap();
    let q = allocator.allocate(16, 8).unwrap();
    allocator.free(p, 16);
    allocator.free(q, 16);
    assert_eq!(allocator.read_header(0), 24 + 1);
    assert_eq!(allocator.read_header(24), 24 + 1);
    // A request for both blocks together skips them both.
    assert_eq!(allocator.allocate(32, 8), Some(56));
}

#[test]
fn large_alignment_is_served_at_word_alignment() {
    let mut allocator: ImplicitAllocator = init_heap_allocator();
    assert_eq!(allocator.allocate(16, 16), Some(8));
    assert_eq!(allocator.read_header(0), 24);
    assert_eq!(allocator.read_header(24), (4096 - 24) + 1);
}

#[test]
fn construction_needs_room_for_one_header() {
    assert!(ImplicitAllocator::new(vec![0u8; 7]).is_none());
    let mut allocator = ImplicitAllocator::new(vec![0u8; 8]).unwrap();
    assert_eq!(allocator.read_header(0), 8 + 1);
    assert!(allocator.allocate(1, 8).is_none());
}

#[test]
fn construction_drops_only_an_odd_last_byte() {
    let mut allocator = ImplicitAllocator::new(vec![0u8; 45]).unwrap();
    assert_eq!(allocator.read_header(0), 44 + 1);
    assert_eq!(allocator.allocate(32, 8), Some(8));
    assert_eq!(allocator.read_header(0), 44);
    assert!(allocator.allocate(1, 8).is_none());
}

#[test]
fn split_of_a_region_not_a_multiple_of_the_word() {
    let mut allocator = ImplicitAllocator::new(vec![0u8; 74]).unwrap();
    assert_eq!(allocator.read_header(0), 74 + 1);
    assert_eq!(allocator.allocate(16, 8), Some(8));
    assert_eq!(allocator.allocate(32, 8), Some(32));
    assert_eq!(allocator.read_header(0), 24);
    assert_eq!(allocator.read_header(24), 40);
    assert_eq!(allocator.read_header(64), 10 + 1);
    // Two bytes round up to a word and need a 16-byte block: the 10-byte rest
    // cannot serve them.
    assert_eq!(allocator.allocate(2, 8), None);
    assert_eq!(allocator.read_header(64), 10 + 1);
}

#[test]
fn header_is_stored_little_endian_in_the_region() {
    let mut allocator = ImplicitAllocator::new(vec![0xffu8; 16]).unwrap();
    assert_eq!(allocator.read_header(0), 17);
    assert_eq!(allocator.allocate(8, 8), Some(8));
    assert_eq!(allocator.read_header(0), 16);
}
