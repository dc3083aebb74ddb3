use heap_alloc::utils::{get_payload_size, is_free};

#[test]
fn header_decoding() {
    assert!(is_free(41));
    assert!(!is_free(40));
    assert_eq!(get_payload_size(41), 32);
    assert_eq!(get_payload_size(40), 32);
    assert_eq!(get_payload_size(8), 0);
}
