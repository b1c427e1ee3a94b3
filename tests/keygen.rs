use landmower::keygen::{le_bytes, link_hash_code};

#[test]
fn le_bytes_order() {
    assert_eq!(le_bytes(0x0102030405060708), vec![8, 7, 6, 5, 4, 3, 2, 1]);
    assert_eq!(le_bytes(0), vec![0; 8]);
    assert_eq!(le_bytes(u64::MAX), vec![255; 8]);
}

#[test]
fn hash_code_shape() {
    let code = link_hash_code("https://example.com");
    assert_eq!(code.len(), 11);
    assert!(code.chars().all(|c| c.is_ascii_alphanumeric() || c == '-' || c == '_'));
    assert_eq!(code, link_hash_code("https://example.com"));
    assert_ne!(code, link_hash_code("https://example.org"));
    assert_eq!(link_hash_code("").len(), 11);
}
