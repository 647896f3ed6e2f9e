use rtdp_core::hex::{hex_to_bytes, is_hex_text};

#[test]
fn test_hex_to_bytes_reads_pairs() {
    assert!(is_hex_text("5254010000010030"));
    assert_eq!(hex_to_bytes("5254010000010030"), vec![0x52, 0x54, 0x01, 0x00, 0x00, 0x01, 0x00, 0x30]);
    assert_eq!(hex_to_bytes("aBcD"), vec![0xAB, 0xCD]);
    assert_eq!(hex_to_bytes("+7ff"), vec![0x07, 0xFF]);
    assert_eq!(hex_to_bytes(""), Vec::<u8>::new());
}

#[test]
fn test_is_hex_text_refuses_bad_text() {
    assert!(!is_hex_text("abc"));
    assert!(!is_hex_text("zz"));
    assert!(!is_hex_text("-1"));
    assert!(!is_hex_text("é1"));
    assert!(is_hex_text("+0"));
}
