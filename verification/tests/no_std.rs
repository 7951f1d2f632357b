use fixnum::no_std::Cursor;

#[test]
fn cursor_over_bytes() {
    let mut cursor = Cursor::new([0u8; 64]);
    let text = format!("{:.*}", 5, 12.12345f64);
    cursor.write_str(&text).unwrap();
    assert_eq!(cursor.position(), 8);
}

#[test]
fn cursor_writes_consecutively() {
    let mut cursor = Cursor::new([0u8; 8]);
    cursor.write_str("abc").unwrap();
    cursor.write_str("de").unwrap();
    assert_eq!(cursor.position(), 5);
    cursor.write_str("fgh").unwrap();
    assert_eq!(cursor.position(), 8);
}
