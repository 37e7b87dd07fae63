use paint::id::Id;

#[test]
fn id_bytes() {
    let id = Id::new(0x0102_0304_0506_0708);
    assert_eq!(id.to_be_bytes(), [1, 2, 3, 4, 5, 6, 7, 8]);
    assert_eq!(id.to_le_bytes(), [1, 2, 3, 4, 5, 6, 7, 8]);
    assert_eq!(Id::new(1).to_le_bytes(), [0, 0, 0, 0, 0, 0, 0, 1]);
    assert_eq!(Id::from_be_bytes([1, 2, 3, 4, 5, 6, 7, 8]), id);
    assert_eq!(Id::from_le_bytes([8, 7, 6, 5, 4, 3, 2, 1]), id);
}

#[test]
fn id_bytes_roundtrip() {
    for x in [0u64, 1, 255, 256, u64::MAX, 1234567890123] {
        let id = Id::new(x);
        assert_eq!(Id::from_be_bytes(id.to_be_bytes()), id);
        assert_eq!(Id::from_be_bytes(id.to_le_bytes()), id);
        assert_eq!(Id::from_le_bytes(u64::from(id).to_le_bytes()), id);
    }
}

#[test]
fn id_text() {
    assert_eq!(Id::new(0).to_string(), "0");
    assert_eq!(Id::new(1200).to_string(), "1200");
    assert_eq!(Id::new(u64::MAX).to_string(), "18446744073709551615");
    assert_eq!(Id::from_str("42").unwrap(), Id::new(42));
    assert_eq!(Id::from_str("+7").unwrap(), Id::new(7));
    assert!(Id::from_str("").is_err());
    assert!(Id::from_str("-1").is_err());
    assert!(Id::from_str("12a").is_err());
    assert!(Id::from_str("18446744073709551616").is_err());
}

#[test]
fn id_text_roundtrip() {
    for x in [0u64, 9, 10, 99, 100, u64::MAX] {
        assert_eq!(Id::from_str(&Id::new(x).to_string()).unwrap(), Id::new(x));
    }
}

#[test]
fn id_conversions() {
    let id: Id = 5u64.into();
    assert_eq!(id, Id::new(5));
    let x: u64 = Id::new(9).into();
    assert_eq!(x, 9);
}
