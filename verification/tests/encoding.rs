use dirwatch::encoding::detect;

#[test]
fn utf8_bom() {
    let r = detect(&[0xEF, 0xBB, 0xBF, b'A'], 4);
    assert_eq!(r.bom_length, 3);
    assert!(r.label.contains("UTF-8"));
}

#[test]
fn utf16_le_bom() {
    let r = detect(&[0xFF, 0xFE, b'A', 0x00], 4);
    assert_eq!(r.bom_length, 2);
    assert!(r.label.contains("LE"));
}

#[test]
fn utf16_be_bom() {
    let r = detect(&[0xFE, 0xFF, 0x00, b'A'], 4);
    assert_eq!(r.bom_length, 2);
    assert!(r.label.contains("BE"));
}

#[test]
fn ascii_defaults_utf8_no_bom() {
    let r = detect(b"hello", 5);
    assert_eq!(r.bom_length, 0);
    assert!(r.label.contains("UTF-8"));
}

#[test]
fn utf16_le_no_bom_heuristic() {
    let bytes: Vec<u8> = "ABCD"
        .encode_utf16()
        .flat_map(|u| u.to_le_bytes())
        .collect();
    let r = detect(&bytes, bytes.len());
    assert!(r.label.contains("LE"));
}

#[test]
fn utf16_be_no_bom_heuristic() {
    let bytes: Vec<u8> = "ABCD"
        .encode_utf16()
        .flat_map(|u| u.to_be_bytes())
        .collect();
    let r = detect(&bytes, bytes.len());
    assert!(r.label.contains("BE"));
}
