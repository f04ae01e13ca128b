use lipi::zip::{build_zip, crc32, inflate, parse_zip, zip_in_range};

#[test]
fn crc32_check_value() {
    assert_eq!(crc32(b"123456789"), 0xCBF4_3926);
    assert_eq!(crc32(b""), 0);
}

#[test]
fn inflate_stored_block() {
    let data = [0x01u8, 0x05, 0x00, 0xfa, 0xff, b'h', b'e', b'l', b'l', b'o'];
    assert_eq!(inflate(&data).unwrap(), b"hello".to_vec());
}

#[test]
fn inflate_fixed_block() {
    assert_eq!(inflate(&[0x4bu8, 0x04, 0x00]).unwrap(), b"a".to_vec());
}

#[test]
fn inflate_dynamic_block() {
    let data: Vec<u8> = vec![
        0x7d, 0x56, 0xed, 0x6e, 0x83, 0x30, 0x0c, 0x7c, 0x15, 0x5e, 0xcd, 0xd5, 0xa4, 0x15, 0x98, 0xe8,
        0xd4, 0xb2, 0x49, 0xbc, 0xfd, 0x1a, 0x1f, 0xb1, 0xef, 0x4c, 0xb4, 0x1f, 0xa4, 0x24, 0x8e, 0x3f,
        0xee, 0xfc, 0x41, 0x17, 0xbb, 0x4d, 0x37, 0xdb, 0xed, 0x31, 0xed, 0xb6, 0x4e, 0x9f, 0xb6, 0xcd,
        0xfb, 0xf4, 0x35, 0x7f, 0xcf, 0xd3, 0xed, 0x6e, 0xaf, 0xbb, 0x4d, 0x2f, 0xdb, 0xd6, 0xfb, 0x61,
        0x7d, 0xbb, 0xbc, 0xaf, 0xff, 0xda, 0xfa, 0x3e, 0xf0, 0x4b, 0x5d, 0x7a, 0xd8, 0xc7, 0x2c, 0x6a,
        0xcd, 0x58, 0x7b, 0xce, 0xad, 0xcb, 0x8b, 0xc5, 0x26, 0x76, 0x15, 0xd8, 0xe3, 0x9b, 0x08, 0x03,
        0x2b, 0x79, 0xc3, 0x2b, 0xd6, 0xd0, 0x4e, 0xd7, 0x11, 0xaa, 0xc3, 0xb1, 0xed, 0xb0, 0xfd, 0x8c,
        0x04, 0x27, 0x05, 0x0a, 0xec, 0xf4, 0x6b, 0x5d, 0x08, 0xa7, 0x50, 0x90, 0x8b, 0x58, 0x21, 0x76,
        0x9f, 0x8d, 0x8a, 0x02, 0xe9, 0xf5, 0xb3, 0x3f, 0x8b, 0x7d, 0x0a, 0xdc, 0xb5, 0x56, 0x7b, 0x3e,
        0x4e, 0x2b, 0x4c, 0x44, 0x33, 0xe6, 0x22, 0x5c, 0xf5, 0xd7, 0x76, 0xd6, 0xc3, 0x03, 0x81, 0x80,
        0xe1, 0x4e, 0x98, 0xd1, 0x31, 0x92, 0xb0, 0x01, 0x05, 0xdf, 0xf6, 0x3b, 0x42, 0xf9, 0x20, 0x2f,
        0xf0, 0xb4, 0x44, 0x6d, 0xb8, 0x72, 0x50, 0x7e, 0x72, 0xa4, 0x6a, 0x30, 0xd9, 0x54, 0xd2, 0x67,
        0x56, 0x4b, 0xc5, 0xa6, 0xae, 0x7b, 0x58, 0x2e, 0x82, 0xaa, 0xf8, 0x40, 0x7a, 0xfd, 0x1c, 0x6b,
        0x57, 0xe0, 0x12, 0xc1, 0xbb, 0xc0, 0xc4, 0xe5, 0x2c, 0xec, 0x16, 0x8f, 0xdb, 0x0a, 0x6e, 0x00,
        0x4f, 0xe8, 0x70, 0x59, 0x96, 0x56, 0xb7, 0x75, 0x21, 0xbf, 0x97, 0xb8, 0xe0, 0x51, 0xb6, 0x3a,
        0x37, 0x6a, 0x63, 0x24, 0xc9, 0x48, 0x5b, 0x54, 0x88, 0xb6, 0xed, 0x28, 0xef, 0xe2, 0x02, 0x2b,
        0x35, 0x4b, 0xb6, 0x01, 0x51, 0xad, 0x9d, 0xd0, 0x7f, 0xd1, 0xa7, 0x97, 0x50, 0x32, 0x59, 0x99,
        0x4a, 0x06, 0xad, 0x89, 0xe6, 0x16, 0x85, 0x3c, 0x9d, 0x5f, 0xcb, 0x9b, 0x1f, 0xa6, 0x39, 0x81,
        0x26, 0xe1, 0x3c, 0x08, 0xc0, 0x2d, 0xc3, 0x2f, 0x03, 0x88, 0x0b, 0x84, 0x31, 0xff, 0x3f, 0xb6,
        0xd8, 0x45, 0x8e, 0x13, 0x68, 0x22, 0xa4, 0xce, 0x55, 0x2a, 0x46, 0x87, 0x6a, 0xe9, 0xfa, 0x51,
        0x59, 0x22, 0xdd, 0x92, 0xb1, 0xb3, 0x5d, 0xa2, 0x31, 0xb4, 0x92, 0xa9, 0xf4, 0x15, 0x41, 0x12,
        0xc3, 0x89, 0x1a, 0x25, 0x46, 0x86, 0xa0, 0x76, 0x88, 0x38, 0xaf, 0x83, 0x22, 0xed, 0xb5, 0x37,
        0x71, 0x55, 0x7f, 0xb3, 0x38, 0x89, 0x3b, 0x7f, 0x8d, 0x96, 0xa0, 0x0e, 0x11, 0x53, 0x65, 0x1c,
        0x79, 0xb0, 0xbe, 0x08, 0x03, 0x32, 0xef, 0x70, 0xb3, 0xd0, 0x9f, 0x04, 0xd2, 0x00, 0x1e, 0x17,
        0x4e, 0x8c, 0xe9, 0x3c, 0xe2, 0x02, 0xaf, 0x05, 0x9b, 0xe0, 0x4e, 0x4b, 0xb2, 0x29, 0xd8, 0xa8,
        0x32, 0x75, 0xbe, 0x08, 0xd5, 0x31, 0x1f, 0x52, 0x5b, 0xe4, 0xdc, 0xcc, 0x58, 0xa9, 0x39, 0x69,
        0x5c, 0xf2, 0x57, 0x89, 0x21, 0x94, 0xe8, 0xb5, 0x72, 0xf4, 0x7b, 0x98, 0x84, 0x0f, 0x06, 0x6c,
        0xf9, 0x80, 0x05, 0xac, 0x4c, 0xa3, 0xa4, 0x4a, 0x06, 0xa3, 0xfc, 0x07, 0xc8, 0x64, 0x55, 0x71,
        0x76, 0x18, 0x05, 0x11, 0x59, 0xe5, 0x41, 0xce, 0x1a, 0x8a, 0x61, 0xbc, 0x93, 0xfa, 0xa7, 0xbc,
        0x70, 0xc3, 0x5f, 0x78, 0xa6, 0x6a, 0xd0, 0xbc, 0xc0, 0xd8, 0x1f
    ];
    let out = inflate(&data).unwrap();
    assert_eq!(out.len(), 2327);
    assert_eq!(crc32(&out), 0x4740_2e8d);
    assert!(out.starts_with(b"jab batao tak ganit lipi bhasha"));
}

#[test]
fn inflate_errors() {
    assert_eq!(inflate(&[]).unwrap_err(), "ज़िप: deflate डेटा अधूरा");
    // block type 3
    assert_eq!(inflate(&[0x07u8]).unwrap_err(), "ज़िप: अमान्य deflate block प्रकार");
    // stored block without its length
    assert_eq!(inflate(&[0x01u8, 0x05]).unwrap_err(), "ज़िप: stored block अधूरा");
    // stored block longer than the data
    assert_eq!(inflate(&[0x01u8, 0x09, 0x00, 0xf6, 0xff, b'h']).unwrap_err(), "ज़िप: stored block आकार गलत");
}

fn two_files() -> Vec<(String, Vec<u8>)> {
    vec![
        ("नमस्ते.txt".to_string(), "नमस्ते दुनिया".as_bytes().to_vec()),
        ("b.bin".to_string(), vec![0u8, 1, 2, 255]),
    ]
}

#[test]
fn zip_roundtrip() {
    let files = two_files();
    let bytes = build_zip(&files);
    assert!(zip_in_range(&bytes));
    let back = parse_zip(&bytes).unwrap();
    assert_eq!(back, files);
}

#[test]
fn zip_empty_archive() {
    let bytes = build_zip(&[]);
    assert_eq!(bytes.len(), 22);
    assert_eq!(&bytes[0..4], &[0x50, 0x4b, 0x05, 0x06]);
    assert_eq!(parse_zip(&bytes).unwrap(), vec![]);
}

#[test]
fn zip_layout() {
    let files = vec![("a".to_string(), b"xyz".to_vec())];
    let bytes = build_zip(&files);
    // local header + name + content, central record + name, end record
    assert_eq!(bytes.len(), 30 + 1 + 3 + 46 + 1 + 22);
    assert_eq!(&bytes[0..4], &[0x50, 0x4b, 0x03, 0x04]);
    let crc = crc32(b"xyz").to_le_bytes();
    assert_eq!(&bytes[14..18], &crc);
    assert_eq!(&bytes[30..34], b"axyz");
}

#[test]
fn zip_reads_deflated_entries() {
    let data: Vec<u8> = vec![
        0x50, 0x4b, 0x03, 0x04, 0x14, 0x00, 0x00, 0x08, 0x08, 0x00, 0x5d, 0x8a, 0x73, 0x5d, 0x71, 0x88,
        0x38, 0x0d, 0x33, 0x00, 0x00, 0x00, 0x74, 0x04, 0x00, 0x00, 0x16, 0x00, 0x00, 0x00, 0xe0, 0xa4,
        0xa8, 0xe0, 0xa4, 0xae, 0xe0, 0xa4, 0xb8, 0xe0, 0xa5, 0x8d, 0xe0, 0xa4, 0xa4, 0xe0, 0xa5, 0x87,
        0x2e, 0x74, 0x78, 0x74, 0xed, 0xca, 0xb1, 0x11, 0x00, 0x10, 0x14, 0x44, 0xc1, 0x56, 0xb4, 0x2a,
        0x12, 0xe9, 0xe2, 0xbe, 0x11, 0x91, 0x8a, 0x68, 0xe5, 0x95, 0x62, 0xf4, 0x20, 0xbc, 0x78, 0x17,
        0x75, 0x34, 0xd0, 0x22, 0x2a, 0x12, 0x51, 0x12, 0x6a, 0x44, 0xe6, 0xc1, 0x41, 0x13, 0xed, 0x84,
        0x97, 0x97, 0x97, 0xd7, 0x97, 0x75, 0x01, 0x50, 0x4b, 0x03, 0x04, 0x14, 0x00, 0x00, 0x00, 0x08,
        0x00, 0x5d, 0x8a, 0x73, 0x5d, 0x86, 0xa6, 0x10, 0x36, 0x07, 0x00, 0x00, 0x00, 0x05, 0x00, 0x00,
        0x00, 0x05, 0x00, 0x00, 0x00, 0x62, 0x2e, 0x74, 0x78, 0x74, 0xcb, 0x48, 0xcd, 0xc9, 0xc9, 0x07,
        0x00, 0x50, 0x4b, 0x01, 0x02, 0x14, 0x03, 0x14, 0x00, 0x00, 0x08, 0x08, 0x00, 0x5d, 0x8a, 0x73,
        0x5d, 0x71, 0x88, 0x38, 0x0d, 0x33, 0x00, 0x00, 0x00, 0x74, 0x04, 0x00, 0x00, 0x16, 0x00, 0x00,
        0x00, 0x00, 0x00, 0x00, 0x00, 0x00, 0x00, 0x00, 0x00, 0x80, 0x01, 0x00, 0x00, 0x00, 0x00, 0xe0,
        0xa4, 0xa8, 0xe0, 0xa4, 0xae, 0xe0, 0xa4, 0xb8, 0xe0, 0xa5, 0x8d, 0xe0, 0xa4, 0xa4, 0xe0, 0xa5,
        0x87, 0x2e, 0x74, 0x78, 0x74, 0x50, 0x4b, 0x01, 0x02, 0x14, 0x03, 0x14, 0x00, 0x00, 0x00, 0x08,
        0x00, 0x5d, 0x8a, 0x73, 0x5d, 0x86, 0xa6, 0x10, 0x36, 0x07, 0x00, 0x00, 0x00, 0x05, 0x00, 0x00,
        0x00, 0x05, 0x00, 0x00, 0x00, 0x00, 0x00, 0x00, 0x00, 0x00, 0x00, 0x00, 0x00, 0x80, 0x01, 0x67,
        0x00, 0x00, 0x00, 0x62, 0x2e, 0x74, 0x78, 0x74, 0x50, 0x4b, 0x05, 0x06, 0x00, 0x00, 0x00, 0x00,
        0x02, 0x00, 0x02, 0x00, 0x77, 0x00, 0x00, 0x00, 0x91, 0x00, 0x00, 0x00, 0x00, 0x00
    ];
    assert!(zip_in_range(&data));
    let entries = parse_zip(&data).unwrap();
    assert_eq!(entries.len(), 2);
    assert_eq!(entries[0].0, "नमस्ते.txt");
    assert_eq!(entries[0].1, "नमस्ते दुनिया ".repeat(30).into_bytes());
    assert_eq!(entries[1].0, "b.txt");
    assert_eq!(entries[1].1, b"hello".to_vec());
}

#[test]
fn zip_errors() {
    assert_eq!(parse_zip(&[0u8; 10]).unwrap_err(), "ज़िप: फ़ाइल बहुत छोटी");
    assert_eq!(parse_zip(&[0u8; 40]).unwrap_err(), "ज़िप: EOCD नहीं मिला (अमान्य ज़िप)");
    let files = vec![("a".to_string(), b"xyz".to_vec())];
    let mut bytes = build_zip(&files);
    // method 12 in the central record
    let cd = 30 + 1 + 3;
    bytes[cd + 10] = 12;
    assert_eq!(parse_zip(&bytes).unwrap_err(), "ज़िप: असमर्थित संपीडन विधि 12");
    // a broken central record signature
    let mut bad = build_zip(&files);
    bad[cd] = 0;
    assert_eq!(parse_zip(&bad).unwrap_err(), "ज़िप: central directory भ्रष्ट");
    // a broken local header signature
    let mut bad2 = build_zip(&files);
    bad2[0] = 0;
    assert_eq!(parse_zip(&bad2).unwrap_err(), "ज़िप: local header भ्रष्ट");
}

#[test]
fn zip_name_past_end_is_out_of_range() {
    let files = vec![("a".to_string(), b"xyz".to_vec())];
    let mut bytes = build_zip(&files);
    let cd = 30 + 1 + 3;
    bytes[cd + 28] = 0xff;
    bytes[cd + 29] = 0xff;
    assert!(!zip_in_range(&bytes));
}

#[test]
fn zip_invalid_utf8_name_read_lossily() {
    let files = vec![("ab".to_string(), b"xyz".to_vec())];
    let mut bytes = build_zip(&files);
    let cd = 30 + 2 + 3;
    bytes[cd + 46] = 0xff;
    assert!(zip_in_range(&bytes));
    let got = parse_zip(&bytes).unwrap();
    assert_eq!(got[0].0, "\u{FFFD}b");
    assert_eq!(got[0].1, b"xyz".to_vec());
}
