//! Tests of the binary frame layout: a layout built by calls stands in for
//! the attribute-annotated struct, and the frame's accessors stand in for
//! the generated field methods.

use guardian_store::{Attributes, Endian, Field, Frame, Kind, Layout};

fn test_frame_layout() -> Layout {
    Layout {
        name: "TestFrame".to_string(),
        attributes: Attributes::default(),
        fields: vec![
            Field {
                name: "id".to_string(),
                kind: Layout::parse_type("u32", &Endian::Big).unwrap(),
            },
            Field {
                name: "data".to_string(),
                kind: Layout::parse_type("rest", &Endian::Big).unwrap(),
            },
        ],
    }
}

#[test]
fn test_frame_macro() {
    // Test data: id=1234567890, data=[1,2,3]
    let data = [
        0x49, 0x96, 0x02, 0xD2, // u32: 1234567890
        0x01, 0x02, 0x03, // rest data
    ];

    let layout = test_frame_layout();
    let frame = Frame::new(&layout, &data).unwrap();
    assert_eq!(frame.unsigned(0).unwrap(), 1234567890);
    assert_eq!(frame.raw(1).unwrap(), &[0x01, 0x02, 0x03]);
}

#[test]
fn test_frame_too_short() {
    let layout = test_frame_layout();
    let data = [0x49, 0x96, 0x02];
    assert!(Frame::new(&layout, &data).is_err());
}

#[test]
fn test_frame_little_endian_and_text() {
    let layout = Layout {
        name: "Mixed".to_string(),
        attributes: Attributes::default(),
        fields: vec![
            Field {
                name: "count".to_string(),
                kind: Layout::parse_type("u16_le", &Endian::Big).unwrap(),
            },
            Field {
                name: "tag".to_string(),
                kind: Layout::parse_type("str(2)", &Endian::Big).unwrap(),
            },
            Field {
                name: "blob".to_string(),
                kind: Layout::parse_type("bytes(2)", &Endian::Big).unwrap(),
            },
        ],
    };
    let data = [0x34, 0x12, b'o', b'k', 0xAA, 0xBB];
    let frame = Frame::new(&layout, &data).unwrap();
    assert_eq!(frame.unsigned(0).unwrap(), 0x1234);
    assert_eq!(frame.text(1).unwrap(), "ok");
    assert_eq!(frame.raw(2).unwrap(), &[0xAA, 0xBB]);
    assert_eq!(frame.size(), 6);
    assert_eq!(frame.version(), None);
}

#[test]
fn test_frame_signed_field() {
    let layout = Layout {
        name: "Signed".to_string(),
        attributes: Attributes::default(),
        fields: vec![Field {
            name: "delta".to_string(),
            kind: Layout::parse_type("i16", &Endian::Big).unwrap(),
        }],
    };
    let data = [0xFF, 0xFE];
    let frame = Frame::new(&layout, &data).unwrap();
    assert_eq!(frame.signed(0).unwrap(), -2);
    assert!(frame.unsigned(0).is_err());
}

#[test]
fn test_parse_int_names() {
    assert_eq!(Layout::parse_int("u8"), Some((8, false, None)));
    assert_eq!(Layout::parse_int("i16"), Some((16, true, None)));
    assert_eq!(Layout::parse_int("u32_be"), Some((32, false, Some(Endian::Big))));
    assert_eq!(Layout::parse_int("u64_le"), Some((64, false, Some(Endian::Little))));
    assert_eq!(Layout::parse_int("f32"), None);
    assert_eq!(Layout::parse_int("u128"), None);
    assert_eq!(Layout::parse_int(""), None);
}

#[test]
fn test_parse_sized_names() {
    assert_eq!(Layout::parse_str("str(16)").unwrap(), Kind::Str { size: 16 });
    assert!(Layout::parse_str("str()").is_err());
    assert!(Layout::parse_str("str(1x)").is_err());
    assert!(Layout::parse_str("strx16)").is_err());
    assert_eq!(Layout::parse_bytes("bytes(8)").unwrap(), Kind::Bytes { size: 8 });
    assert!(Layout::parse_bytes("bytes[8]").is_err());
    assert!(Layout::parse_type("octets(8)", &Endian::Big).is_err());
}

#[test]
fn test_min_size_and_offsets() {
    let fields = vec![
        Field { name: "a".to_string(), kind: Kind::Integer { bits: 32, signed: false, endian: None } },
        Field { name: "b".to_string(), kind: Kind::Str { size: 16 } },
        Field { name: "c".to_string(), kind: Kind::Rest },
    ];
    assert_eq!(guardian_store::field_size(&fields[0]), 4);
    assert_eq!(guardian_store::field_size(&fields[1]), 16);
    assert_eq!(guardian_store::field_size(&fields[2]), 0);
    assert_eq!(guardian_store::calculate_min_size(&fields), 20);
    assert_eq!(guardian_store::field_offset(&fields, 0), 0);
    assert_eq!(guardian_store::field_offset(&fields, 1), 4);
    assert_eq!(guardian_store::field_offset(&fields, 2), 20);
}
