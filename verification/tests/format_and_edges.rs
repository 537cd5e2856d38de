use libubox::{BlobAttr, BlobBuf, BlobError, BlobmsgAttr, BlobmsgBuf, BlobmsgParser, BlobmsgType};

fn six_places(bits: u64) -> Vec<u8> {
    format!("{:.6}", f64::from_bits(bits)).into_bytes()
}

#[test]
fn json_layout_of_nested_fields() {
    let mut b = BlobmsgBuf::new().expect("init");
    b.add_string(b"name", b"foo").unwrap();
    b.add_u32(b"count", 42).unwrap();
    b.add_array(b"items", |arr| {
        arr.add_string(b"", b"a")?;
        arr.add_string(b"", b"b")?;
        Ok(())
    })
    .unwrap();
    let json = String::from_utf8(b.format_json(six_places)).unwrap();
    assert_eq!(
        json,
        "{\n\t\"name\": \"foo\",\n\t\"count\": 42,\n\t\"items\": [\n\t\t\"a\",\n\t\t\"b\"\n\t]\n}"
    );
}

#[test]
fn json_scalars_and_escapes() {
    let mut b = BlobmsgBuf::new().expect("init");
    b.add_bool(b"on", true).unwrap();
    b.add_i16(b"s", -300).unwrap();
    b.add_i64(b"big", i64::MIN).unwrap();
    b.add_double_bits(b"d", 1.5f64.to_bits()).unwrap();
    b.add_string(b"q", b"a\"b\\c\n\x01").unwrap();
    let json = String::from_utf8(b.format_json(six_places)).unwrap();
    assert_eq!(
        json,
        "{\n\t\"on\": true,\n\t\"s\": -300,\n\t\"big\": -9223372036854775808,\n\t\"d\": 1.500000,\n\t\"q\": \"a\\\"b\\\\c\\n\\u0001\"\n}"
    );
}

#[test]
fn json_of_empty_table() {
    let b = BlobmsgBuf::new().expect("init");
    assert_eq!(String::from_utf8(b.format_json(six_places)).unwrap(), "{\n\t\n}");
}

#[test]
fn header_layout_and_padding() {
    let mut b = BlobBuf::new().expect("init");
    b.add_bytes(3, &[1, 2, 3, 4, 5]).unwrap();
    // root header (id 0, length 4 + 12) then the child: header (id 3, length 9), 5 bytes, 3 zero bytes.
    assert_eq!(
        b.as_ptr(),
        &[0, 0, 0, 16, 3, 0, 0, 9, 1, 2, 3, 4, 5, 0, 0, 0]
    );
    let child = b.root().iter().next().unwrap();
    assert_eq!(child.raw_len(), 9);
    assert_eq!(child.pad_len(), 12);
    assert_eq!(child.len(), 5);
    assert!(!child.is_empty());
    assert!(!child.is_extended());
}

#[test]
fn ids_keep_seven_bits() {
    let mut b = BlobBuf::new().expect("init");
    b.add_u8(0x85, 1).unwrap();
    assert_eq!(b.root().iter().next().unwrap().id(), 5);
}

#[test]
fn walk_stops_at_truncated_attribute() {
    // A child header declaring 12 bytes, with only 8 present.
    let bytes = [0u8, 0, 0, 12, 1, 0, 0, 12, 9, 9, 9, 9];
    let root = BlobAttr::from_raw(&bytes).expect("root");
    let mut it = root.iter();
    assert!(it.next().is_none());
    assert!(it.next().is_none());
}

#[test]
fn from_raw_rejects_short_or_overlong() {
    assert!(BlobAttr::from_raw(&[0, 0, 0]).is_none());
    assert!(BlobAttr::from_raw(&[0, 0, 0, 8, 1, 2]).is_none());
    assert!(BlobAttr::from_raw(&[0, 0, 0, 4]).is_some());
}

#[test]
fn oversized_attribute_is_refused() {
    let mut b = BlobBuf::new().expect("init");
    let big = vec![0u8; 0x00ff_fff8];
    assert_eq!(b.add_bytes(1, &big), Err(BlobError::Oom));
    assert_eq!(b.root().len(), 0);
    // Room is left for a small attribute.
    assert!(b.add_u8(1, 7).is_ok());
}

#[test]
fn overlong_name_is_refused() {
    let mut b = BlobmsgBuf::new().expect("init");
    let name = vec![b'x'; 65536];
    assert_eq!(b.add_u8(&name, 1), Err(BlobError::Oom));
    assert!(b.root().iter().next().is_none());
}

#[test]
fn nested_container_reads_back() {
    let mut b = BlobBuf::new().expect("init");
    b.add_u8(1, 1).unwrap();
    b.nest(2, |n| {
        n.add_u8(3, 3)?;
        n.nest(4, |m| m.add_u16(5, 0xBEEF))
    })
    .unwrap();
    b.add_u8(6, 6).unwrap();
    let kids = b.root().iter().collect();
    assert_eq!(kids.len(), 3);
    assert_eq!(kids[1].id(), 2);
    let inner = kids[1].iter().collect();
    assert_eq!(inner.len(), 2);
    assert_eq!(inner[0].data(), &[3]);
    let deepest = inner[1].iter().next().unwrap();
    assert_eq!(deepest.id(), 5);
    assert_eq!(deepest.data(), &[0xBE, 0xEF]);
    assert_eq!(kids[2].data(), &[6]);
}

#[test]
fn signed_values_read_back() {
    let mut b = BlobmsgBuf::new().expect("init");
    b.add_i8(b"a", -2).unwrap();
    b.add_i16(b"b", -300).unwrap();
    b.add_i32(b"c", i32::MIN).unwrap();
    b.add_i64(b"d", -5).unwrap();
    let kids = b.root().iter().collect();
    assert_eq!(kids[0].as_i8(), Some(-2));
    assert_eq!(kids[1].as_i16(), Some(-300));
    assert_eq!(kids[2].as_i32(), Some(i32::MIN));
    assert_eq!(kids[3].as_i64(), Some(-5));
    // Typed getters refuse other types.
    assert_eq!(kids[0].as_u32(), None);
    assert_eq!(kids[2].as_u16(), None);
    assert!(kids[3].as_str().is_none());
    assert!(kids[3].as_table().is_none());
    assert!(kids[3].as_array().is_none());
}

#[test]
fn name_and_payload_of_a_field() {
    let mut b = BlobmsgBuf::new().expect("init");
    b.add_u16(b"abc", 0x0102).unwrap();
    let f = b.root().iter().next().unwrap();
    assert_eq!(f.name(), b"abc");
    assert_eq!(f.payload(), &[1, 2]);
    assert_eq!(f.type_id(), Some(BlobmsgType::Int16));
    // 2-byte length, 3-byte name, NUL: padded to 8.
    assert_eq!(f.raw().data().len(), 8 + 2);
    // The outermost table has no name; its payload is all its fields.
    assert_eq!(b.root().name(), b"");
    assert_eq!(b.root().payload().len(), 4 + 8 + 4);
}

#[test]
fn type_codes() {
    assert_eq!(BlobmsgType::from_raw(2), Some(BlobmsgType::Table));
    assert_eq!(BlobmsgType::from_raw(8), Some(BlobmsgType::Double));
    assert_eq!(BlobmsgType::from_raw(9), None);
    assert_eq!(BlobmsgType::Int8.to_raw(), 7);
}

#[test]
fn parse_of_empty_table_fails() {
    let b = BlobmsgBuf::new().expect("init");
    let mut p = BlobmsgParser::new();
    p.field(b"x", BlobmsgType::Int32);
    assert_eq!(p.parse(b.root()).err(), Some(BlobError::ParseFailed(-22)));
}

#[test]
fn parse_rejects_malformed_field() {
    // An Int32-typed attribute holding only two bytes.
    let mut b = BlobBuf::new().expect("init");
    b.add_u16(5, 7).unwrap();
    let mut p = BlobmsgParser::default();
    p.field(b"x", BlobmsgType::Int32);
    assert_eq!(p.parse(BlobmsgAttr::from_blob(b.root())).err(), Some(BlobError::ParseFailed(-1)));
}

#[test]
fn parse_takes_first_match_and_unspec_matches_any_type() {
    let mut b = BlobmsgBuf::new().expect("init");
    b.add_u32(b"k", 1).unwrap();
    b.add_string(b"k", b"two").unwrap();
    b.add_u32(b"k", 3).unwrap();
    let mut p = BlobmsgParser::new();
    p.field(b"k", BlobmsgType::Int32)
        .field(b"k", BlobmsgType::String)
        .field(b"k", BlobmsgType::Unspec)
        .field(b"k", BlobmsgType::Int64);
    let out = p.parse(b.root()).expect("parse");
    assert_eq!(out[0].unwrap().as_u32(), Some(1));
    assert_eq!(out[1].unwrap().as_str(), Some(&b"two"[..]));
    assert_eq!(out[2].unwrap().as_u32(), Some(1));
    assert!(out[3].is_none());
}

#[test]
fn into_inner_keeps_bytes() {
    let mut b = BlobmsgBuf::new().expect("init");
    b.add_u8(b"a", 1).unwrap();
    let before = b.as_ptr().to_vec();
    let inner = b.into_inner();
    assert_eq!(inner.as_ptr(), &before[..]);
    assert_eq!(inner.root().id(), 2);
}

#[test]
fn add_fields_from_copies_fields_in_order() {
    let mut src = BlobmsgBuf::new().expect("init");
    src.add_string(b"name", b"foo").unwrap();
    src.add_u32(b"count", 42).unwrap();
    src.add_table(b"inner", |t| t.add_bool(b"on", true)).unwrap();

    let mut dst = BlobmsgBuf::new().expect("init");
    dst.add_u8(b"first", 7).unwrap();
    let root = src.root();
    dst.add_fields_from(root).unwrap();

    let names: Vec<Vec<u8>> = dst.root().iter().collect().iter().map(|c| c.name().to_vec()).collect();
    assert_eq!(names, vec![b"first".to_vec(), b"name".to_vec(), b"count".to_vec(), b"inner".to_vec()]);
    let json = String::from_utf8(dst.format_json(six_places)).unwrap();
    assert_eq!(
        json,
        "{\n\t\"first\": true,\n\t\"name\": \"foo\",\n\t\"count\": 42,\n\t\"inner\": {\n\t\t\"on\": true\n\t}\n}"
    );
}

#[test]
fn add_fields_from_empty_table_changes_nothing() {
    let src = BlobmsgBuf::new().expect("init");
    let mut dst = BlobmsgBuf::new().expect("init");
    dst.add_u8(b"a", 1).unwrap();
    let before = dst.as_ptr().to_vec();
    dst.add_fields_from(src.root()).unwrap();
    assert_eq!(dst.as_ptr(), &before[..]);
}

#[test]
fn root_of_inner_buffer_is_a_table() {
    let mut b = BlobmsgBuf::new().expect("init");
    b.add_array(b"xs", |a| a.add_u32(b"", 1)).unwrap();
    let len = b.root().raw().raw_len();
    let inner = b.into_inner();
    let root = inner.root();
    assert_eq!(root.id(), 2);
    assert!(!root.is_extended());
    assert_eq!(root.raw_len(), len);
}
