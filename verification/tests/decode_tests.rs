use nbt_view::decode;
use nbt_view::DecodeError;
use nbt_view::NbtEndian;
use nbt_view::NbtHeader;
use nbt_view::Tag;

fn ok(
    buf: Vec<u8>,
    h: NbtHeader,
    d: NbtEndian,
) -> (String, Tag, Option<(i32, i32)>) {
    decode(&buf, h, d).expect("decode should succeed")
}

fn err(buf: Vec<u8>, h: NbtHeader, d: NbtEndian) -> DecodeError {
    decode(&buf, h, d).expect_err("decode should fail")
}

#[test]
fn empty_compound_little_endian() {
    let r = ok(
        vec![0x0A, 0x00, 0x00, 0x00],
        NbtHeader::NoHeader,
        NbtEndian::Little,
    );
    assert_eq!(r, (String::new(), Tag::Compound(vec![]), None));
}

#[test]
fn empty_compound_consumes_one_end_marker() {
    // The same stream with trailing bytes: the compound ends at its one
    // end-marker byte and the rest is ignored.
    let r = ok(
        vec![0x0A, 0x00, 0x00, 0x00, 0xFF, 0xFF],
        NbtHeader::NoHeader,
        NbtEndian::Little,
    );
    assert_eq!(r, (String::new(), Tag::Compound(vec![]), None));
}

#[test]
fn named_int32_little_endian() {
    let r = ok(
        vec![
            0x03, 0x04, 0x00, b'N', b'a', b'm', b'e', 0x2A, 0x00, 0x00, 0x00,
        ],
        NbtHeader::NoHeader,
        NbtEndian::Little,
    );
    assert_eq!(r, ("Name".to_string(), Tag::Int32(42), None));
}

#[test]
fn generic_header_is_little_endian_under_every_dialect() {
    // (first = 1, length = 256) as little-endian int32 pairs, then an
    // empty compound in the chosen body dialect.
    let header = vec![0x01, 0x00, 0x00, 0x00, 0x00, 0x01, 0x00, 0x00];
    let mut le = header.clone();
    le.extend_from_slice(&[0x0A, 0x00, 0x00, 0x00]);
    let r = ok(le, NbtHeader::Normal, NbtEndian::Little);
    assert_eq!(r.2, Some((1, 256)));

    let mut be = header.clone();
    be.extend_from_slice(&[0x0A, 0x00, 0x00, 0x00]);
    let r = ok(be, NbtHeader::Normal, NbtEndian::Big);
    assert_eq!(r.2, Some((1, 256)));

    let mut net = header.clone();
    net.extend_from_slice(&[0x0A, 0x00, 0x00]);
    let r = ok(net, NbtHeader::Normal, NbtEndian::LittleNetwork);
    assert_eq!(r.2, Some((1, 256)));
}

#[test]
fn level_dat_header_reads_the_same_two_integers() {
    let buf = vec![
        0x09, 0x00, 0x00, 0x00, 0x2A, 0x00, 0x00, 0x00, 0x0A, 0x00, 0x00, 0x00,
    ];
    let r = ok(buf, NbtHeader::LevelDat, NbtEndian::Little);
    assert_eq!(r.2, Some((9, 42)));
}

#[test]
fn missing_header_bytes_fail_with_eof() {
    let e = err(
        vec![0x01, 0x00, 0x00, 0x00, 0x00, 0x01],
        NbtHeader::Normal,
        NbtEndian::Little,
    );
    assert_eq!(e, DecodeError::UnexpectedEof);
}

#[test]
fn zero_count_list_consumes_type_and_count() {
    // A compound holding a zero-count list and then a byte: the byte is
    // found only if the list consumed its element-type byte and all four
    // count bytes.
    let buf = vec![
        0x0A, 0x00, 0x00, // compound ""
        0x09, 0x01, 0x00, b'l', 0x01, 0x00, 0x00, 0x00, 0x00, // "l": list, elem Byte, count 0
        0x01, 0x01, 0x00, b'b', 0x07, // "b": Byte(7)
        0x00, // end marker
    ];
    let r = ok(buf, NbtHeader::NoHeader, NbtEndian::Little);
    assert_eq!(
        r.1,
        Tag::Compound(vec![
            ("l".to_string(), Tag::List(vec![])),
            ("b".to_string(), Tag::Byte(7)),
        ])
    );
}

#[test]
fn end_marker_element_type_yields_empty_list() {
    // Declared element type 0 with a nonzero count still decodes to an
    // empty list.
    let buf = vec![0x09, 0x00, 0x00, 0x00, 0x05, 0x00, 0x00, 0x00];
    let r = ok(buf, NbtHeader::NoHeader, NbtEndian::Little);
    assert_eq!(r.1, Tag::List(vec![]));
}

#[test]
fn negative_list_count_is_rejected() {
    let buf = vec![0x09, 0x00, 0x00, 0x01, 0xFF, 0xFF, 0xFF, 0xFF];
    let e = err(buf, NbtHeader::NoHeader, NbtEndian::Little);
    assert_eq!(e, DecodeError::InvalidListLength(-1));
}

#[test]
fn unknown_type_byte_is_reported() {
    let e = err(vec![0x0B, 0x00, 0x00], NbtHeader::NoHeader, NbtEndian::Little);
    assert_eq!(e, DecodeError::UnknownTagType(0x0B));
    let e = err(vec![0xFF], NbtHeader::NoHeader, NbtEndian::Big);
    assert_eq!(e, DecodeError::UnknownTagType(0xFF));
    // 7 names no tag kind of this set either.
    let e = err(vec![0x07, 0x00, 0x00], NbtHeader::NoHeader, NbtEndian::Little);
    assert_eq!(e, DecodeError::UnknownTagType(0x07));
}

#[test]
fn invalid_utf8_is_reported() {
    let buf = vec![0x08, 0x00, 0x00, 0x02, 0x00, 0xFF, 0xFE];
    let e = err(buf, NbtHeader::NoHeader, NbtEndian::Little);
    assert_eq!(e, DecodeError::InvalidUtf8);
}

#[test]
fn every_truncation_of_a_valid_buffer_fails_with_eof() {
    let full = vec![
        0x03, 0x04, 0x00, b'N', b'a', b'm', b'e', 0x2A, 0x00, 0x00, 0x00,
    ];
    for cut in 0..full.len() {
        let e = err(full[..cut].to_vec(), NbtHeader::NoHeader, NbtEndian::Little);
        assert_eq!(e, DecodeError::UnexpectedEof, "cut at {cut}");
    }
}

#[test]
fn truncated_nested_buffer_fails_with_eof() {
    let full = vec![
        0x0A, 0x00, 0x00, // compound ""
        0x09, 0x01, 0x00, b'l', 0x01, 0x02, 0x00, 0x00, 0x00, 0x05, 0x06, // list of two bytes
        0x00, // end marker
    ];
    assert!(decode(&full, NbtHeader::NoHeader, NbtEndian::Little).is_ok());
    for cut in 0..full.len() {
        let e = err(full[..cut].to_vec(), NbtHeader::NoHeader, NbtEndian::Little);
        assert_eq!(e, DecodeError::UnexpectedEof, "cut at {cut}");
    }
}

#[test]
fn dialects_agree_on_the_same_logical_tree() {
    // "a": Int32(300) in each dialect's own byte encoding.
    let le = vec![0x03, 0x01, 0x00, b'a', 0x2C, 0x01, 0x00, 0x00];
    let be = vec![0x03, 0x00, 0x01, b'a', 0x00, 0x00, 0x01, 0x2C];
    // zig-zag(300) = 600 = LEB128 [0xD8, 0x04]
    let net = vec![0x03, 0x01, b'a', 0xD8, 0x04];
    let want = ("a".to_string(), Tag::Int32(300), None);
    assert_eq!(ok(le, NbtHeader::NoHeader, NbtEndian::Little), want);
    assert_eq!(ok(be, NbtHeader::NoHeader, NbtEndian::Big), want);
    assert_eq!(ok(net, NbtHeader::NoHeader, NbtEndian::LittleNetwork), want);
}

#[test]
fn network_zigzag_reads_negative_values() {
    // zig-zag(-1) = 1; zig-zag(-2) = 3.
    let buf = vec![0x03, 0x00, 0x01];
    let r = ok(buf, NbtHeader::NoHeader, NbtEndian::LittleNetwork);
    assert_eq!(r.1, Tag::Int32(-1));
    let buf = vec![0x04, 0x00, 0x03];
    let r = ok(buf, NbtHeader::NoHeader, NbtEndian::LittleNetwork);
    assert_eq!(r.1, Tag::Int64(-2));
}

#[test]
fn primitive_payloads_decode_exactly() {
    let r = ok(vec![0x01, 0x00, 0x00, 0x80], NbtHeader::NoHeader, NbtEndian::Little);
    assert_eq!(r.1, Tag::Byte(-128));
    let r = ok(vec![0x02, 0x00, 0x00, 0xFE, 0xFF], NbtHeader::NoHeader, NbtEndian::Little);
    assert_eq!(r.1, Tag::Int16(-2));
    let r = ok(
        vec![0x04, 0x00, 0x00, 0x01, 0x00, 0x00, 0x00, 0x00, 0x00, 0x00, 0x80],
        NbtHeader::NoHeader,
        NbtEndian::Little,
    );
    assert_eq!(r.1, Tag::Int64(i64::MIN + 1));
    let r = ok(
        vec![0x02, 0x00, 0x00, 0x01, 0x02],
        NbtHeader::NoHeader,
        NbtEndian::Big,
    );
    assert_eq!(r.1, Tag::Int16(0x0102));
}

#[test]
fn float_payloads_carry_ieee_bits() {
    let mut buf = vec![0x05, 0x00, 0x00];
    buf.extend_from_slice(&1.5f32.to_bits().to_le_bytes());
    let r = ok(buf, NbtHeader::NoHeader, NbtEndian::Little);
    assert_eq!(r.1, Tag::Float32(1.5f32.to_bits()));

    let mut buf = vec![0x06, 0x00, 0x00];
    buf.extend_from_slice(&(-2.25f64).to_bits().to_be_bytes());
    let r = ok(buf, NbtHeader::NoHeader, NbtEndian::Big);
    assert_eq!(r.1, Tag::Float64((-2.25f64).to_bits()));
}

#[test]
fn string_payload_round_trips_utf8() {
    // "héllo" in UTF-8 is six bytes.
    let text = "h\u{e9}llo";
    let bytes = text.as_bytes();
    let mut buf = vec![0x08, 0x00, 0x00, bytes.len() as u8, 0x00];
    buf.extend_from_slice(bytes);
    let r = ok(buf, NbtHeader::NoHeader, NbtEndian::Little);
    assert_eq!(r.1, Tag::String(text.to_string()));
}

#[test]
fn network_string_length_is_a_varint() {
    let mut buf = vec![0x08, 0x00, 0x03];
    buf.extend_from_slice(b"abc");
    let r = ok(buf, NbtHeader::NoHeader, NbtEndian::LittleNetwork);
    assert_eq!(r.1, Tag::String("abc".to_string()));
}

#[test]
fn list_of_strings_keeps_order() {
    let buf = vec![
        0x09, 0x00, 0x00, // list ""
        0x08, 0x02, 0x00, 0x00, 0x00, // elem type String, count 2
        0x01, 0x00, b'x', // "x"
        0x01, 0x00, b'y', // "y"
    ];
    let r = ok(buf, NbtHeader::NoHeader, NbtEndian::Little);
    assert_eq!(
        r.1,
        Tag::List(vec![
            Tag::String("x".to_string()),
            Tag::String("y".to_string()),
        ])
    );
}

#[test]
fn nested_compounds_decode_recursively() {
    let buf = vec![
        0x0A, 0x00, 0x00, // compound ""
        0x0A, 0x01, 0x00, b'c', // "c": compound
        0x01, 0x01, 0x00, b'v', 0x05, // "v": Byte(5)
        0x00, // end of "c"
        0x00, // end of root
    ];
    let r = ok(buf, NbtHeader::NoHeader, NbtEndian::Little);
    assert_eq!(
        r.1,
        Tag::Compound(vec![(
            "c".to_string(),
            Tag::Compound(vec![("v".to_string(), Tag::Byte(5))]),
        )])
    );
}

#[test]
fn duplicate_compound_names_overwrite_in_place() {
    let buf = vec![
        0x0A, 0x00, 0x00, // compound ""
        0x01, 0x01, 0x00, b'a', 0x01, // "a": Byte(1)
        0x01, 0x01, 0x00, b'b', 0x02, // "b": Byte(2)
        0x01, 0x01, 0x00, b'a', 0x03, // "a": Byte(3) again
        0x00, // end marker
    ];
    let r = ok(buf, NbtHeader::NoHeader, NbtEndian::Little);
    assert_eq!(
        r.1,
        Tag::Compound(vec![
            ("a".to_string(), Tag::Byte(3)),
            ("b".to_string(), Tag::Byte(2)),
        ])
    );
}

#[test]
fn bare_end_marker_is_the_empty_root() {
    let r = ok(vec![0x00], NbtHeader::NoHeader, NbtEndian::Little);
    assert_eq!(r, (String::new(), Tag::Empty, None));
}

#[test]
fn empty_buffer_fails_with_eof() {
    let e = err(vec![], NbtHeader::NoHeader, NbtEndian::Little);
    assert_eq!(e, DecodeError::UnexpectedEof);
}
