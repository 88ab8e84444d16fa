use amf::Error;
use amf::Value;
use amf::encode;
use amf::from_slice;
use amf::reader::Position;
use amf::reader::Read;
use amf::reader::SliceReader;
use amf::value::Date;
use amf::value::Marker;
use amf::value::insert_entry;
use amf::Deserializer;

fn num(x: f64) -> Value {
    Value::Number(x.to_bits())
}

// --- exact error kinds on malformed input ---

#[test]
fn empty_input_is_eof() {
    assert_eq!(from_slice(&[]), Err(Error::UnexpectedEOF));
}

#[test]
fn unknown_marker_is_syntax_error() {
    assert_eq!(from_slice(&[0x11]), Err(Error::SyntaxError));
    assert_eq!(from_slice(&[0xFF]), Err(Error::SyntaxError));
}

#[test]
fn reserved_markers_are_syntax_errors() {
    // Movieclip, Reference, ObjectEnd standalone, Date, LongString,
    // Unsupported, Recordset, XMLDocument, TypedObject: no settled layout.
    for b in [0x04u8, 0x07, 0x09, 0x0B, 0x0C, 0x0D, 0x0E, 0x0F, 0x10] {
        assert_eq!(from_slice(&[b]), Err(Error::SyntaxError));
    }
}

#[test]
fn invalid_utf8_is_syntax_error() {
    assert_eq!(from_slice(&[0x02, 0x00, 0x01, 0xFF]), Err(Error::SyntaxError));
}

#[test]
fn invalid_utf8_key_is_syntax_error() {
    assert_eq!(from_slice(&[0x03, 0x00, 0x01, 0xFF, 0x05, 0x00, 0x00, 0x09]), Err(Error::SyntaxError));
}

#[test]
fn short_string_payload_is_invalid_size() {
    assert_eq!(from_slice(&[0x02, 0x00, 0x03, 0x00]), Err(Error::InvalidSize));
}

#[test]
fn bad_terminator_is_invalid_size() {
    // A zero key length must be followed by the object-end marker.
    assert_eq!(from_slice(&[0x03, 0x00, 0x00, 0x08]), Err(Error::InvalidSize));
}

#[test]
fn ecma_count_too_long_is_invalid_size() {
    assert_eq!(
        from_slice(&[0x08, 0x00, 0x00, 0x00, 0x03, 0x00, 0x00, 0x09]),
        Err(Error::InvalidSize)
    );
}

#[test]
fn ecma_count_too_short_is_invalid_size() {
    let v = [
        0x08, 0x00, 0x00, 0x00, 0x00, 0x00, 0x01, 0x31, 0x00, 0x40, 0x45, 0x00, 0x00, 0x00, 0x00,
        0x00, 0x00, 0x00, 0x00, 0x09,
    ];
    assert_eq!(from_slice(&v), Err(Error::InvalidSize));
}

#[test]
fn truncated_composites_are_eof() {
    assert_eq!(from_slice(&[0x08, 0x00]), Err(Error::UnexpectedEOF));
    assert_eq!(from_slice(&[0x0A, 0x00, 0x00]), Err(Error::UnexpectedEOF));
    assert_eq!(from_slice(&[0x03, 0x00]), Err(Error::UnexpectedEOF));
    assert_eq!(from_slice(&[0x03, 0x00, 0x00]), Err(Error::UnexpectedEOF));
}

#[test]
fn truncation_never_succeeds() {
    let mut map = Vec::new();
    map.push(("key".to_string(), Value::String("value".to_string())));
    map.push(("tab".to_string(), Value::StrictArray(vec![num(1.5), Value::Null])));
    let full = encode(&Value::Object(map)).unwrap();
    for cut in 0..full.len() {
        assert!(from_slice(&full[..cut]).is_err());
    }
}

// --- boolean payloads ---

#[test]
fn nonzero_boolean_payload_is_true() {
    assert_eq!(from_slice(&[0x01, 0x02]), Ok(Value::Bool(true)));
}

// --- what the encoder refuses ---

#[test]
fn encode_oversize_string_is_invalid_size() {
    let s = "x".repeat(65536);
    assert_eq!(encode(&Value::String(s)), Err(Error::InvalidSize));
    let t = "x".repeat(65535);
    assert!(encode(&Value::String(t)).is_ok());
}

#[test]
fn encode_unsettled_kinds_is_syntax_error() {
    assert_eq!(encode(&Value::Movieclip), Err(Error::SyntaxError));
    assert_eq!(encode(&Value::Reference(7)), Err(Error::SyntaxError));
    assert_eq!(
        encode(&Value::Date(Date { millis_bits: 0, time_zone: 0 })),
        Err(Error::SyntaxError)
    );
    assert_eq!(encode(&Value::LongString("x".to_string())), Err(Error::SyntaxError));
    assert_eq!(encode(&Value::Unsupported), Err(Error::SyntaxError));
    assert_eq!(encode(&Value::Recordset), Err(Error::SyntaxError));
    assert_eq!(encode(&Value::XMLDocument("x".to_string())), Err(Error::SyntaxError));
    assert_eq!(
        encode(&Value::TypedObject("c".to_string(), Vec::new())),
        Err(Error::SyntaxError)
    );
}

#[test]
fn encode_out_of_order_keys_is_syntax_error() {
    let mut map = Vec::new();
    map.push(("b".to_string(), Value::Null));
    map.push(("a".to_string(), Value::Null));
    assert_eq!(encode(&Value::Object(map)), Err(Error::SyntaxError));
}

#[test]
fn encode_duplicate_keys_is_syntax_error() {
    let mut map = Vec::new();
    map.push(("a".to_string(), Value::Null));
    map.push(("a".to_string(), Value::Bool(true)));
    assert_eq!(encode(&Value::Object(map)), Err(Error::SyntaxError));
}

#[test]
fn encode_empty_key_is_invalid_size() {
    // A zero-length key would collide with the termination sentinel.
    let map = vec![("".to_string(), Value::Null)];
    assert_eq!(encode(&Value::Object(map)), Err(Error::InvalidSize));
}

#[test]
fn encode_nested_failure_surfaces() {
    let v = Value::StrictArray(vec![Value::Null, Value::Movieclip]);
    assert_eq!(encode(&v), Err(Error::SyntaxError));
}

// --- round trips ---

#[test]
fn round_trip_nested() {
    let mut inner = Vec::new();
    inner.push(("tab1".to_string(), num(21.0)));
    inner.push(("tab2".to_string(), num(-42.5)));
    let mut map = Vec::new();
    map.push(("proprieties1".to_string(), num(42.0)));
    map.push(("proprieties2".to_string(), Value::String("Hello".to_string())));
    map.push(("proprieties3".to_string(), Value::Bool(true)));
    map.push(("proprieties4".to_string(), Value::ECMAArray(inner)));
    let v = Value::Object(map);
    let bytes = encode(&v).unwrap();
    assert_eq!(from_slice(&bytes).unwrap(), v);
}

#[test]
fn round_trip_strict_array() {
    let v = Value::StrictArray(vec![
        num(1.0),
        Value::Bool(false),
        Value::String("x".to_string()),
        Value::Undefined,
        Value::StrictArray(Vec::new()),
    ]);
    let bytes = encode(&v).unwrap();
    assert_eq!(bytes[0], 0x0A);
    assert_eq!(from_slice(&bytes).unwrap(), v);
}

#[test]
fn round_trip_nan_bits_exactly() {
    let bits = 0x7FF8_0000_0000_1234u64;
    let bytes = encode(&Value::Number(bits)).unwrap();
    assert_eq!(from_slice(&bytes).unwrap(), Value::Number(bits));
}

#[test]
fn round_trip_multibyte_utf8() {
    let v = Value::String("héllo \u{1F600} ¢".to_string());
    let bytes = encode(&v).unwrap();
    // The length field counts UTF-8 bytes, not characters.
    let text = "héllo \u{1F600} ¢";
    assert_eq!(bytes[2] as usize, text.len());
    assert_eq!(from_slice(&bytes).unwrap(), v);
}

#[test]
fn round_trip_multibyte_key() {
    let map = vec![("clé".to_string(), Value::Bool(true))];
    let v = Value::Object(map);
    let bytes = encode(&v).unwrap();
    assert_eq!(from_slice(&bytes).unwrap(), v);
}

#[test]
fn trailing_bytes_are_left_alone() {
    let mut bytes = encode(&Value::Bool(true)).unwrap();
    bytes.extend_from_slice(&[0xAA, 0xBB]);
    assert_eq!(from_slice(&bytes).unwrap(), Value::Bool(true));
}

// --- canonical order ---

#[test]
fn decode_sorts_object_keys() {
    // Wire order "b" then "a"; the decoded object is canonically ordered.
    let v = [
        0x03, 0x00, 0x01, 0x62, 0x05, 0x00, 0x01, 0x61, 0x06, 0x00, 0x00, 0x09,
    ];
    let mut map = Vec::new();
    map.push(("a".to_string(), Value::Undefined));
    map.push(("b".to_string(), Value::Null));
    assert_eq!(from_slice(&v).unwrap(), Value::Object(map));
}

#[test]
fn decode_duplicate_key_last_wins() {
    let v = [
        0x03, 0x00, 0x01, 0x61, 0x01, 0x00, 0x00, 0x01, 0x61, 0x01, 0x01, 0x00, 0x00, 0x09,
    ];
    let map = vec![("a".to_string(), Value::Bool(true))];
    assert_eq!(from_slice(&v).unwrap(), Value::Object(map));
}

#[test]
fn encoding_is_deterministic() {
    let mk = || {
        let mut map = Vec::new();
        map.push(("a".to_string(), num(1.0)));
        map.push(("b".to_string(), Value::Bool(true)));
        Value::Object(map)
    };
    assert_eq!(encode(&mk()).unwrap(), encode(&mk()).unwrap());
}

#[test]
fn insert_entry_orders_and_replaces() {
    let mut es: Vec<(String, Value)> = Vec::new();
    insert_entry(&mut es, "b".to_string(), num(2.0));
    insert_entry(&mut es, "a".to_string(), num(1.0));
    insert_entry(&mut es, "c".to_string(), num(3.0));
    insert_entry(&mut es, "b".to_string(), num(20.0));
    let mut want = Vec::new();
    want.push(("a".to_string(), num(1.0)));
    want.push(("b".to_string(), num(20.0)));
    want.push(("c".to_string(), num(3.0)));
    assert_eq!(es, want);
    // Built in any order, the encoding is the canonical one.
    let mut es2: Vec<(String, Value)> = Vec::new();
    insert_entry(&mut es2, "c".to_string(), num(3.0));
    insert_entry(&mut es2, "b".to_string(), num(20.0));
    insert_entry(&mut es2, "a".to_string(), num(1.0));
    assert_eq!(
        encode(&Value::Object(es)).unwrap(),
        encode(&Value::Object(es2)).unwrap()
    );
}

// --- the marker table and value helpers ---

#[test]
fn marker_table_is_bidirectional() {
    for b in 0u8..=0x10 {
        let m = Marker::from_byte(b).unwrap();
        assert_eq!(m.to_byte(), b);
    }
    assert!(Marker::from_byte(0x11).is_none());
    assert_eq!(Marker::Number.to_byte(), 0x00);
    assert_eq!(Marker::ObjectEnd.to_byte(), 0x09);
}

#[test]
fn value_helpers() {
    assert!(num(2.56).is_number());
    assert!(!Value::Null.is_number());
    assert_eq!(num(2.56).as_number(), Some((2.56f64).to_bits()));
    assert_eq!(Value::Null.as_number(), None);
    assert!(Value::Bool(true).is_bool());
    assert!(!Value::Null.is_bool());
    assert_eq!(Value::Bool(true).as_bool(), Some(true));
    assert_eq!(Value::Null.as_bool(), None);
}

#[test]
fn value_from_bool() {
    assert_eq!(Value::from(true), Value::Bool(true));
    assert_eq!(Value::from(false), Value::Bool(false));
}

#[test]
fn error_describe_names_each_kind() {
    assert_eq!(Error::UnexpectedEOF.describe(), "unexpected end of input");
    assert_eq!(Error::SyntaxError.describe(), "syntax error");
    assert_eq!(Error::InvalidSize.describe(), "invalid size");
}

// --- the byte cursor ---

#[test]
fn slice_reader_cursor_behavior() {
    let data = [10u8, 20, 30];
    let mut r = SliceReader::new(&data);
    assert_eq!(r.position(), Position { line: 0, column: 0 });
    assert_eq!(r.peek(), Some(10));
    assert_eq!(r.position(), Position { line: 0, column: 0 });
    assert_eq!(r.next(), Some(10));
    assert_eq!(r.position(), Position { line: 0, column: 1 });
    let mut snap = r.copy();
    r.discard();
    assert_eq!(r.next(), Some(30));
    assert_eq!(r.next(), None);
    assert_eq!(r.peek(), None);
    assert_eq!(r.position(), Position { line: 0, column: 3 });
    // The snapshot was not disturbed.
    assert_eq!(snap.next(), Some(20));
}

// --- the decoder's pieces ---

#[test]
fn deserializer_primitive_reads() {
    let data = [0x12u8, 0x34, 0x56, 0x78, 0x9A];
    let mut de = Deserializer::new(SliceReader::new(&data));
    assert_eq!(de.read_u16(), Ok(0x1234));
    let mut de = Deserializer::new(SliceReader::new(&data));
    assert_eq!(de.read_u32(), Ok(0x12345678));
    let mut de = Deserializer::new(SliceReader::new(&data));
    assert_eq!(de.read_u64(), Err(Error::UnexpectedEOF));
    let mut de = Deserializer::new(SliceReader::new(&data));
    assert_eq!(de.next_value_or_eof(), Ok(0x12));
}

#[test]
fn deserializer_marker_and_strings() {
    let data = [0x02u8, 0x00, 0x02, 0x68, 0x69];
    let mut de = Deserializer::new(SliceReader::new(&data));
    assert_eq!(de.read_marker(), Ok(Marker::String));
    assert_eq!(de.parse_string(), Ok("hi".to_string()));

    let key = [0x00u8, 0x02, 0x68, 0x69];
    let mut de = Deserializer::new(SliceReader::new(&key));
    assert_eq!(de.parse_string_or_end(), Ok(Some("hi".to_string())));

    let end = [0x00u8, 0x00, 0x09];
    let mut de = Deserializer::new(SliceReader::new(&end));
    assert_eq!(de.parse_string_or_end(), Ok(None));
}
