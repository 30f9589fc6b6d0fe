use tantivy_ingest::document::Document;
use tantivy_ingest::schema::{DateTime, Facet, Field, FieldValue, PreTokenizedString, Token, Value};

fn text_of(v: &Value) -> String {
    match v {
        Value::Str(s) => s.clone(),
        _ => panic!("Incorrect variant of Value"),
    }
}

fn sample_pre_tokenized() -> PreTokenizedString {
    PreTokenizedString {
        text: String::from("A"),
        tokens: vec![Token {
            offset_from: 0,
            offset_to: 1,
            position: 0,
            text: String::from("A"),
            position_length: 1,
        }],
    }
}

#[test]
fn test_doc() {
    let text_field = Field(0);
    let mut doc = Document::default();
    doc.add_text(text_field, "My title");
    assert_eq!(doc.field_values().len(), 1);
}

#[test]
fn test_prepare_for_store() {
    let text_field = Field(0);
    let mut doc = Document::default();
    let pre_tokenized_text = sample_pre_tokenized();
    doc.add_pre_tokenized_text(text_field, &pre_tokenized_text);
    doc.add_text(text_field, "title");
    doc.prepare_for_store();

    assert_eq!(doc.field_values().len(), 2);

    match doc.field_values()[0].value() {
        Value::Str(ref text) => assert_eq!(text, "A"),
        _ => panic!("Incorrect variant of Value"),
    }

    match doc.field_values()[1].value() {
        Value::Str(ref text) => assert_eq!(text, "title"),
        _ => panic!("Incorrect variant of Value"),
    }
}

#[test]
fn prepare_for_store_twice_is_once() {
    let mut doc = Document::new();
    doc.add_pre_tokenized_text(Field(1), &sample_pre_tokenized());
    doc.add_u64(Field(2), 7);
    doc.prepare_for_store();
    let once = doc.serialize();
    doc.prepare_for_store();
    assert_eq!(doc.serialize(), once);
    assert_eq!(doc.len(), 2);
}

#[test]
fn prepare_for_store_without_pre_tokenized_is_identity() {
    let mut doc = Document::new();
    doc.add_text(Field(1), "x");
    doc.add_i64(Field(2), -3);
    let before = doc.serialize();
    doc.prepare_for_store();
    assert_eq!(doc.serialize(), before);
}

#[test]
fn empty_document() {
    let doc = Document::new();
    assert_eq!(doc.len(), 0);
    assert!(doc.is_empty());
    let bytes = doc.serialize();
    assert_eq!(bytes, vec![0x80u8]);
    let back = Document::deserialize(&bytes).unwrap();
    assert!(back.is_empty());
}

#[test]
fn grouping_orders_fields_and_keeps_relative_order() {
    let mut doc = Document::new();
    doc.add_u64(Field(3), 30);
    doc.add_u64(Field(1), 10);
    doc.add_u64(Field(3), 31);
    doc.add_u64(Field(2), 20);
    let groups = doc.get_sorted_field_values();
    let fields: Vec<u32> = groups.iter().map(|g| g.0 .0).collect();
    assert_eq!(fields, vec![1, 2, 3]);
    assert_eq!(groups[2].1.len(), 2);
    assert!(matches!(groups[2].1[0].value(), Value::U64(30)));
    assert!(matches!(groups[2].1[1].value(), Value::U64(31)));
    assert!(matches!(groups[0].1[0].value(), Value::U64(10)));
}

#[test]
fn grouping_of_empty_document_is_empty() {
    assert!(Document::new().get_sorted_field_values().is_empty());
}

#[test]
fn multi_valued_field_survives_add_filter_and_round_trip() {
    let mut doc = Document::new();
    doc.add_text(Field(5), "first");
    doc.add_u64(Field(6), 1);
    doc.add_text(Field(5), "second");
    doc.filter_fields(|f: Field| f.0 == 5);
    assert_eq!(doc.len(), 2);
    let back = Document::deserialize(&doc.serialize()).unwrap();
    let all = back.get_all(Field(5));
    assert_eq!(all.len(), 2);
    assert_eq!(text_of(all[0]), "first");
    assert_eq!(text_of(all[1]), "second");
}

#[test]
fn get_first_and_get_all() {
    let mut doc = Document::new();
    doc.add_u64(Field(1), 5);
    doc.add_i64(Field(2), -5);
    doc.add_u64(Field(1), 6);
    assert!(matches!(doc.get_first(Field(1)), Some(Value::U64(5))));
    assert!(doc.get_first(Field(9)).is_none());
    assert_eq!(doc.get_all(Field(1)).len(), 2);
    assert!(doc.get_all(Field(9)).is_empty());
}

#[test]
fn round_trip_every_kind_of_value() {
    let mut doc = Document::new();
    doc.add_text(Field(0), "héllo");
    doc.add_u64(Field(1), u64::MAX);
    doc.add_i64(Field(2), i64::MIN);
    doc.add_f64(Field(3), 1.5f64.to_bits());
    doc.add_date(Field(4), &DateTime { timestamp: -86400 });
    doc.add_facet(Field(5), Facet { encoded: String::from("a\u{0}b") });
    doc.add_bytes(Field(6), vec![0, 1, 255]);
    doc.add_pre_tokenized_text(Field(300), &sample_pre_tokenized());
    doc.add(FieldValue::new(Field(u32::MAX), Value::U64(0)));
    let bytes = doc.serialize();
    let back = Document::deserialize(&bytes).unwrap();
    assert_eq!(back.len(), doc.len());
    assert_eq!(back.serialize(), bytes);
    assert!(back == doc);
    assert!(matches!(back.get_first(Field(2)), Some(Value::I64(i64::MIN))));
    match back.get_first(Field(3)) {
        Some(Value::F64(bits)) => assert_eq!(f64::from_bits(*bits), 1.5),
        _ => panic!("Incorrect variant of Value"),
    }
}

#[test]
fn serialize_exact_bytes() {
    let mut doc = Document::new();
    doc.add_u64(Field(200), 1);
    doc.add_text(Field(1), "ab");
    let expected: Vec<u8> = vec![
        0x82, // two pairs
        0x48, 0x81, // field 200
        1, 1, 0, 0, 0, 0, 0, 0, 0, // u64 tag, 1 little endian
        0x81, // field 1
        0, 0x82, b'a', b'b', // text tag, length 2, bytes
    ];
    assert_eq!(doc.serialize(), expected);
}

#[test]
fn deserialize_rejects_truncated_and_corrupt_input() {
    let mut doc = Document::new();
    doc.add_text(Field(1), "abc");
    let bytes = doc.serialize();
    for n in 0..bytes.len() {
        let err = Document::deserialize(&bytes[..n]).unwrap_err();
        assert_eq!(err.input_len, n);
    }
    let mut trailing = bytes.clone();
    trailing.push(0);
    assert!(Document::deserialize(&trailing).unwrap() == doc);
    // unknown value tag
    assert!(Document::deserialize(&[0x81, 0x81, 9]).is_err());
    // invalid UTF-8 in a text value
    assert!(Document::deserialize(&[0x81, 0x81, 0, 0x81, 0xff]).is_err());
    // non-canonical vint for the count
    assert!(Document::deserialize(&[0x00, 0x80]).is_err());
    // field identifier above the 32-bit range
    assert!(Document::deserialize(&[0x81, 0, 0, 0, 0, 0x90, 1, 0, 0, 0, 0, 0, 0, 0, 0]).is_err());
}

#[test]
fn equality_ignores_order_but_not_multiplicity() {
    let mut a = Document::new();
    a.add_u64(Field(1), 1);
    a.add_text(Field(2), "x");
    let mut b = Document::new();
    b.add_text(Field(2), "x");
    b.add_u64(Field(1), 1);
    assert!(a == b);
    b.add_u64(Field(1), 1);
    assert!(a != b);
    a.add_u64(Field(1), 2);
    assert!(a != b);
}

#[test]
fn from_vec_keeps_pairs() {
    let doc = Document::from(vec![
        FieldValue::new(Field(1), Value::U64(1)),
        FieldValue::new(Field(1), Value::U64(2)),
    ]);
    assert_eq!(doc.len(), 2);
    assert!(matches!(doc.field_values()[1].value(), Value::U64(2)));
}

#[test]
fn round_trip_keeps_tokens_with_large_offsets() {
    let pre = PreTokenizedString {
        text: String::from("ab cd"),
        tokens: vec![
            Token { offset_from: 0, offset_to: 2, position: 0, text: String::from("ab"), position_length: 1 },
            Token {
                offset_from: u64::MAX - 1,
                offset_to: u64::MAX,
                position: 1 << 40,
                text: String::from("cd"),
                position_length: 128,
            },
        ],
    };
    let mut doc = Document::new();
    doc.add_pre_tokenized_text(Field(7), &pre);
    let back = Document::deserialize(&doc.serialize()).unwrap();
    match back.get_first(Field(7)) {
        Some(Value::PreTokStr(p)) => {
            assert_eq!(p.text, "ab cd");
            assert_eq!(p.tokens.len(), 2);
            assert_eq!(p.tokens[1].offset_from, u64::MAX - 1);
            assert_eq!(p.tokens[1].offset_to, u64::MAX);
            assert_eq!(p.tokens[1].position, 1 << 40);
            assert_eq!(p.tokens[1].position_length, 128);
            assert_eq!(p.tokens[1].text, "cd");
        }
        _ => panic!("Incorrect variant of Value"),
    }
}

#[test]
fn deserialize_prefix_leaves_following_bytes() {
    let mut doc = Document::new();
    doc.add_text(Field(1), "abc");
    doc.add_u64(Field(2), 9);
    let bytes = doc.serialize();
    let mut buffer = bytes.clone();
    buffer.extend_from_slice(&[0xde, 0xad]);
    let (back, used) = Document::deserialize_prefix(&buffer).unwrap();
    assert_eq!(used, bytes.len());
    assert!(back == doc);
    assert_eq!(back.serialize(), bytes);
    let (exact, used_exact) = Document::deserialize_prefix(&bytes).unwrap();
    assert_eq!(used_exact, bytes.len());
    assert_eq!(exact.len(), 2);
    let err = Document::deserialize_prefix(&buffer[..bytes.len() - 1]).unwrap_err();
    assert_eq!(err.input_len, bytes.len() - 1);
}

#[test]
fn decoding_error_reports_offset() {
    assert_eq!(Document::deserialize(&[]).unwrap_err().offset, 0);
    // second pair has an unknown tag; it starts after the count and the first pair
    let bad = [0x82, 0x81, 1, 0, 0, 0, 0, 0, 0, 0, 0, 0x81, 9];
    assert_eq!(Document::deserialize(&bad).unwrap_err().offset, 11);
    // a pair cut short: count says one pair, the field id is there, the value is not
    let err = Document::deserialize(&[0x81, 0x81, 1, 0, 0]).unwrap_err();
    assert_eq!(err.offset, 1);
    assert_eq!(err.input_len, 5);
}

#[test]
fn deserialize_reads_the_document_at_the_front() {
    let empty = Document::deserialize(&[0x80, 0x00]).unwrap();
    assert!(empty.is_empty());
    let mut doc = Document::new();
    doc.add_text(Field(3), "x");
    let mut stream = doc.serialize();
    stream.extend_from_slice(&Document::new().serialize());
    let first = Document::deserialize(&stream).unwrap();
    assert!(first == doc);
}
