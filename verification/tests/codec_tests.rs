use kvs::codec::{
    decode_record, element_of, encode_record, record_of, text_fits, Element, Field, Reading,
    Record,
};
use kvs::errors::KvStoreError;

#[test]
fn encoded_record_is_read_back() {
    let record = Record::Put("key".to_owned(), "value".to_owned());
    let frame = encode_record(&record).unwrap();
    match decode_record(&frame, 0) {
        Reading::Entry(Record::Put(key, value), size) => {
            assert_eq!(key, "key");
            assert_eq!(value, "value");
            assert_eq!(size, frame.len());
        }
        other => panic!("unexpected reading: {:?}", other),
    }
}

#[test]
fn frame_of_a_deletion_is_a_bson_document() {
    let frame = encode_record(&Record::Delete("a".to_owned())).unwrap();
    let expected: Vec<u8> = vec![
        19, 0, 0, 0, 2, b'D', b'e', b'l', b'e', b't', b'e', 0, 2, 0, 0, 0, b'a', 0, 0,
    ];
    assert_eq!(frame, expected);
}

#[test]
fn frame_of_a_set_is_a_bson_document() {
    let frame = encode_record(&Record::Put("k".to_owned(), "v".to_owned())).unwrap();
    let expected: Vec<u8> = vec![
        33, 0, 0, 0, 4, b'S', b'e', b't', 0, 23, 0, 0, 0, 2, b'0', 0, 2, 0, 0, 0, b'k', 0, 2,
        b'1', 0, 2, 0, 0, 0, b'v', 0, 0, 0,
    ];
    assert_eq!(frame, expected);
}

#[test]
fn frame_matches_what_bson_writes_for_the_same_document() {
    let mut document = bson::Document::new();
    document.insert(
        "Set",
        bson::Bson::Array(vec![
            bson::Bson::String("key".to_owned()),
            bson::Bson::String("some value".to_owned()),
        ]),
    );
    let mut expected = Vec::new();
    bson::encode_document(&mut expected, &document).unwrap();
    let frame = encode_record(&Record::Put("key".to_owned(), "some value".to_owned())).unwrap();
    assert_eq!(frame, expected);
}

#[test]
fn records_are_read_one_after_the_other() {
    let mut bytes = encode_record(&Record::Put("a".to_owned(), "1".to_owned())).unwrap();
    let first = bytes.len();
    bytes.extend(encode_record(&Record::Delete("a".to_owned())).unwrap());
    match decode_record(&bytes, 0) {
        Reading::Entry(Record::Put(key, value), size) => {
            assert_eq!((key.as_str(), value.as_str(), size), ("a", "1", first));
        }
        other => panic!("unexpected reading: {:?}", other),
    }
    match decode_record(&bytes, first) {
        Reading::Entry(Record::Delete(key), size) => {
            assert_eq!((key.as_str(), size), ("a", bytes.len() - first));
        }
        other => panic!("unexpected reading: {:?}", other),
    }
    assert!(matches!(decode_record(&bytes, bytes.len()), Reading::Unreadable(_)));
}

#[test]
fn empty_strings_are_encoded_and_read_back() {
    let frame = encode_record(&Record::Put(String::new(), String::new())).unwrap();
    match decode_record(&frame, 0) {
        Reading::Entry(Record::Put(key, value), size) => {
            assert_eq!((key.as_str(), value.as_str(), size), ("", "", frame.len()));
        }
        other => panic!("unexpected reading: {:?}", other),
    }
}

#[test]
fn torn_frame_is_unreadable() {
    let frame = encode_record(&Record::Put("key".to_owned(), "value".to_owned())).unwrap();
    for cut in 0..frame.len() {
        assert!(matches!(decode_record(&frame[..cut], 0), Reading::Unreadable(_)));
    }
}

#[test]
fn document_of_another_shape_is_foreign() {
    let shapes: Vec<(&str, bson::Bson)> = vec![
        ("Set", bson::Bson::String("k".to_owned())),
        ("Set", bson::Bson::Array(vec![bson::Bson::String("k".to_owned())])),
        (
            "Set",
            bson::Bson::Array(vec![bson::Bson::String("k".to_owned()), bson::Bson::I32(1)]),
        ),
        ("Delete", bson::Bson::Array(vec![])),
        ("Delete", bson::Bson::Null),
        ("Get", bson::Bson::String("k".to_owned())),
    ];
    for (name, value) in shapes {
        let mut document = bson::Document::new();
        document.insert(name, value);
        let mut bytes = Vec::new();
        bson::encode_document(&mut bytes, &document).unwrap();
        assert!(matches!(decode_record(&bytes, 0), Reading::Foreign));
    }
    let mut two = bson::Document::new();
    two.insert("Delete", "a");
    two.insert("Set", "b");
    let mut bytes = Vec::new();
    bson::encode_document(&mut bytes, &two).unwrap();
    assert!(matches!(decode_record(&bytes, 0), Reading::Foreign));
    let mut bytes = Vec::new();
    bson::encode_document(&mut bytes, &bson::Document::new()).unwrap();
    assert!(matches!(decode_record(&bytes, 0), Reading::Foreign));
}

#[test]
fn element_of_a_record_and_back() {
    let element = element_of(&Record::Put("k".to_owned(), "v".to_owned()));
    assert_eq!(element.name, "Set");
    match &element.value {
        Field::List(items) => {
            assert_eq!(items, &vec![Some("k".to_owned()), Some("v".to_owned())]);
        }
        other => panic!("unexpected field: {:?}", other),
    }
    assert!(matches!(record_of(&vec![element]), Some(Record::Put(_, _))));
    let element = element_of(&Record::Delete("k".to_owned()));
    assert_eq!(element.name, "Delete");
    assert!(matches!(&element.value, Field::Text(key) if key == "k"));
    let other = Element { name: "Delete".to_owned(), value: Field::Other };
    assert!(record_of(&vec![other]).is_none());
    assert!(record_of(&Vec::new()).is_none());
}

#[test]
fn short_texts_fit() {
    assert!(text_fits(&String::new()));
    assert!(text_fits(&"x".repeat(100_000)));
}

#[test]
fn encoding_never_reports_a_decoder_failure() {
    let outcome = encode_record(&Record::Delete("k".to_owned()));
    assert!(!matches!(outcome, Err(KvStoreError::DecoderError(_))));
    assert!(outcome.is_ok());
}
