use jce::error::DecodeError;
use jce::value::{read_elem, read_to_hashmap, Value};

#[test]
fn de() {
    let bytes: &[u8] = &[
        25, 0, 5, 0, 1, 0, 2, 6, 6, 232, 182, 133, 229, 184, 130, 6, 6, 49, 49, 52, 53, 49, 52,
        2, 0, 29, 75, 66, 40, 0, 2, 6, 1, 49, 18, 0, 1, 191, 82, 6, 4, 49, 57, 49, 57, 17, 3,
        42,
    ];

    let s = read_to_hashmap(bytes);

    assert!(s.is_ok());
    let map = s.unwrap();
    assert_eq!(map.len(), 2);
    assert_eq!(
        map[&1],
        Value::List(vec![
            Value::Byte(1),
            Value::Byte(2),
            Value::Bytes(vec![232, 182, 133, 229, 184, 130]),
            Value::Bytes(vec![49, 49, 52, 53, 49, 52]),
            Value::Int(1919810),
        ])
    );
    assert_eq!(
        map[&2],
        Value::Pairs(vec![
            ("1".into(), Value::Int(114514)),
            ("1919".into(), Value::Short(810)),
        ])
    );
}

#[test]
fn de2() {
    let bytes = [0, 127, 24, 12];

    assert!(read_to_hashmap(bytes.as_ref()).is_ok());
    let map = read_to_hashmap(bytes.as_ref()).unwrap();
    assert_eq!(map[&0], Value::Byte(127));
    assert_eq!(map[&1], Value::Pairs(vec![]));
}

#[test]
fn values_of_every_type() {
    let bytes = [
        0x00, 0xFF, 0x11, 0x80, 0x00, 0x22, 0, 0, 1, 0, 0x33, 255, 255, 255, 255, 255, 255, 255,
        254, 0x44, 0x3F, 0x80, 0, 0, 0x55, 0x40, 0, 0, 0, 0, 0, 0, 0, 0x67, 0, 0, 0, 2, 8, 9,
        0x7C, 0xF0, 200, 0,
    ];
    let map = read_to_hashmap(&bytes).unwrap();
    assert_eq!(map[&0], Value::Byte(-1));
    assert_eq!(map[&1], Value::Short(i16::MIN));
    assert_eq!(map[&2], Value::Int(256));
    assert_eq!(map[&3], Value::Long(-2));
    assert_eq!(map[&4], Value::Float(1.0f32.to_bits()));
    assert_eq!(map[&5], Value::Double(2.0f64.to_bits()));
    assert_eq!(map[&6], Value::Bytes(vec![8, 9]));
    assert_eq!(map[&7], Value::Empty);
    assert_eq!(map[&200], Value::Byte(0));
    assert_eq!(map.len(), 9);
}

#[test]
fn later_value_of_a_tag_stays() {
    let map = read_to_hashmap(&[0x10, 1, 0x10, 2]).unwrap();
    assert_eq!(map.len(), 1);
    assert_eq!(map[&1], Value::Byte(2));
}

#[test]
fn empty_buffer_has_no_values() {
    assert!(read_to_hashmap(&[]).unwrap().is_empty());
}

#[test]
fn structures_are_not_read_without_a_layout() {
    assert!(matches!(read_to_hashmap(&[0x0A, 0x00, 1, 0x0B]), Err(DecodeError::InvalidType)));
    assert!(matches!(read_to_hashmap(&[0x0B]), Err(DecodeError::InvalidType)));
    assert!(matches!(read_to_hashmap(&[0x0D, 0, 0, 0]), Err(DecodeError::InvalidType)));
    assert!(matches!(read_to_hashmap(&[0x0E]), Err(DecodeError::InvalidType)));
}

#[test]
fn key_of_a_map_must_be_a_string() {
    // the key is a byte
    assert!(matches!(
        read_to_hashmap(&[0x08, 0, 1, 0, 7, 0, 8]),
        Err(DecodeError::InvalidType)
    ));
    // the key is not UTF-8
    assert!(matches!(
        read_to_hashmap(&[0x08, 0, 1, 6, 1, 0xFF, 0, 8]),
        Err(DecodeError::String(_))
    ));
    // the value is read before the key is looked at
    assert!(matches!(read_to_hashmap(&[0x08, 0, 1, 0, 7, 0]), Err(DecodeError::Eof)));
}

#[test]
fn short_values_are_eof() {
    let cases: [&[u8]; 9] = [
        &[0x00],
        &[0x01, 1],
        &[0x02, 1, 2, 3],
        &[0x03, 1, 2, 3, 4, 5, 6, 7],
        &[0x06],
        &[0x06, 2, 1],
        &[0x07, 0, 0, 0],
        &[0x07, 0, 0, 0, 1],
        &[0x09, 0, 1],
    ];
    for bytes in cases {
        assert!(matches!(read_to_hashmap(bytes), Err(DecodeError::Eof)), "{:?}", bytes);
    }
    assert!(matches!(read_to_hashmap(&[0xF0]), Err(DecodeError::Eof)));
}

#[test]
fn one_element() {
    let mut rest: &[u8] = &[0x31, 1, 2, 3];
    assert_eq!(read_elem(&mut rest).unwrap(), Value::Short(258));
    assert_eq!(rest, [3].as_ref());
    let mut rest: &[u8] = &[];
    assert!(matches!(read_elem(&mut rest), Err(DecodeError::Eof)));
}
