use jce::datum::{Datum, Record};
use jce::error::DecodeError;
use jce::kind::{Field, Kind, Schema};
use jce::JceStruct;

fn inner() -> Schema {
    Schema { name: "Inner", fields: vec![Field { tag: 0, name: "a", kind: Kind::U8 }] }
}

fn cases() -> Vec<(Kind, Datum)> {
    vec![
        (Kind::I8, Datum::I8(1)),
        (Kind::U16, Datum::U16(1)),
        (Kind::I32, Datum::I32(1)),
        (Kind::U64, Datum::U64(1)),
        (Kind::Float, Datum::Float(1)),
        (Kind::Double, Datum::Double(1)),
        (Kind::Bool, Datum::Bool(true)),
        (Kind::Bytes, Datum::Bytes(vec![])),
        (Kind::Bytes, Datum::Bytes(vec![1, 2, 3])),
        (Kind::Bytes, Datum::Bytes(vec![1; 256])),
        (Kind::FixedBytes(2), Datum::Bytes(vec![1, 2])),
        (Kind::Str, Datum::Str("".into())),
        (Kind::Str, Datum::Str("é".into())),
        (Kind::List(Box::new(Kind::U8)), Datum::List(vec![])),
        (Kind::List(Box::new(Kind::U8)), Datum::List(vec![Datum::U8(1), Datum::U8(2)])),
        (
            Kind::List(Box::new(Kind::Optional(Box::new(Kind::U8)))),
            Datum::List(vec![Datum::Optional(None)]),
        ),
        (
            Kind::List(Box::new(Kind::Struct(Box::new(inner())))),
            Datum::List(vec![
                Datum::Struct(Record { fields: vec![(0, Datum::U8(1))] }),
            ]),
        ),
        (Kind::Pairs(Box::new(Kind::Str), Box::new(Kind::I16)), Datum::Pairs(vec![])),
        (
            Kind::Pairs(Box::new(Kind::Str), Box::new(Kind::I16)),
            Datum::Pairs(vec![(Datum::Str("k".into()), Datum::I16(5))]),
        ),
        (
            Kind::Pairs(Box::new(Kind::Str), Box::new(Kind::Optional(Box::new(Kind::I16)))),
            Datum::Pairs(vec![(Datum::Str("k".into()), Datum::Optional(None))]),
        ),
        (Kind::Optional(Box::new(Kind::I16)), Datum::Optional(Some(Box::new(Datum::I16(5))))),
    ]
}

fn read_payload(kind: &Kind, value: &Datum, cut: usize) -> Result<Datum, DecodeError> {
    let mut bytes = Vec::new();
    value.write(&mut bytes, 0);
    let mut rest: &[u8] = &bytes[..bytes.len() - cut];
    let header = jce::de::read_header(&mut rest).unwrap();
    kind.read(&mut rest, header.value_type(), "S", "f")
}

#[test]
fn value_without_its_last_byte_is_eof() {
    for (kind, value) in cases() {
        let whole = read_payload(&kind, &value, 0);
        if let Datum::List(items) = &value {
            if let Some(Datum::Struct(_)) = items.last() {
                // ends in a nested structure: see below
                assert!(read_payload(&kind, &value, 1).is_ok());
                continue;
            }
        }
        assert_eq!(whole.unwrap(), value);
        assert!(
            matches!(read_payload(&kind, &value, 1), Err(DecodeError::Eof)),
            "{:?} {:?}",
            kind,
            value
        );
    }
}

#[test]
fn nested_structure_without_its_end_marker_is_taken_as_complete() {
    let kind = Kind::Struct(Box::new(inner()));
    let value = Datum::Struct(Record { fields: vec![(0, Datum::U8(1))] });
    assert_eq!(read_payload(&kind, &value, 1).unwrap(), value);
}

#[test]
fn structure_without_its_last_byte() {
    let schema = Schema {
        name: "S",
        fields: vec![
            Field { tag: 1, name: "a", kind: Kind::U16 },
            Field { tag: 30, name: "b", kind: Kind::Optional(Box::new(Kind::Str)) },
        ],
    };
    let mut bytes = Vec::new();
    Record {
        fields: vec![
            (1, Datum::U16(7)),
            (30, Datum::Optional(Some(Box::new(Datum::Str("x".into()))))),
        ],
    }
    .encode(&mut bytes)
    .unwrap();
    assert!(matches!(
        Record::decode(&schema, &bytes[..bytes.len() - 1]),
        Err(DecodeError::Eof)
    ));
    // an absent last field at a tag of two bytes loses its tag byte
    let mut bytes = Vec::new();
    Record { fields: vec![(1, Datum::U16(7)), (30, Datum::Optional(None))] }
        .encode(&mut bytes)
        .unwrap();
    assert_eq!(bytes, vec![0x11, 0, 7, 0xFC, 30]);
    assert!(matches!(
        Record::decode(&schema, &bytes[..bytes.len() - 1]),
        Err(DecodeError::Eof)
    ));
    // an absent last field at a tag below 15 is one byte, and without it the bytes are a
    // shorter structure
    let small = Schema {
        name: "S",
        fields: vec![
            Field { tag: 1, name: "a", kind: Kind::U16 },
            Field { tag: 2, name: "b", kind: Kind::Optional(Box::new(Kind::Str)) },
        ],
    };
    let whole = Record { fields: vec![(1, Datum::U16(7)), (2, Datum::Optional(None))] };
    let mut bytes = Vec::new();
    whole.encode(&mut bytes).unwrap();
    assert_eq!(Record::decode(&small, &bytes[..bytes.len() - 1]).unwrap(), whole);
}
