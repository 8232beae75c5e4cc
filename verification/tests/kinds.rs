use jce::datum::{Datum, Record};
use jce::error::DecodeError;
use jce::kind::{Field, Kind, Schema};
use jce::JceStruct;

fn written(value: &Datum, tag: u8) -> Vec<u8> {
    let mut buf = Vec::new();
    value.write(&mut buf, tag);
    assert_eq!(value.encoded_len(tag), buf.len());
    buf
}

fn read_back(kind: &Kind, bytes: &[u8]) -> (Datum, Vec<u8>) {
    let mut rest: &[u8] = bytes;
    let header = jce::de::read_header(&mut rest).unwrap();
    let value = kind.read(&mut rest, header.value_type(), "S", "f").unwrap();
    (value, rest.to_vec())
}

fn point_schema() -> Schema {
    Schema {
        name: "Point",
        fields: vec![
            Field { tag: 0, name: "x", kind: Kind::I16 },
            Field { tag: 20, name: "y", kind: Kind::Optional(Box::new(Kind::U8)) },
        ],
    }
}

#[test]
fn every_kind_round_trips() {
    let cases: Vec<(Kind, Datum, Vec<u8>)> = vec![
        (Kind::I8, Datum::I8(-128), vec![0x10, 0x80]),
        (Kind::U8, Datum::U8(200), vec![0x10, 200]),
        (Kind::I16, Datum::I16(-2), vec![0x11, 0xFF, 0xFE]),
        (Kind::U16, Datum::U16(65535), vec![0x11, 0xFF, 0xFF]),
        (Kind::I32, Datum::I32(321), vec![0x12, 0, 0, 1, 65]),
        (Kind::U32, Datum::U32(u32::MAX), vec![0x12, 255, 255, 255, 255]),
        (Kind::I64, Datum::I64(3331), vec![0x13, 0, 0, 0, 0, 0, 0, 13, 3]),
        (Kind::U64, Datum::U64(1145141919810), vec![0x13, 0, 0, 1, 10, 159, 199, 0, 66]),
        (Kind::Float, Datum::Float(1.5f32.to_bits()), vec![0x14, 0x3F, 0xC0, 0, 0]),
        (
            Kind::Double,
            Datum::Double((-2.0f64).to_bits()),
            vec![0x15, 0xC0, 0, 0, 0, 0, 0, 0, 0],
        ),
        (Kind::Bool, Datum::Bool(true), vec![0x10, 1]),
        (Kind::Bytes, Datum::Bytes(vec![1, 2]), vec![0x16, 2, 1, 2]),
        (Kind::FixedBytes(2), Datum::Bytes(vec![1, 2]), vec![0x16, 2, 1, 2]),
        (Kind::Str, Datum::Str("Jack".into()), vec![0x16, 4, 74, 97, 99, 107]),
        (
            Kind::List(Box::new(Kind::Str)),
            Datum::List(vec![Datum::Str("a".into()), Datum::Str("".into())]),
            vec![0x19, 0, 2, 6, 1, 97, 6, 0],
        ),
        (
            Kind::Pairs(Box::new(Kind::U8), Box::new(Kind::Optional(Box::new(Kind::U8)))),
            Datum::Pairs(vec![
                (Datum::U8(1), Datum::Optional(None)),
                (Datum::U8(2), Datum::Optional(Some(Box::new(Datum::U8(3))))),
            ]),
            vec![0x18, 0, 2, 0, 1, 0x1C, 0, 2, 0x10, 3],
        ),
        (Kind::Optional(Box::new(Kind::I16)), Datum::Optional(None), vec![0x1C]),
        (
            Kind::Optional(Box::new(Kind::I16)),
            Datum::Optional(Some(Box::new(Datum::I16(5)))),
            vec![0x11, 0, 5],
        ),
        (
            Kind::Struct(Box::new(point_schema())),
            Datum::Struct(Record {
                fields: vec![
                    (0, Datum::I16(7)),
                    (20, Datum::Optional(Some(Box::new(Datum::U8(9))))),
                ],
            }),
            vec![0x1A, 0x01, 0, 7, 0xF0, 20, 9, 0x0B],
        ),
        (
            Kind::List(Box::new(Kind::Struct(Box::new(point_schema())))),
            Datum::List(vec![Datum::Struct(Record {
                fields: vec![(0, Datum::I16(1)), (20, Datum::Optional(None))],
            })]),
            vec![0x19, 0, 1, 0x0A, 0x01, 0, 1, 0xFC, 20, 0x0B],
        ),
    ];
    for (kind, value, bytes) in cases {
        assert_eq!(written(&value, 1), bytes, "{:?}", kind);
        let mut followed = bytes.clone();
        followed.push(0x77);
        assert_eq!(read_back(&kind, &followed), (value, vec![0x77]), "{:?}", kind);
    }
}

#[test]
fn present_value_that_holds_an_absent_one_comes_back_absent() {
    let kind = Kind::Optional(Box::new(Kind::Optional(Box::new(Kind::U8))));
    let value = Datum::Optional(Some(Box::new(Datum::Optional(None))));
    assert_eq!(written(&value, 0), vec![0x0C]);
    assert_eq!(read_back(&kind, &[0x0C]), (Datum::Optional(None), vec![]));
}

#[test]
fn blank_values() {
    assert_eq!(Kind::I8.default_value(), Datum::I8(0));
    assert_eq!(Kind::U64.default_value(), Datum::U64(0));
    assert_eq!(Kind::Float.default_value(), Datum::Float(0));
    assert_eq!(Kind::Double.default_value(), Datum::Double(0));
    assert_eq!(Kind::Bool.default_value(), Datum::Bool(false));
    assert_eq!(Kind::Bytes.default_value(), Datum::Bytes(vec![]));
    assert_eq!(Kind::FixedBytes(3).default_value(), Datum::Bytes(vec![0, 0, 0]));
    assert_eq!(Kind::Str.default_value(), Datum::Str(String::new()));
    assert_eq!(Kind::List(Box::new(Kind::U8)).default_value(), Datum::List(vec![]));
    assert_eq!(
        Kind::Pairs(Box::new(Kind::U8), Box::new(Kind::U8)).default_value(),
        Datum::Pairs(vec![])
    );
    assert_eq!(Kind::Optional(Box::new(Kind::U8)).default_value(), Datum::Optional(None));
    assert_eq!(
        Kind::Struct(Box::new(point_schema())).default_value(),
        Datum::Struct(Record { fields: vec![(0, Datum::I16(0)), (20, Datum::Optional(None))] })
    );
    assert_eq!(
        point_schema().blank(),
        Record { fields: vec![(0, Datum::I16(0)), (20, Datum::Optional(None))] }
    );
}

#[test]
fn nested_structure_under_empty_is_blank() {
    let kind = Kind::Struct(Box::new(point_schema()));
    assert_eq!(
        read_back(&kind, &[0x0C, 0x01, 0, 7]),
        (
            Datum::Struct(Record { fields: vec![(0, Datum::I16(0)), (20, Datum::Optional(None))] }),
            vec![0x01, 0, 7]
        )
    );
}

#[test]
fn fields_come_back_in_the_order_of_the_layout() {
    let bytes = [0xF0, 20, 9, 0x01, 0, 7];
    assert_eq!(
        Record::decode(&point_schema(), &bytes).unwrap(),
        Record {
            fields: vec![(0, Datum::I16(7)), (20, Datum::Optional(Some(Box::new(Datum::U8(9)))))]
        }
    );
}

#[test]
fn missing_fields_stay_blank_and_later_values_win() {
    assert_eq!(Record::decode(&point_schema(), &[]).unwrap(), point_schema().blank());
    assert_eq!(
        Record::decode(&point_schema(), &[0x01, 0, 7, 0x01, 0, 8]).unwrap(),
        Record { fields: vec![(0, Datum::I16(8)), (20, Datum::Optional(None))] }
    );
}

#[test]
fn first_of_two_fields_with_one_tag_is_found() {
    let schema = Schema {
        name: "Twice",
        fields: vec![
            Field { tag: 4, name: "a", kind: Kind::U8 },
            Field { tag: 4, name: "b", kind: Kind::I16 },
        ],
    };
    assert_eq!(schema.lookup(4), Some(0));
    assert_eq!(schema.lookup(5), None);
    assert_eq!(
        Record::decode(&schema, &[0x40, 3]).unwrap(),
        Record { fields: vec![(4, Datum::U8(3)), (4, Datum::I16(0))] }
    );
}

#[test]
fn nested_reader_stops_at_the_end_marker() {
    let mut rest: &[u8] = &[0x01, 0, 7, 0x0B, 0x01, 0, 9];
    let record = point_schema().decode_raw(&mut rest, false).unwrap();
    assert_eq!(record.fields[0], (0, Datum::I16(7)));
    assert_eq!(rest, [0x01, 0, 9].as_ref());
    // to the end of the buffer, the end marker is a header like any other
    let mut rest: &[u8] = &[0x01, 0, 7, 0xFB, 9, 0x01, 0, 9];
    let record = point_schema().decode_raw(&mut rest, true).unwrap();
    assert_eq!(record.fields[0], (0, Datum::I16(9)));
    assert!(rest.is_empty());
}

#[test]
fn field_under_another_type_names_structure_and_field() {
    match Record::decode(&point_schema(), &[0x02, 0, 0, 0, 7]) {
        Err(DecodeError::IncorrectType { struct_name, field, val_type }) => {
            assert_eq!(struct_name, "Point");
            assert_eq!(field, "x");
            assert_eq!(val_type, 2);
        }
        other => panic!("{:?}", other),
    }
    match Record::decode(&point_schema(), &[0xF6, 20, 0]) {
        Err(DecodeError::IncorrectType { struct_name, field, val_type }) => {
            assert_eq!(struct_name, "Point");
            assert_eq!(field, "y");
            assert_eq!(val_type, 6);
        }
        other => panic!("{:?}", other),
    }
    // within a nested structure, the names are those of the nested one
    let outer = Schema {
        name: "Outer",
        fields: vec![Field { tag: 1, name: "p", kind: Kind::Struct(Box::new(point_schema())) }],
    };
    assert!(matches!(
        Record::decode(&outer, &[0x1A, 0x00, 7, 0x0B]),
        Err(DecodeError::IncorrectType { struct_name: "Point", field: "x", val_type: 0 })
    ));
    assert!(matches!(
        Record::decode(&outer, &[0x19, 0, 0]),
        Err(DecodeError::IncorrectType { struct_name: "Outer", field: "p", val_type: 9 })
    ));
}

#[test]
fn wrong_length_for_fixed_bytes() {
    let mut rest: &[u8] = &[3, 1, 2, 3];
    assert!(matches!(
        Kind::FixedBytes(2).read(&mut rest, 6, "S", "f"),
        Err(DecodeError::InvalidLength)
    ));
}

#[test]
fn encoded_length_counts_headers_of_two_bytes() {
    let record = Record {
        fields: vec![(14, Datum::U8(1)), (15, Datum::U8(1)), (255, Datum::Str("abc".into()))],
    };
    let mut buf = Vec::new();
    record.encode(&mut buf).unwrap();
    assert_eq!(buf, vec![0xE0, 1, 0xF0, 15, 1, 0xF6, 255, 3, 97, 98, 99]);
    assert_eq!(record.encoded_len(), 11);
    let mut raw = vec![9u8];
    record.encode_raw(&mut raw);
    assert_eq!(raw.len(), 12);
    assert_eq!(raw[0], 9);
}

#[test]
fn structure_into_a_slice_of_its_own() {
    let record = Record { fields: vec![(1, Datum::U16(7)), (2, Datum::Bool(true))] };
    let mut room = [9u8; 7];
    assert_eq!(record.encode_to_slice(&mut room).unwrap(), 5);
    assert_eq!(room, [0x11, 0, 7, 0x20, 1, 9, 9]);
    let mut exact = [9u8; 5];
    assert_eq!(record.encode_to_slice(&mut exact).unwrap(), 5);
    assert_eq!(exact, [0x11, 0, 7, 0x20, 1]);
}

#[test]
fn structure_that_does_not_fit_is_not_written() {
    let record = Record { fields: vec![(1, Datum::U16(7)), (2, Datum::Bool(true))] };
    let mut small = [9u8; 4];
    let err = record.encode_to_slice(&mut small).unwrap_err();
    assert_eq!(err.message(), "encode length exceeds buffer");
    assert_eq!(small, [9, 9, 9, 9]);
    let mut none: [u8; 0] = [];
    assert!(record.encode_to_slice(&mut none).is_err());
    assert_eq!(Record { fields: vec![] }.encode_to_slice(&mut none).unwrap(), 0);
}
