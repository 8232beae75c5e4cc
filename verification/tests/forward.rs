use jce::datum::{Datum, Record};
use jce::error::DecodeError;
use jce::kind::{Field, Kind, Schema};
use jce::JceStruct;

fn reader() -> Schema {
    Schema {
        name: "Person",
        fields: vec![
            Field { tag: 0, name: "name", kind: Kind::Str },
            Field { tag: 1, name: "age", kind: Kind::U8 },
            Field { tag: 5, name: "active", kind: Kind::Bool },
        ],
    }
}

fn known() -> Vec<(u8, Datum)> {
    vec![(0, Datum::Str("Al".into())), (1, Datum::U8(7)), (5, Datum::Bool(true))]
}

#[test]
fn structure_round_trip() {
    let person = Record { fields: known() };
    let mut bytes = Vec::new();
    person.encode(&mut bytes).unwrap();
    assert_eq!(bytes, vec![6, 2, 65, 108, 16, 7, 80, 1]);
    assert_eq!(Record::decode(&reader(), &bytes).unwrap(), person);
}

#[test]
fn unknown_tag_between_known_ones_is_stepped_over() {
    let bytes = [6, 2, 65, 108, 16, 7, 50, 0, 0, 0, 9, 80, 1];
    assert_eq!(Record::decode(&reader(), &bytes).unwrap(), Record { fields: known() });
}

fn extras() -> Vec<Datum> {
    vec![
        Datum::I8(-3),
        Datum::U16(700),
        Datum::I32(9),
        Datum::U64(u64::MAX),
        Datum::Float(7),
        Datum::Double(8),
        Datum::Bool(false),
        Datum::Bytes(vec![1, 2, 3]),
        Datum::Bytes(vec![5; 300]),
        Datum::Str("héllo".into()),
        Datum::List(vec![Datum::I16(1), Datum::I16(2)]),
        Datum::List(vec![Datum::List(vec![Datum::Str("x".into())])]),
        Datum::Pairs(vec![(
            Datum::Str("k".into()),
            Datum::List(vec![Datum::U8(1), Datum::U8(2)]),
        )]),
        Datum::Optional(None),
        Datum::Optional(Some(Box::new(Datum::U32(4)))),
        Datum::Struct(Record { fields: vec![] }),
        Datum::List(vec![Datum::Struct(Record { fields: vec![] })]),
    ]
}

#[test]
fn unknown_field_of_any_plain_value_at_any_place() {
    for extra in extras() {
        for tag in [3u8, 14, 15, 200] {
            for at in 0..=3 {
                let mut fields = known();
                let extra_copy = {
                    let mut bytes = Vec::new();
                    extra.write(&mut bytes, 0);
                    bytes
                };
                let mut bytes = Vec::new();
                Record { fields: fields.drain(..at).collect() }.encode(&mut bytes).unwrap();
                extra.write(&mut bytes, tag);
                Record { fields }.encode(&mut bytes).unwrap();
                assert!(bytes.len() > extra_copy.len());
                assert_eq!(
                    Record::decode(&reader(), &bytes).unwrap(),
                    Record { fields: known() },
                    "{:?} at {} under tag {}",
                    extra,
                    at,
                    tag
                );
            }
        }
    }
}

#[test]
fn unknown_structure_with_fields_puts_the_reader_out_of_step() {
    // tag 3 holds a structure with the fields 0 and 1; the reader steps over field 0 only,
    // takes field 1 as its own, and then meets the end marker as a header at tag 0
    let mut bytes = vec![6, 2, 65, 108, 16, 7];
    Datum::Struct(Record { fields: vec![(0, Datum::U8(1)), (1, Datum::U8(99))] })
        .write(&mut bytes, 3);
    bytes.extend_from_slice(&[80, 1]);
    assert_eq!(bytes, vec![6, 2, 65, 108, 16, 7, 0x3A, 0x00, 1, 0x10, 99, 0x0B, 80, 1]);
    assert!(matches!(
        Record::decode(&reader(), &bytes),
        Err(DecodeError::IncorrectType { struct_name: "Person", field: "name", val_type: 11 })
    ));
    // a reader that does not declare tag 0 goes on, with a value that was not written for it
    let other = Schema {
        name: "Other",
        fields: vec![
            Field { tag: 1, name: "age", kind: Kind::U8 },
            Field { tag: 5, name: "active", kind: Kind::Bool },
        ],
    };
    assert_eq!(
        Record::decode(&other, &bytes).unwrap(),
        Record { fields: vec![(1, Datum::U8(99)), (5, Datum::Bool(true))] }
    );
}
