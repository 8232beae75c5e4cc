use jce::datum::{Datum, Record};
use jce::kind::{Field, Kind, Schema};
use jce::JceStruct;

fn b_schema() -> Schema {
    Schema {
        name: "B",
        fields: vec![
            Field { tag: 0, name: "b", kind: Kind::Bytes },
            Field { tag: 1, name: "ca", kind: Kind::I32 },
            Field { tag: 2, name: "cbb", kind: Kind::List(Box::new(Kind::I32)) },
        ],
    }
}

fn v_schema() -> Schema {
    Schema {
        name: "V",
        fields: vec![
            Field { tag: 0, name: "a", kind: Kind::List(Box::new(Kind::I8)) },
            Field { tag: 1, name: "b", kind: Kind::Struct(Box::new(b_schema())) },
        ],
    }
}

#[test]
fn vec() {
    let v = Record {
        fields: vec![
            (0, Datum::List(vec![Datum::I8(114), Datum::I8(127)])),
            (
                1,
                Datum::Struct(Record {
                    fields: vec![
                        (0, Datum::Bytes(vec![114, 5, 14])),
                        (1, Datum::I32(114514)),
                        (2, Datum::List(vec![Datum::I32(114514), Datum::I32(1919810)])),
                    ],
                }),
            ),
        ],
    };

    let mut bytes: Vec<u8> = Vec::new();
    v.encode(&mut bytes).unwrap();

    println!("{:?}", bytes);
    let decoded = Record::decode(&v_schema(), &*bytes).unwrap();
    println!("{:?}", decoded);
    assert_eq!(decoded, v);
}
