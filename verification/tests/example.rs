use jce::datum::{Datum, Record};
use jce::kind::{Field, Kind, Schema};
use jce::JceStruct;

fn home_schema() -> Schema {
    Schema { name: "Home", fields: vec![Field { tag: 0, name: "location", kind: Kind::Str }] }
}

fn person_schema() -> Schema {
    Schema {
        name: "Person",
        fields: vec![
            Field { tag: 0, name: "name", kind: Kind::Str },
            Field { tag: 1, name: "age", kind: Kind::U8 },
            Field { tag: 5, name: "male", kind: Kind::Bool },
            Field { tag: 6, name: "phone", kind: Kind::U64 },
            Field { tag: 11, name: "home", kind: Kind::Struct(Box::new(home_schema())) },
        ],
    }
}

#[test]
fn person() {
    let person = Record {
        fields: vec![
            (0, Datum::Str("Jack".into())),
            (1, Datum::U8(12)),
            (5, Datum::Bool(true)),
            (6, Datum::U64(1145141919810)),
            (11, Datum::Struct(Record { fields: vec![(0, Datum::Str("下北泽".into()))] })),
        ],
    };

    let mut b = vec![0u8; 0];
    person.encode(&mut b).unwrap();
    println!("{:?}", &*b);
    let decode = Record::decode(&person_schema(), &*b).unwrap();

    assert_eq!(person, decode);
}
