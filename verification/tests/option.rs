use jce::datum::{Datum, Record};
use jce::kind::{Field, Kind, Schema};
use jce::JceStruct;

#[test]
fn option() {
    let optional = Schema {
        name: "Optional",
        fields: vec![
            Field { tag: 0, name: "a", kind: Kind::Optional(Box::new(Kind::U8)) },
            Field { tag: 1, name: "b", kind: Kind::Optional(Box::new(Kind::Bytes)) },
        ],
    };

    let op = Record::decode(&optional, [12].as_ref()).unwrap();

    assert!(op.fields[0].1 == Datum::Optional(None));
    assert_eq!(op.fields[1], (1, Datum::Optional(None)));
}
