use jce::datum::{Datum, Record};
use jce::kind::{Field, Kind, Schema};
use jce::JceStruct;

#[test]
fn map() {
    let m = Schema {
        name: "M",
        fields: vec![Field {
            tag: 0,
            name: "map",
            kind: Kind::Pairs(Box::new(Kind::Str), Box::new(Kind::I16)),
        }],
    };

    let decoded =
        Record::decode(&m, [8, 0, 2, 6, 2, 49, 50, 17, 1, 66, 6, 2, 49, 52, 17, 1, 66].as_ref())
            .unwrap();
    println!("{:?}", decoded);
    assert_eq!(
        decoded,
        Record {
            fields: vec![(
                0,
                Datum::Pairs(vec![
                    (Datum::Str("12".into()), Datum::I16(322)),
                    (Datum::Str("14".into()), Datum::I16(322)),
                ])
            )]
        }
    );

    let mut enc = Vec::new();
    Record {
        fields: vec![(
            0,
            Datum::Pairs(vec![
                (Datum::Str("123".into()), Datum::I16(114)),
                (Datum::Str("456".into()), Datum::I16(514)),
            ]),
        )],
    }
    .encode(&mut enc)
    .unwrap();

    println!("{:?}", &*enc);
    assert_eq!(enc, vec![8, 0, 2, 6, 3, 49, 50, 51, 17, 0, 114, 6, 3, 52, 53, 54, 17, 2, 2]);
}
