use jce::datum::{Datum, Record};
use jce::kind::{Field, Kind, Schema};
use jce::JceStruct;

fn alpha(f: i64, ba: Vec<i32>, str: &str) -> Datum {
    Datum::Struct(Record {
        fields: vec![
            (0, Datum::I64(f)),
            (1, Datum::List(ba.into_iter().map(Datum::I32).collect())),
            (2, Datum::Str(str.into())),
        ],
    })
}

fn alpha_schema() -> Schema {
    Schema {
        name: "Alpha",
        fields: vec![
            Field { tag: 0, name: "f", kind: Kind::I64 },
            Field { tag: 1, name: "ba", kind: Kind::List(Box::new(Kind::I32)) },
            Field { tag: 2, name: "str", kind: Kind::Str },
        ],
    }
}

fn encoded_len_schema() -> Schema {
    Schema {
        name: "EncodedLen",
        fields: vec![
            Field { tag: 0, name: "str", kind: Kind::Str },
            Field { tag: 1, name: "bytes", kind: Kind::Bytes },
            Field { tag: 2, name: "int", kind: Kind::I32 },
            Field { tag: 3, name: "alpha", kind: Kind::Struct(Box::new(alpha_schema())) },
            Field { tag: 129, name: "tag_129", kind: Kind::Struct(Box::new(alpha_schema())) },
        ],
    }
}

#[test]
fn encoded_len() {
    let encoded = Record {
        fields: vec![
            (0, Datum::Str("114514".into())),
            (1, Datum::Bytes(vec![114, 51, 4])),
            (2, Datum::I32(321)),
            (3, alpha(3331, vec![], "1‚É£Ô∏è1‚É£Ô∏è4‚É£Ô∏è5‚É£Ô∏è1‚É£Ô∏è4‚É£Ô∏è")),
            (129, alpha(123313, vec![114, 514, 1919, 810], "ü¶ÄÔ∏èüíäüî•")),
        ],
    };

    let mut buf = vec![0u8; 0];

    encoded.encode(&mut buf).unwrap();

    assert_eq!(encoded.encoded_len(), buf.len());

    let decoded = Record::decode(&encoded_len_schema(), &buf).unwrap();
    assert_eq!(decoded, encoded);
}
