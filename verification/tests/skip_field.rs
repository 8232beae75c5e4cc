use jce::datum::{Datum, Record};
use jce::kind::{Field, Kind, Schema};
use jce::JceStruct;

#[test]
fn skip_field() {
    let a_schema = Schema {
        name: "A",
        fields: vec![
            Field { tag: 1, name: "field1", kind: Kind::I8 },
            Field { tag: 2, name: "field2", kind: Kind::U8 },
        ],
    };

    // {
    //    0: "232",
    //    1: 12,
    //    2: 253,
    //    3: Struct { 1: 23 },
    //    4: [1, 22, 3214, "124"],
    // 	  12: Map {
    // 	 	   "12": 233,
    // 	       "235": 11424,
    // 		   8890: [122, "141", {}, [112]]
    //    }
    // }
    let a = Record::decode(
        &a_schema,
        [
            6, 3, 50, 51, 50, 16, 12, 32, 253, 58, 16, 23, 11, 73, 0, 4, 0, 1, 0, 22, 1, 12, 142,
            6, 3, 49, 50, 52, 200, 0, 3, 6, 2, 49, 50, 17, 0, 233, 6, 3, 50, 51, 53, 17, 44, 160,
            6, 4, 56, 56, 57, 48, 25, 0, 4, 0, 122, 6, 3, 49, 52, 49, 8, 12, 9, 0, 1, 0, 112,
        ]
        .as_ref(),
    )
    .unwrap();
    assert_eq!(a.fields[0], (1, Datum::I8(12)));
    assert_eq!(a.fields[1], (2, Datum::U8(253)));

    let mut byte = Vec::new();
    a.encode(&mut byte).unwrap();
    assert_eq!(byte, vec![16, 12, 32, 253]);

    println!("{:?}", Record::decode(&a_schema, &*byte));
}
