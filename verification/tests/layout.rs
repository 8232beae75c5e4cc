use jce::datum::{Datum, Record};
use jce::kind::{Field, Kind, Schema};

fn twice() -> Schema {
    Schema {
        name: "Twice",
        fields: vec![
            Field { tag: 4, name: "a", kind: Kind::U8 },
            Field { tag: 9, name: "b", kind: Kind::I16 },
            Field { tag: 4, name: "c", kind: Kind::I16 },
        ],
    }
}

fn once() -> Schema {
    Schema {
        name: "Once",
        fields: vec![
            Field { tag: 4, name: "a", kind: Kind::U8 },
            Field { tag: 9, name: "b", kind: Kind::I16 },
        ],
    }
}

#[test]
fn tags_that_differ_are_distinct() {
    assert!(once().has_distinct_tags());
    assert!(once().is_sound());
    assert!(Schema { name: "None", fields: vec![] }.is_sound());
}

#[test]
fn tag_that_stands_twice_is_found() {
    assert!(!twice().has_distinct_tags());
    assert!(!twice().is_sound());
}

#[test]
fn structure_within_must_be_sound() {
    let outer = |inner: Schema| Schema {
        name: "Outer",
        fields: vec![Field {
            tag: 0,
            name: "list",
            kind: Kind::List(Box::new(Kind::Optional(Box::new(Kind::Struct(Box::new(inner)))))),
        }],
    };
    assert!(outer(once()).is_sound());
    assert!(outer(twice()).has_distinct_tags());
    assert!(!outer(twice()).is_sound());
    assert!(Kind::Pairs(Box::new(Kind::Str), Box::new(Kind::Struct(Box::new(once())))).is_sound());
    assert!(!Kind::Pairs(Box::new(Kind::Struct(Box::new(twice()))), Box::new(Kind::U8)).is_sound());
    assert!(Kind::U8.is_sound());
}

#[test]
fn values_of_moderate_size_can_be_written() {
    assert!(Datum::Bytes(vec![0; 70000]).is_writable());
    assert!(Datum::Str("x".repeat(300)).is_writable());
    assert!(Datum::List(vec![Datum::Bytes(vec![1]), Datum::Optional(None)]).is_writable());
    assert!(Datum::Pairs(vec![(Datum::U8(1), Datum::Str("a".into()))]).is_writable());
    assert!(Record { fields: vec![(1, Datum::Optional(Some(Box::new(Datum::I8(1)))))] }
        .is_writable());
    assert!(Datum::Struct(Record { fields: vec![] }).is_writable());
}
