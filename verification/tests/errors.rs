use jce::error::{DecodeError, EncodeError};
use jce::types::Type;

fn incorrect(val_type: u8) -> String {
    DecodeError::IncorrectType { struct_name: "Person", field: "age", val_type }.message()
}

#[test]
fn messages() {
    assert_eq!(DecodeError::InvalidType.message(), "invalid type");
    assert_eq!(DecodeError::Eof.message(), "unexpected eof");
    assert_eq!(DecodeError::InvalidLength.message(), "invalid length");
    assert_eq!(EncodeError.message(), "encode length exceeds buffer");
}

#[test]
fn message_names_the_family_of_a_type_code() {
    assert_eq!(incorrect(0), "incorrect type(Byte) of field age in struct Person");
    assert_eq!(incorrect(1), "incorrect type(Short) of field age in struct Person");
    assert_eq!(incorrect(2), "incorrect type(Int) of field age in struct Person");
    assert_eq!(incorrect(3), "incorrect type(Long) of field age in struct Person");
    assert_eq!(incorrect(4), "incorrect type(Float) of field age in struct Person");
    assert_eq!(incorrect(5), "incorrect type(Double) of field age in struct Person");
    assert_eq!(incorrect(6), "incorrect type(Bytes) of field age in struct Person");
    assert_eq!(incorrect(7), "incorrect type(Bytes) of field age in struct Person");
    assert_eq!(incorrect(8), "incorrect type(Map) of field age in struct Person");
    assert_eq!(incorrect(9), "incorrect type(List) of field age in struct Person");
    assert_eq!(incorrect(10), "incorrect type(Struct) of field age in struct Person");
    assert_eq!(incorrect(12), "incorrect type(Empty) of field age in struct Person");
}

#[test]
fn message_shows_the_number_of_a_type_code_without_family() {
    assert_eq!(incorrect(11), "incorrect type(11) of field age in struct Person");
    assert_eq!(incorrect(13), "incorrect type(13) of field age in struct Person");
    assert_eq!(incorrect(14), "incorrect type(14) of field age in struct Person");
    assert_eq!(incorrect(100), "incorrect type(100) of field age in struct Person");
    assert_eq!(incorrect(109), "incorrect type(109) of field age in struct Person");
    assert_eq!(incorrect(255), "incorrect type(255) of field age in struct Person");
}

#[test]
fn families_of_type_codes() {
    assert!(matches!(Type::from_u8(0), Some(Type::Byte)));
    assert!(matches!(Type::from_u8(6), Some(Type::Bytes)));
    assert!(matches!(Type::from_u8(7), Some(Type::Bytes)));
    assert!(matches!(Type::from_u8(8), Some(Type::Mapping)));
    assert!(matches!(Type::from_u8(10), Some(Type::Struct)));
    assert!(matches!(Type::from_u8(12), Some(Type::Empty)));
    assert!(Type::from_u8(11).is_none());
    assert!(Type::from_u8(13).is_none());
    assert!(Type::from_u8(14).is_none());
    assert_eq!(Type::SingleList.name(), "SingleList");
}

#[test]
fn error_of_the_standard_library_becomes_a_decode_error() {
    let err = std::str::from_utf8(&[0xFF]).unwrap_err();
    assert!(matches!(DecodeError::from(err), DecodeError::String(e) if e == err));
}
