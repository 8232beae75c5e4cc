use bytes::Bytes;
use jce::error::DecodeError;
use jce::typed::{check_type, read_bytes_len, read_slice, read_utf8, write_slice, JceType};

fn written<T: JceType>(value: &T, tag: u8) -> Vec<u8> {
    let mut buf = Vec::new();
    value.write(&mut buf, tag);
    buf
}

fn read_back<T: JceType>(bytes: &[u8]) -> (T, Vec<u8>) {
    let mut rest: &[u8] = bytes;
    let header = jce::de::read_header(&mut rest).unwrap();
    let value = T::read(&mut rest, header.value_type(), "S", "f").unwrap();
    (value, rest.to_vec())
}

#[test]
fn scalars_are_big_endian() {
    assert_eq!(written(&0x12u8, 0), vec![0x00, 0x12]);
    assert_eq!(written(&-1i8, 1), vec![0x10, 0xFF]);
    assert_eq!(written(&0x1234u16, 3), vec![0x31, 0x12, 0x34]);
    assert_eq!(written(&-2i16, 3), vec![0x31, 0xFF, 0xFE]);
    assert_eq!(written(&0x01020304u32, 4), vec![0x42, 1, 2, 3, 4]);
    assert_eq!(written(&-1i32, 4), vec![0x42, 255, 255, 255, 255]);
    assert_eq!(written(&0x0102030405060708u64, 20), vec![0xF3, 20, 1, 2, 3, 4, 5, 6, 7, 8]);
    assert_eq!(written(&i64::MIN, 0), vec![0x03, 0x80, 0, 0, 0, 0, 0, 0, 0]);
    assert_eq!(written(&true, 5), vec![0x50, 1]);
    assert_eq!(written(&false, 5), vec![0x50, 0]);
}

#[test]
fn scalars_round_trip() {
    for v in [i8::MIN, -1, 0, 1, i8::MAX] {
        assert_eq!(read_back::<i8>(&written(&v, 0)), (v, vec![]));
    }
    for v in [0u8, 1, 255] {
        assert_eq!(read_back::<u8>(&written(&v, 15)), (v, vec![]));
    }
    for v in [i16::MIN, -1, 0, 1, i16::MAX] {
        assert_eq!(read_back::<i16>(&written(&v, 0)), (v, vec![]));
    }
    for v in [0u16, 255, 256, u16::MAX] {
        assert_eq!(read_back::<u16>(&written(&v, 0)), (v, vec![]));
    }
    for v in [i32::MIN, -1, 0, 1, i32::MAX] {
        assert_eq!(read_back::<i32>(&written(&v, 0)), (v, vec![]));
    }
    for v in [0u32, 65536, u32::MAX] {
        assert_eq!(read_back::<u32>(&written(&v, 0)), (v, vec![]));
    }
    for v in [i64::MIN, -1, 0, 1, i64::MAX] {
        assert_eq!(read_back::<i64>(&written(&v, 0)), (v, vec![]));
    }
    for v in [0u64, 1 << 32, u64::MAX] {
        assert_eq!(read_back::<u64>(&written(&v, 0)), (v, vec![]));
    }
    for v in [true, false] {
        assert_eq!(read_back::<bool>(&written(&v, 0)), (v, vec![]));
    }
}

#[test]
fn any_byte_but_zero_reads_as_true() {
    let mut rest: &[u8] = &[2, 9];
    assert!(bool::read(&mut rest, 0, "S", "f").unwrap());
    assert_eq!(rest, [9].as_ref());
    let mut rest: &[u8] = &[0];
    assert!(!bool::read(&mut rest, 0, "S", "f").unwrap());
}

#[test]
fn scalar_under_another_type_is_incorrect_type() {
    let mut rest: &[u8] = &[1, 2, 3, 4];
    match u16::read(&mut rest, 2, "Person", "age") {
        Err(DecodeError::IncorrectType { struct_name, field, val_type }) => {
            assert_eq!(struct_name, "Person");
            assert_eq!(field, "age");
            assert_eq!(val_type, 2);
        }
        other => panic!("{:?}", other),
    }
}

#[test]
fn short_scalar_is_eof() {
    let mut rest: &[u8] = &[1, 2, 3];
    assert!(matches!(u32::read(&mut rest, 2, "S", "f"), Err(DecodeError::Eof)));
    let mut rest: &[u8] = &[];
    assert!(matches!(bool::read(&mut rest, 0, "S", "f"), Err(DecodeError::Eof)));
}

#[test]
fn bytes_behind_one_or_four_bytes_of_length() {
    assert_eq!(written(&vec![7u8, 8], 1), vec![0x16, 2, 7, 8]);
    assert_eq!(written(&Vec::<u8>::new(), 1), vec![0x16, 0]);
    let long = vec![3u8; 256];
    let bytes = written(&long, 1);
    assert_eq!(&bytes[..5], [0x17, 0, 0, 1, 0].as_ref());
    assert_eq!(bytes.len(), 5 + 256);
    assert_eq!(read_back::<Vec<u8>>(&bytes), (long, vec![]));
    let short = vec![4u8; 255];
    let bytes = written(&short, 1);
    assert_eq!(&bytes[..2], [0x16, 255].as_ref());
    assert_eq!(read_back::<Vec<u8>>(&bytes), (short, vec![]));
}

#[test]
fn bytes_are_read_from_every_form() {
    // a list of single bytes
    let mut rest: &[u8] = &[0, 2, 0, 7, 0, 8, 99];
    assert_eq!(Vec::<u8>::read(&mut rest, 9, "S", "f").unwrap(), vec![7, 8]);
    assert_eq!(rest, [99].as_ref());
    // a packed list of bytes
    let mut rest: &[u8] = &[0, 0, 3, 1, 2, 3, 99];
    assert_eq!(Vec::<u8>::read(&mut rest, 13, "S", "f").unwrap(), vec![1, 2, 3]);
    assert_eq!(rest, [99].as_ref());
    // four bytes of length
    let mut rest: &[u8] = &[0, 0, 0, 1, 5, 99];
    assert_eq!(Vec::<u8>::read(&mut rest, 7, "S", "f").unwrap(), vec![5]);
    assert_eq!(rest, [99].as_ref());
}

#[test]
fn bytes_of_other_elements_are_incorrect_type() {
    // a list whose element is two bytes wide
    let mut rest: &[u8] = &[0, 1, 1, 0, 7];
    assert!(matches!(
        Vec::<u8>::read(&mut rest, 9, "S", "f"),
        Err(DecodeError::IncorrectType { struct_name: "S", field: "f", val_type: 1 })
    ));
    // a packed list of four-byte elements
    let mut rest: &[u8] = &[2, 0, 1, 0, 0, 0, 7];
    assert!(matches!(
        Vec::<u8>::read(&mut rest, 13, "S", "f"),
        Err(DecodeError::IncorrectType { struct_name: "S", field: "f", val_type: 2 })
    ));
    // a map
    let mut rest: &[u8] = &[0, 0];
    assert!(matches!(
        Vec::<u8>::read(&mut rest, 8, "S", "f"),
        Err(DecodeError::IncorrectType { struct_name: "S", field: "f", val_type: 8 })
    ));
}

#[test]
fn short_bytes_are_eof() {
    let mut rest: &[u8] = &[3, 1, 2];
    assert!(matches!(Vec::<u8>::read(&mut rest, 6, "S", "f"), Err(DecodeError::Eof)));
    let mut rest: &[u8] = &[0, 2, 0, 7, 0];
    assert!(matches!(Vec::<u8>::read(&mut rest, 9, "S", "f"), Err(DecodeError::Eof)));
}

#[test]
fn strings_travel_as_utf8() {
    let s = String::from("下北泽");
    let bytes = written(&s, 0);
    assert_eq!(bytes, vec![0x06, 9, 228, 184, 139, 229, 140, 151, 230, 179, 189]);
    assert_eq!(read_back::<String>(&bytes), (s, vec![]));
    assert_eq!(read_back::<String>(&[0x06, 0, 1]), (String::new(), vec![1]));
}

#[test]
fn bytes_that_are_not_utf8_are_no_string() {
    let mut rest: &[u8] = &[2, 0xC3, 0x28];
    let err = String::read(&mut rest, 6, "S", "f").unwrap_err();
    assert!(matches!(err, DecodeError::String(_)));
    assert!(!err.message().is_empty());
    assert_eq!(err.message(), std::str::from_utf8(&[0xC3, 0x28]).unwrap_err().to_string());
    assert!(matches!(read_utf8(&[0xFF]), Err(DecodeError::String(_))));
    assert_eq!(read_utf8(&[0x41, 0xC3, 0xA9]).unwrap(), "A\u{e9}");
}

#[test]
fn fixed_bytes_want_their_length() {
    assert_eq!(written(&[1u8, 2, 3], 2), vec![0x26, 3, 1, 2, 3]);
    assert_eq!(read_back::<[u8; 3]>(&[0x26, 3, 1, 2, 3, 4]), ([1, 2, 3], vec![4]));
    let mut rest: &[u8] = &[2, 1, 2];
    assert!(matches!(<[u8; 3]>::read(&mut rest, 6, "S", "f"), Err(DecodeError::InvalidLength)));
    let mut rest: &[u8] = &[3, 1, 2];
    assert!(matches!(<[u8; 3]>::read(&mut rest, 6, "S", "f"), Err(DecodeError::Eof)));
    // a list of single bytes is no fixed byte sequence
    let mut rest: &[u8] = &[0, 1, 0, 7];
    assert!(matches!(
        <[u8; 1]>::read(&mut rest, 9, "S", "f"),
        Err(DecodeError::IncorrectType { struct_name: "S", field: "f", val_type: 9 })
    ));
    assert_eq!(read_back::<[u8; 0]>(&[0x06, 0]), ([], vec![]));
}

#[test]
fn optional_values() {
    assert_eq!(written(&None::<u8>, 3), vec![0x3C]);
    assert_eq!(written(&Some(9u8), 3), vec![0x30, 9]);
    assert_eq!(read_back::<Option<u8>>(&[0x3C, 1]), (None, vec![1]));
    assert_eq!(read_back::<Option<u8>>(&[0x30, 9]), (Some(9), vec![]));
    // a present value that holds an absent one comes back absent
    assert_eq!(written(&Some(None::<u8>), 3), vec![0x3C]);
    assert_eq!(read_back::<Option<Option<u8>>>(&[0x3C]), (None, vec![]));
    let mut rest: &[u8] = &[0, 1];
    assert!(matches!(
        Option::<u8>::read(&mut rest, 1, "S", "f"),
        Err(DecodeError::IncorrectType { struct_name: "S", field: "f", val_type: 1 })
    ));
}

#[test]
fn lists_of_numbers() {
    let list = vec![114514i32, 1919810];
    let bytes = written(&list, 2);
    assert_eq!(bytes, vec![0x29, 0, 2, 2, 0, 1, 191, 82, 2, 0, 29, 75, 66]);
    assert_eq!(read_back::<Vec<i32>>(&bytes), (list, vec![]));
    assert_eq!(written(&Vec::<i64>::new(), 0), vec![0x09, 0, 0]);
    assert_eq!(read_back::<Vec<u16>>(&[0x09, 12]), (vec![], vec![]));
    let mut rest: &[u8] = &[0, 1, 0, 7];
    assert!(matches!(
        Vec::<i16>::read(&mut rest, 9, "S", "f"),
        Err(DecodeError::IncorrectType { struct_name: "S", field: "f", val_type: 0 })
    ));
    let mut rest: &[u8] = &[0, 2, 1, 0, 7];
    assert!(matches!(Vec::<i16>::read(&mut rest, 9, "S", "f"), Err(DecodeError::Eof)));
}

#[test]
fn maps_as_pairs() {
    let map = vec![(String::from("12"), 322i16), (String::from("14"), 322)];
    let bytes = written(&map, 0);
    assert_eq!(bytes, vec![8, 0, 2, 6, 2, 49, 50, 17, 1, 66, 6, 2, 49, 52, 17, 1, 66]);
    assert_eq!(read_back::<Vec<(String, i16)>>(&bytes), (map, vec![]));
    let mut rest: &[u8] = &[0, 0];
    assert!(matches!(
        Vec::<(u8, u8)>::read(&mut rest, 9, "S", "f"),
        Err(DecodeError::IncorrectType { struct_name: "S", field: "f", val_type: 9 })
    ));
}

#[test]
fn byte_container() {
    let held = Bytes::from_static(&[114, 51, 4]);
    assert_eq!(written(&held, 1), vec![0x16, 3, 114, 51, 4]);
    let (back, rest) = read_back::<Bytes>(&[0x16, 3, 114, 51, 4, 9]);
    assert_eq!(back, held);
    assert_eq!(&back[..], [114, 51, 4].as_ref());
    assert_eq!(rest, vec![9]);
}

#[test]
fn byte_helpers() {
    assert!(check_type(3, 3, "S", "f").is_ok());
    assert!(matches!(
        check_type(3, 4, "S", "f"),
        Err(DecodeError::IncorrectType { struct_name: "S", field: "f", val_type: 3 })
    ));
    let mut rest: &[u8] = &[5, 1];
    assert_eq!(read_bytes_len(&mut rest, 6, "S", "f").unwrap(), 5);
    let mut rest: &[u8] = &[0, 0, 1, 2];
    assert_eq!(read_bytes_len(&mut rest, 7, "S", "f").unwrap(), 258);
    let mut rest: &[u8] = &[0, 1, 1, 44];
    assert_eq!(read_bytes_len(&mut rest, 13, "S", "f").unwrap(), 300);
    let mut rest: &[u8] = &[1, 2, 3, 4];
    let mut value = [9u8; 5];
    read_slice(&mut rest, &mut value, 3).unwrap();
    assert_eq!(value, [1, 2, 3, 9, 9]);
    assert_eq!(rest, [4].as_ref());
    assert!(matches!(read_slice(&mut rest, &mut value, 2), Err(DecodeError::Eof)));
    let mut buf = vec![1u8];
    write_slice(&mut buf, &[5, 6], 15);
    assert_eq!(buf, vec![1, 0xF6, 15, 2, 5, 6]);
}
