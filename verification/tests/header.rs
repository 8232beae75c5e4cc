use jce::de::{read_header, read_type};
use jce::error::DecodeError;
use jce::ser::{write_empty, write_header, write_type};
use jce::types::JceHeader;

#[test]
fn int_header() {
    let head = [58];
    let header = read_header(&mut head.as_ref()).unwrap();

    assert_eq!(header.value_type(), 10);
    assert_eq!(header.tag(), 3);
}

#[test]
fn header_of_small_tag_is_one_byte() {
    let mut buf = Vec::new();
    write_header(&mut buf, JceHeader { val_type: 2, tag: 14 });
    assert_eq!(buf, vec![0xE2]);
}

#[test]
fn header_of_large_tag_is_two_bytes() {
    let mut buf = Vec::new();
    write_header(&mut buf, JceHeader { val_type: 6, tag: 15 });
    write_header(&mut buf, JceHeader { val_type: 13, tag: 255 });
    assert_eq!(buf, vec![0xF6, 15, 0xFD, 255]);
}

#[test]
fn header_round_trip_for_all_tags_and_type_codes() {
    for tag in 0..=255u8 {
        for val_type in 0..=13u8 {
            let mut buf = vec![0xAAu8];
            write_header(&mut buf, JceHeader { val_type, tag });
            buf.push(0x55);
            let mut rest: &[u8] = &buf[1..];
            let header = read_header(&mut rest).unwrap();
            assert_eq!(header.tag(), tag);
            assert_eq!(header.value_type(), val_type);
            assert_eq!(rest, [0x55].as_ref());
        }
    }
}

#[test]
fn header_in_an_empty_buffer_is_eof() {
    let mut rest: &[u8] = &[];
    assert!(matches!(read_header(&mut rest), Err(DecodeError::Eof)));
}

#[test]
fn header_without_its_tag_byte_is_eof() {
    let mut rest: &[u8] = &[0xF3];
    assert!(matches!(read_header(&mut rest), Err(DecodeError::Eof)));
}

#[test]
fn empty_header_and_bare_type() {
    let mut buf = Vec::new();
    write_empty(&mut buf, 2);
    write_empty(&mut buf, 200);
    write_type(&mut buf, 11);
    assert_eq!(buf, vec![0x2C, 0xFC, 200, 11]);
}

#[test]
fn type_of_an_element_ignores_the_high_half() {
    let mut rest: &[u8] = &[0x79, 1];
    assert_eq!(read_type(&mut rest).unwrap(), 9);
    assert_eq!(rest, [1].as_ref());
    let mut none: &[u8] = &[];
    assert!(matches!(read_type(&mut none), Err(DecodeError::Eof)));
}
