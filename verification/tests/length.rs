use jce::de::{check_buf, check_buf_zero, read_len};
use jce::error::DecodeError;
use jce::ser::{len_bytes, write_len};

fn written(len: usize) -> Vec<u8> {
    let mut buf = Vec::new();
    write_len(&mut buf, len);
    buf
}

#[test]
fn length_prefix_has_the_narrowest_width() {
    assert_eq!(written(0), vec![0, 0]);
    assert_eq!(written(255), vec![0, 255]);
    assert_eq!(written(256), vec![1, 1, 0]);
    assert_eq!(written(65535), vec![1, 255, 255]);
    assert_eq!(written(65536), vec![2, 0, 1, 0, 0]);
    assert_eq!(written(4294967295), vec![2, 255, 255, 255, 255]);
    assert_eq!(written(4294967296), vec![3, 0, 0, 0, 1, 0, 0, 0, 0]);
}

#[test]
fn length_round_trip_at_the_boundaries() {
    for len in [0usize, 255, 256, 65535, 65536, 4294967295, 4294967296, usize::MAX] {
        let mut bytes = written(len);
        bytes.push(7);
        let mut rest: &[u8] = &bytes;
        assert_eq!(read_len(&mut rest).unwrap(), len);
        assert_eq!(rest, [7].as_ref());
    }
}

#[test]
fn width_of_a_length() {
    assert_eq!(len_bytes(0), 1);
    assert_eq!(len_bytes(255), 1);
    assert_eq!(len_bytes(256), 2);
    assert_eq!(len_bytes(65535), 2);
    assert_eq!(len_bytes(65536), 4);
    assert_eq!(len_bytes(4294967295), 4);
    assert_eq!(len_bytes(4294967296), 8);
}

#[test]
fn empty_selector_is_length_zero() {
    let mut rest: &[u8] = &[12, 9];
    assert_eq!(read_len(&mut rest).unwrap(), 0);
    assert_eq!(rest, [9].as_ref());
}

#[test]
fn unknown_selector_is_invalid_type() {
    for selector in [4u8, 5, 6, 11, 13, 200] {
        let bytes = [selector, 0, 0, 0, 0, 0, 0, 0, 0];
        let mut rest: &[u8] = &bytes;
        assert!(matches!(read_len(&mut rest), Err(DecodeError::InvalidType)));
    }
}

#[test]
fn short_length_is_eof() {
    let cases: [&[u8]; 5] = [&[], &[0], &[1, 0], &[2, 0, 0, 0], &[3, 0, 0, 0, 0, 0, 0, 0]];
    for bytes in cases {
        let mut rest: &[u8] = bytes;
        assert!(matches!(read_len(&mut rest), Err(DecodeError::Eof)));
    }
}

#[test]
fn buffer_checks() {
    assert!(check_buf(&[1, 2, 3], 3).is_ok());
    assert!(matches!(check_buf(&[1, 2, 3], 4), Err(DecodeError::Eof)));
    assert!(check_buf(&[], 0).is_ok());
    assert!(check_buf_zero(&[0]).is_ok());
    assert!(matches!(check_buf_zero(&[]), Err(DecodeError::Eof)));
}
