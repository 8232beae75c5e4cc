use jce::error::DecodeError;
use jce::skip::skip_field;

fn left(bytes: &[u8], t: u8) -> Vec<u8> {
    let mut rest: &[u8] = bytes;
    skip_field(&mut rest, t).unwrap();
    rest.to_vec()
}

#[test]
fn skip_steps_over_scalars() {
    let bytes = [1, 2, 3, 4, 5, 6, 7, 8, 9];
    assert_eq!(left(&bytes, 0), vec![2, 3, 4, 5, 6, 7, 8, 9]);
    assert_eq!(left(&bytes, 1), vec![3, 4, 5, 6, 7, 8, 9]);
    assert_eq!(left(&bytes, 2), vec![5, 6, 7, 8, 9]);
    assert_eq!(left(&bytes, 4), vec![5, 6, 7, 8, 9]);
    assert_eq!(left(&bytes, 3), vec![9]);
    assert_eq!(left(&bytes, 5), vec![9]);
}

#[test]
fn skip_steps_over_bytes() {
    assert_eq!(left(&[2, 10, 11, 12], 6), vec![12]);
    assert_eq!(left(&[0, 0, 0, 3, 10, 11, 12, 13], 7), vec![13]);
}

#[test]
fn skip_takes_nothing_for_markers() {
    assert_eq!(left(&[1, 2], 11), vec![1, 2]);
    assert_eq!(left(&[1, 2], 12), vec![1, 2]);
}

#[test]
fn skip_steps_over_a_list_and_a_map() {
    // two elements: a byte, and two bytes behind their length
    assert_eq!(left(&[0, 2, 0, 7, 6, 2, 8, 9, 99], 9), vec![99]);
    // one pair: key "1" at tag 0, value of two bytes at tag 1
    assert_eq!(left(&[0, 1, 6, 1, 49, 17, 1, 66, 99], 8), vec![99]);
}

#[test]
fn skip_steps_over_a_packed_list() {
    // three elements of four bytes
    assert_eq!(left(&[2, 0, 3, 1, 2, 3, 4, 5, 6, 7, 8, 9, 10, 11, 12, 99], 13), vec![99]);
    // an element type without a fixed width counts as one byte
    assert_eq!(left(&[9, 0, 2, 1, 2, 99], 13), vec![99]);
}

#[test]
fn skip_of_a_structure_steps_over_one_element() {
    // an empty structure: the end marker is the element
    assert_eq!(left(&[11, 99], 10), vec![99]);
    // a structure of two fields: only the first is stepped over
    assert_eq!(left(&[0x00, 5, 0x10, 6, 11, 99], 10), vec![0x10, 6, 11, 99]);
}

#[test]
fn skip_past_the_end_is_eof() {
    let cases: [(&[u8], u8); 10] = [
        (&[], 0),
        (&[1], 1),
        (&[1, 2, 3], 2),
        (&[1, 2, 3, 4, 5, 6, 7], 3),
        (&[], 6),
        (&[3, 1, 2], 6),
        (&[0, 0, 0], 7),
        (&[0, 0, 0, 2, 1], 7),
        (&[0, 2, 0, 7], 9),
        (&[2, 0, 3, 1, 2, 3, 4, 5, 6, 7, 8, 9, 10, 11], 13),
    ];
    for (bytes, t) in cases {
        let mut rest: &[u8] = bytes;
        assert!(matches!(skip_field(&mut rest, t), Err(DecodeError::Eof)), "{:?} {}", bytes, t);
    }
}

#[test]
fn skip_of_a_huge_packed_list_is_eof() {
    let bytes = [3, 3, 255, 255, 255, 255, 255, 255, 255, 255, 1, 2, 3];
    let mut rest: &[u8] = &bytes;
    assert!(matches!(skip_field(&mut rest, 13), Err(DecodeError::Eof)));
}

#[test]
fn skip_of_an_unknown_type_is_invalid_type() {
    for t in [14u8, 15, 16, 255] {
        let mut rest: &[u8] = &[1, 2, 3];
        assert!(matches!(skip_field(&mut rest, t), Err(DecodeError::InvalidType)));
    }
    // an element of unknown type within a list
    let mut rest: &[u8] = &[0, 1, 14, 0];
    assert!(matches!(skip_field(&mut rest, 9), Err(DecodeError::InvalidType)));
    // a length with an unknown selector
    let mut rest: &[u8] = &[7, 1, 0, 0];
    assert!(matches!(skip_field(&mut rest, 8), Err(DecodeError::InvalidType)));
}
