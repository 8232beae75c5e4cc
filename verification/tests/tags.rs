use jce::size::header_len;
use jce::tags::{assign_tags, tags_encoded_len};

#[test]
fn unnamed_fields_count_from_zero() {
    assert_eq!(assign_tags(&[None, None, None]), vec![0, 1, 2]);
    assert_eq!(assign_tags(&[]), Vec::<u8>::new());
}

#[test]
fn unnamed_field_follows_the_named_one_before_it() {
    // name, age, male at 5, phone, home at 11
    assert_eq!(assign_tags(&[None, None, Some(5), None, Some(11)]), vec![0, 1, 5, 6, 11]);
    assert_eq!(assign_tags(&[Some(129), None]), vec![129, 130]);
    assert_eq!(assign_tags(&[Some(7), Some(2), None]), vec![7, 2, 3]);
}

#[test]
fn counting_goes_on_from_255_with_zero() {
    assert_eq!(assign_tags(&[Some(255), None, None]), vec![255, 0, 1]);
}

#[test]
fn headers_take_one_or_two_bytes() {
    assert_eq!(header_len(0), 1);
    assert_eq!(header_len(14), 1);
    assert_eq!(header_len(15), 2);
    assert_eq!(header_len(255), 2);
    assert_eq!(tags_encoded_len(&[0, 1, 2, 3, 129]), 6);
    assert_eq!(tags_encoded_len(&[]), 0);
}
