//! Writing headers and length prefixes.

use vstd::prelude::*;
use crate::cursor::{be_bytes, put_be};
use crate::types::{JceHeader, BYTE, EMPTY, INT, LONG, SHORT};

verus! {

/// The bytes of the header of a value of type code `val_type` at `tag`: one
/// byte with the tag in its high half, or, from tag 15 on, 15 there and the
/// tag in a second byte.
pub open spec fn header_bytes(tag: u8, val_type: u8) -> Seq<u8> {
    if tag < 0xF {
        seq![(tag << 4) | val_type]
    } else {
        seq![val_type | 0xF0, tag]
    }
}

/// The width in bytes of the narrowest of the four unsigned integers that holds `len`.
pub open spec fn spec_len_bytes(len: nat) -> nat {
    if len <= 0xFF {
        1
    } else if len <= 0xFFFF {
        2
    } else if len <= 0xFFFF_FFFF {
        4
    } else {
        8
    }
}

/// The selector that announces a number of `width` bytes.
pub open spec fn len_selector(width: nat) -> u8 {
    if width == 1 {
        BYTE
    } else if width == 2 {
        SHORT
    } else if width == 4 {
        INT
    } else {
        LONG
    }
}

/// The length prefix for `len`: the selector of the narrowest width that
/// holds it, then `len` in that many bytes, most significant first.
pub open spec fn len_prefix(len: nat) -> Seq<u8> {
    seq![len_selector(spec_len_bytes(len))] + be_bytes(len, spec_len_bytes(len))
}

/// Appends the header.
pub fn write_header(buf: &mut Vec<u8>, header: JceHeader)
    ensures
        final(buf)@ == old(buf)@ + header_bytes(header.tag, header.val_type),
{
    let JceHeader { val_type, tag } = header;
    if tag < 0xF {
        buf.push((tag << 4) | val_type);
    } else {
        buf.push(val_type | 0xF0);
        buf.push(tag);
    }
    assert(buf@ =~= old(buf)@ + header_bytes(tag, val_type));
}

/// Appends the header of an absent value at `tag`.
pub fn write_empty(buf: &mut Vec<u8>, tag: u8)
    ensures
        final(buf)@ == old(buf)@ + header_bytes(tag, EMPTY),
{
    write_header(buf, JceHeader { val_type: EMPTY, tag });
}

/// Appends the bare type code `t`, as it stands in front of an element or
/// at the end of a structure.
pub fn write_type(buf: &mut Vec<u8>, t: u8)
    ensures
        final(buf)@ == old(buf)@ + seq![t],
{
    buf.push(t);
    assert(buf@ =~= old(buf)@ + seq![t]);
}

/// Appends the length prefix for `len`.
pub fn write_len(buf: &mut Vec<u8>, len: usize)
    ensures
        final(buf)@ == old(buf)@ + len_prefix(len as nat),
{
    let width = len_bytes(len);
    let selector = if width == 1 {
        BYTE
    } else if width == 2 {
        SHORT
    } else if width == 4 {
        INT
    } else {
        LONG
    };
    buf.push(selector);
    put_be(buf, len as u64, width);
    assert(buf@ =~= old(buf)@ + len_prefix(len as nat));
}

/// The width in bytes of the narrowest of the four unsigned integers that holds `len`.
pub fn len_bytes(len: usize) -> (width: usize)
    ensures
        width == spec_len_bytes(len as nat),
{
    if len <= 0xFF {
        1
    } else if len <= 0xFFFF {
        2
    } else if len <= 0xFFFF_FFFF {
        4
    } else {
        8
    }
}

} // verus!
