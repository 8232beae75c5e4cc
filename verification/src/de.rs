//! Reading headers and length prefixes.

use vstd::prelude::*;
use crate::cursor::{be_value, get_be, get_u8};
use crate::error::{DecodeError, DecodeResult, Failure};
use crate::types::{JceHeader, BYTE, EMPTY, INT, LONG, SHORT};

verus! {

/// What reading one item from the front of a byte sequence comes to: the
/// item and the bytes behind it, or the failure.
pub enum Parsed<T> {
    Done(T, Seq<u8>),
    Fail(Failure),
}

/// Whether a read that returned `r` and left `after` to be read did what `p`
/// says. After a failure the buffer is left wherever the read stopped.
pub open spec fn agrees<T>(r: DecodeResult<T>, after: Seq<u8>, p: Parsed<T>) -> bool {
    match p {
        Parsed::Done(v, rest) => r == Ok::<T, DecodeError>(v) && after == rest,
        Parsed::Fail(f) => r matches Err(e) && e@ == f,
    }
}

/// The header at the front of `bytes`. The low half of the first byte is the
/// type code. The high half is the tag, unless it is 15: then the tag is the
/// second byte.
pub open spec fn parse_header(bytes: Seq<u8>) -> Parsed<JceHeader> {
    if bytes.len() < 1 {
        Parsed::Fail(Failure::Eof)
    } else if bytes[0] >> 4 != 0xF {
        Parsed::Done(JceHeader { val_type: bytes[0] & 0xF, tag: bytes[0] >> 4 }, bytes.skip(1))
    } else if bytes.len() < 2 {
        Parsed::Fail(Failure::Eof)
    } else {
        Parsed::Done(JceHeader { val_type: bytes[0] & 0xF, tag: bytes[1] }, bytes.skip(2))
    }
}

/// The type code in the byte at the front of `bytes`, whose high half is
/// not looked at.
pub open spec fn parse_type(bytes: Seq<u8>) -> Parsed<u8> {
    if bytes.len() < 1 {
        Parsed::Fail(Failure::Eof)
    } else {
        Parsed::Done(bytes[0] & 0xF, bytes.skip(1))
    }
}

/// How many bytes of number follow the selector `t` of a length prefix.
pub open spec fn len_width(t: u8) -> Option<int> {
    if t == BYTE {
        Some(1)
    } else if t == SHORT {
        Some(2)
    } else if t == INT {
        Some(4)
    } else if t == LONG {
        Some(8)
    } else if t == EMPTY {
        Some(0)
    } else {
        None
    }
}

/// The length prefix at the front of `bytes`: a selector, then a big-endian
/// number of the width that the selector names. A number that no `usize`
/// holds is more than any buffer has left, and fails as running past the end.
pub open spec fn parse_len(bytes: Seq<u8>) -> Parsed<usize> {
    if bytes.len() < 1 {
        Parsed::Fail(Failure::Eof)
    } else {
        match len_width(bytes[0]) {
            None => Parsed::Fail(Failure::InvalidType),
            Some(w) => {
                if bytes.len() - 1 < w {
                    Parsed::Fail(Failure::Eof)
                } else if be_value(bytes.subrange(1, 1 + w)) > usize::MAX {
                    Parsed::Fail(Failure::Eof)
                } else {
                    Parsed::Done(be_value(bytes.subrange(1, 1 + w)) as usize, bytes.skip(1 + w))
                }
            },
        }
    }
}

/// Fails with `Eof` unless at least `min` bytes are left.
#[inline]
pub fn check_buf(buf: &[u8], min: usize) -> (r: DecodeResult<()>)
    ensures
        buf@.len() >= min ==> r is Ok,
        buf@.len() < min ==> (r matches Err(e) && e@ == Failure::Eof),
{
    if buf.len() < min {
        return Err(DecodeError::Eof);
    }
    Ok(())
}

/// Fails with `Eof` unless at least one byte is left.
#[inline]
pub fn check_buf_zero(buf: &[u8]) -> (r: DecodeResult<()>)
    ensures
        buf@.len() >= 1 ==> r is Ok,
        buf@.len() < 1 ==> (r matches Err(e) && e@ == Failure::Eof),
{
    check_buf(buf, 1)
}

/// Reads the header of the next value.
pub fn read_header(buf: &mut &[u8]) -> (r: DecodeResult<JceHeader>)
    ensures
        agrees(r, final(buf)@, parse_header(old(buf)@)),
{
    check_buf_zero(buf)?;
    let head = get_u8(buf);
    let t = head & 0xF;
    let mut tag = head >> 4;
    if tag == 0xF {
        check_buf_zero(buf)?;
        tag = get_u8(buf);
        assert(buf@ =~= old(buf)@.skip(2));
    }
    Ok(JceHeader { val_type: t, tag })
}

/// Reads the one byte in front of an element and keeps its type code.
pub fn read_type(buf: &mut &[u8]) -> (r: DecodeResult<u8>)
    ensures
        agrees(r, final(buf)@, parse_type(old(buf)@)),
{
    check_buf_zero(buf)?;
    Ok(get_u8(buf) & 0xF)
}

/// Reads a length prefix.
pub fn read_len(buf: &mut &[u8]) -> (r: DecodeResult<usize>)
    ensures
        agrees(r, final(buf)@, parse_len(old(buf)@)),
{
    check_buf_zero(buf)?;
    let len_type = get_u8(buf);
    let width: usize = match len_type {
        BYTE => 1,
        SHORT => 2,
        INT => 4,
        LONG => 8,
        EMPTY => 0,
        _ => return Err(DecodeError::InvalidType),
    };
    check_buf(buf, width)?;
    let v = get_be(buf, width);
    proof {
        assert(old(buf)@.skip(1).take(width as int) =~= old(buf)@.subrange(1, 1 + width));
        assert(old(buf)@.skip(1).skip(width as int) =~= old(buf)@.skip(1 + width));
    }
    if v > usize::MAX as u64 {
        return Err(DecodeError::Eof);
    }
    Ok(v as usize)
}

} // verus!
