//! Stepping over a value without reading it: what keeps a reader in step
//! with a writer that knows more fields than it does.

use vstd::prelude::*;
use crate::cursor::{advance, be_value, get_be, get_u8, lemma_limits};
use crate::de::{
    agrees, check_buf, check_buf_zero, parse_len, parse_type, read_len, read_type, Parsed,
};
use crate::error::{DecodeError, DecodeResult, Failure};
use crate::types::{
    BYTE, DOUBLE, EMPTY, FLOAT, INT, LIST, LONG, LONG_BYTES, MAP, SHORT, SHORT_BYTES, SINGLE_LIST,
    STRUCT_END, STRUCT_START,
};

verus! {

/// The width of one packed element of type code `t`; one byte for a type
/// code that has no fixed width.
pub open spec fn packed_width(t: u8) -> nat {
    if t == SHORT {
        2
    } else if t == INT || t == FLOAT {
        4
    } else if t == LONG || t == DOUBLE {
        8
    } else {
        1
    }
}

/// `bytes` without their first `n`, or the failure to find that many.
pub open spec fn drop_bytes(bytes: Seq<u8>, n: nat) -> Parsed<()> {
    if bytes.len() < n {
        Parsed::Fail(Failure::Eof)
    } else {
        Parsed::Done((), bytes.skip(n as int))
    }
}

/// What is left of `bytes` behind one value of type code `t`.
///
/// A structure start steps over one element only, not over fields up to the
/// end marker: behind a nested structure of more than one field the reader
/// is out of step.
pub open spec fn skip(bytes: Seq<u8>, t: u8) -> Parsed<()>
    decreases bytes.len(), 1nat, 0nat,
{
    if t == BYTE {
        drop_bytes(bytes, 1)
    } else if t == SHORT {
        drop_bytes(bytes, 2)
    } else if t == INT || t == FLOAT {
        drop_bytes(bytes, 4)
    } else if t == LONG || t == DOUBLE {
        drop_bytes(bytes, 8)
    } else if t == SHORT_BYTES {
        if bytes.len() < 1 {
            Parsed::Fail(Failure::Eof)
        } else {
            drop_bytes(bytes.skip(1), bytes[0] as nat)
        }
    } else if t == LONG_BYTES {
        if bytes.len() < 4 {
            Parsed::Fail(Failure::Eof)
        } else {
            drop_bytes(bytes.skip(4), be_value(bytes.take(4)))
        }
    } else if t == STRUCT_START {
        skip_elem(bytes)
    } else if t == STRUCT_END || t == EMPTY {
        Parsed::Done((), bytes)
    } else if t == MAP {
        match parse_len(bytes) {
            Parsed::Fail(f) => Parsed::Fail(f),
            Parsed::Done(n, rest) => skip_elems(rest, 2 * n as nat),
        }
    } else if t == LIST {
        match parse_len(bytes) {
            Parsed::Fail(f) => Parsed::Fail(f),
            Parsed::Done(n, rest) => skip_elems(rest, n as nat),
        }
    } else if t == SINGLE_LIST {
        match parse_type(bytes) {
            Parsed::Fail(f) => Parsed::Fail(f),
            Parsed::Done(tt, rest) => match parse_len(rest) {
                Parsed::Fail(f) => Parsed::Fail(f),
                Parsed::Done(n, rest) => drop_bytes(rest, n as nat * packed_width(tt)),
            },
        }
    } else {
        Parsed::Fail(Failure::InvalidType)
    }
}

/// What is left of `bytes` behind one element: a byte that holds its type
/// code, then a value of that type.
pub open spec fn skip_elem(bytes: Seq<u8>) -> Parsed<()>
    decreases bytes.len(), 0nat, 0nat,
{
    if bytes.len() < 1 {
        Parsed::Fail(Failure::Eof)
    } else {
        skip(bytes.skip(1), bytes[0] & 0xF)
    }
}

/// What is left of `bytes` behind `count` elements. An element takes its
/// type byte at least, so that the test on the length never fails: it is
/// there to show that the definition ends.
pub open spec fn skip_elems(bytes: Seq<u8>, count: nat) -> Parsed<()>
    decreases bytes.len(), 1nat, count,
{
    if count == 0 {
        Parsed::Done((), bytes)
    } else {
        match skip_elem(bytes) {
            Parsed::Fail(f) => Parsed::Fail(f),
            Parsed::Done(_, rest) => if rest.len() < bytes.len() {
                skip_elems(rest, (count - 1) as nat)
            } else {
                Parsed::Fail(Failure::Eof)
            },
        }
    }
}

/// Stepping over a value never makes the buffer longer.
pub proof fn lemma_skip_shortens(bytes: Seq<u8>, t: u8)
    ensures
        skip(bytes, t) matches Parsed::Done(_, rest) ==> rest.len() <= bytes.len(),
    decreases bytes.len(), 1nat, 0nat,
{
    if t == STRUCT_START {
        lemma_skip_elem_shortens(bytes);
    } else if t == MAP || t == LIST {
        if let Parsed::Done(n, rest) = parse_len(bytes) {
            lemma_skip_elems_shorten(rest, if t == MAP { 2 * n as nat } else { n as nat });
        }
    }
}

/// Stepping over an element takes one byte at least.
pub proof fn lemma_skip_elem_shortens(bytes: Seq<u8>)
    ensures
        skip_elem(bytes) matches Parsed::Done(_, rest) ==> rest.len() < bytes.len(),
    decreases bytes.len(), 0nat, 0nat,
{
    if bytes.len() >= 1 {
        lemma_skip_shortens(bytes.skip(1), bytes[0] & 0xF);
    }
}

/// Stepping over elements never makes the buffer longer.
pub proof fn lemma_skip_elems_shorten(bytes: Seq<u8>, count: nat)
    ensures
        skip_elems(bytes, count) matches Parsed::Done(_, rest) ==> rest.len() <= bytes.len(),
    decreases bytes.len(), 1nat, count,
{
    if count > 0 {
        lemma_skip_elem_shortens(bytes);
        if let Parsed::Done(_, rest) = skip_elem(bytes) {
            lemma_skip_elems_shorten(rest, (count - 1) as nat);
        }
    }
}

/// Steps over `n` bytes.
fn skip_bytes(buf: &mut &[u8], n: usize) -> (r: DecodeResult<()>)
    ensures
        agrees(r, final(buf)@, drop_bytes(old(buf)@, n as nat)),
{
    check_buf(buf, n)?;
    advance(buf, n);
    Ok(())
}

/// Steps over one element: the byte with its type code, and its value.
fn skip_element(buf: &mut &[u8]) -> (r: DecodeResult<()>)
    ensures
        agrees(r, final(buf)@, skip_elem(old(buf)@)),
    decreases old(buf)@.len(), 0nat,
{
    let t = read_type(buf)?;
    skip_field(buf, t)
}

/// Steps over `count` elements.
fn skip_elements(buf: &mut &[u8], count: usize) -> (r: DecodeResult<()>)
    ensures
        agrees(r, final(buf)@, skip_elems(old(buf)@, count as nat)),
    decreases old(buf)@.len(), 1nat,
{
    let mut i: usize = 0;
    while i < count
        invariant
            i <= count,
            buf@.len() <= old(buf)@.len(),
            skip_elems(old(buf)@, count as nat) == skip_elems(buf@, (count - i) as nat),
        decreases count - i,
    {
        proof {
            lemma_skip_elem_shortens(buf@);
        }
        skip_element(buf)?;
        i = i + 1;
    }
    Ok(())
}

/// Discards the bytes of one value of type code `t` without looking at
/// what they hold. Fails with `Eof` where the buffer ends before the value
/// does, and with `InvalidType` on a type code, or the selector of a length,
/// that is none of the known ones.
pub fn skip_field(buf: &mut &[u8], t: u8) -> (r: DecodeResult<()>)
    ensures
        agrees(r, final(buf)@, skip(old(buf)@, t)),
    decreases old(buf)@.len(), 2nat,
{
    match t {
        BYTE => skip_bytes(buf, 1),
        SHORT => skip_bytes(buf, 2),
        INT | FLOAT => skip_bytes(buf, 4),
        LONG | DOUBLE => skip_bytes(buf, 8),
        SHORT_BYTES => {
            check_buf_zero(buf)?;
            let len = get_u8(buf) as usize;
            skip_bytes(buf, len)
        },
        LONG_BYTES => {
            check_buf(buf, 4)?;
            proof {
                lemma_limits();
            }
            let len = get_be(buf, 4) as usize;
            skip_bytes(buf, len)
        },
        STRUCT_START => skip_element(buf),
        STRUCT_END | EMPTY => Ok(()),
        MAP => {
            let len = read_len(buf)?;
            proof {
                lemma_skip_elems_shorten(buf@, len as nat);
                lemma_skip_elems_twice(buf@, len as nat, len as nat);
            }
            skip_elements(buf, len)?;
            skip_elements(buf, len)
        },
        LIST => {
            let len = read_len(buf)?;
            skip_elements(buf, len)
        },
        SINGLE_LIST => {
            let tt = read_type(buf)?;
            let len = read_len(buf)?;
            let single: usize = match tt {
                SHORT => 2,
                INT | FLOAT => 4,
                LONG | DOUBLE => 8,
                _ => 1,
            };
            match len.checked_mul(single) {
                Some(total) => skip_bytes(buf, total),
                None => {
                    proof {
                        vstd::slice::axiom_spec_len(*buf);
                    }
                    Err(DecodeError::Eof)
                },
            }
        },
        _ => Err(DecodeError::InvalidType),
    }
}

/// Stepping over `a + b` elements is stepping over `a` and then over `b`.
pub proof fn lemma_skip_elems_twice(bytes: Seq<u8>, a: nat, b: nat)
    ensures
        skip_elems(bytes, a + b) == match skip_elems(bytes, a) {
            Parsed::Fail(f) => Parsed::Fail(f),
            Parsed::Done(_, rest) => skip_elems(rest, b),
        },
    decreases a,
{
    if a > 0 {
        lemma_skip_elem_shortens(bytes);
        if let Parsed::Done(_, rest) = skip_elem(bytes) {
            lemma_skip_elems_twice(rest, (a - 1) as nat, b);
        }
    }
}

} // verus!
