//! A structure on the wire: its fields one behind the other, each behind
//! the header with its tag.

use vstd::prelude::*;
use crate::datum::Record;
use crate::de::Parsed;
use crate::error::{DecodeResult, EncodeError, EncodeResult};
use crate::kind::Schema;
use crate::size::capped;
use crate::tree::{wire_struct, Tree};

verus! {

/// How many bytes a sink that holds `len` can still take: a byte vector
/// never holds more than `isize::MAX`.
pub open spec fn room(len: nat) -> int {
    isize::MAX - len
}

/// What a structure must offer to travel: its fields as bytes, their
/// length, and the way back from bytes, for which a reader needs the
/// layout.
pub trait JceStruct: Sized {
    /// What a reader must know of the structure.
    type Layout;

    /// The fields as contracts speak of them.
    spec fn fields(&self) -> Seq<(u8, Tree)>;

    /// What reading a structure of `layout` makes of `bytes`.
    spec fn parse(layout: &Self::Layout, bytes: Seq<u8>, to_end: bool) -> Parsed<Seq<(u8, Tree)>>;

    /// Appends the fields, each at its tag, in their order, none left out.
    fn encode_raw(&self, buf: &mut Vec<u8>)
        requires
            Tree::Struct(self.fields()).writable(),
        ensures
            final(buf)@ == old(buf)@ + wire_struct(self.fields()),
    ;

    /// The length of what `encode_raw` appends, capped at the largest `usize`.
    fn encoded_len(&self) -> (n: usize)
        ensures
            n == capped(wire_struct(self.fields()).len()),
    ;

    /// Reads fields until the buffer ends or, unless `to_end`, until the
    /// header with the end marker has been taken.
    fn decode_raw(layout: &Self::Layout, buf: &mut &[u8], to_end: bool) -> (r: DecodeResult<
        Self,
    >)
        ensures
            match Self::parse(layout, old(buf)@, to_end) {
                Parsed::Done(fields, rest) => r matches Ok(v) && v.fields() == fields
                    && final(buf)@ == rest,
                Parsed::Fail(f) => r matches Err(e) && e@ == f,
            },
    ;

    /// Appends the fields, unless they are more than the sink has room
    /// for: then nothing is written.
    fn encode(&self, buf: &mut Vec<u8>) -> (r: EncodeResult<()>)
        requires
            Tree::Struct(self.fields()).writable(),
        ensures
            wire_struct(self.fields()).len() > room(
                old(buf)@.len(),
            ) ==> r is Err && final(buf)@ == old(buf)@,
            wire_struct(self.fields()).len() <= room(
                old(buf)@.len(),
            ) ==> r is Ok && final(buf)@ == old(buf)@ + wire_struct(self.fields()),
    {
        let limit = isize::MAX as usize;
        if buf.len() > limit || self.encoded_len() > limit - buf.len() {
            return Err(EncodeError);
        }
        self.encode_raw(buf);
        Ok(())
    }

    /// Writes the fields into the front of `buf`, unless they are more
    /// than `buf` is long: then nothing is written. Returns how many bytes
    /// the fields took.
    fn encode_to_slice(&self, buf: &mut [u8]) -> (r: EncodeResult<usize>)
        requires
            Tree::Struct(self.fields()).writable(),
        ensures
            wire_struct(self.fields()).len() > old(buf)@.len()
                ==> r is Err && final(buf)@ == old(buf)@,
            wire_struct(self.fields()).len() <= old(buf)@.len()
                ==> r == Ok::<usize, EncodeError>(
                wire_struct(self.fields()).len() as usize,
            ) && final(buf)@ == wire_struct(self.fields())
                + old(buf)@.skip(
                wire_struct(self.fields()).len() as int,
            ),
    {
        if self.encoded_len() > buf.len() {
            return Err(EncodeError);
        }
        let mut bytes: Vec<u8> = Vec::new();
        self.encode_raw(&mut bytes);
        let len = bytes.len();
        let mut i: usize = 0;
        while i < len
            invariant
                i <= len <= buf@.len(),
                len == bytes@.len(),
                buf@.len() == old(buf)@.len(),
                buf@ =~= bytes@.take(i as int) + old(buf)@.skip(i as int),
            decreases len - i,
        {
            buf[i] = bytes[i];
            i = i + 1;
        }
        assert(bytes@.take(len as int) =~= bytes@);
        Ok(len)
    }

    /// Reads a structure from a buffer that holds its fields and nothing
    /// else.
    fn decode(layout: &Self::Layout, buf: &[u8]) -> (r: DecodeResult<Self>)
        ensures
            match Self::parse(layout, buf@, true) {
                Parsed::Done(fields, _) => r matches Ok(v) && v.fields() == fields,
                Parsed::Fail(f) => r matches Err(e) && e@ == f,
            },
    {
        let mut buf = buf;
        Self::decode_raw(layout, &mut buf, true)
    }
}

impl JceStruct for Record {
    type Layout = Schema;

    open spec fn fields(&self) -> Seq<(u8, Tree)> {
        self@
    }

    open spec fn parse(layout: &Schema, bytes: Seq<u8>, to_end: bool) -> Parsed<Seq<(u8, Tree)>> {
        layout.parse_fields(layout.blank_fields(layout.fields@.len()), bytes, to_end)
    }

    fn encode_raw(&self, buf: &mut Vec<u8>) {
        self.encode_fields(buf);
    }

    fn encoded_len(&self) -> (n: usize) {
        self.fields_len()
    }

    fn decode_raw(layout: &Schema, buf: &mut &[u8], to_end: bool) -> (r: DecodeResult<Self>) {
        layout.decode_raw(buf, to_end)
    }
}

} // verus!
