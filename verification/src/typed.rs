//! Rust's own types as values of the format.

use vstd::prelude::*;
use vstd::string::StringSliceAdditionalSpecFns;
use vstd::utf8::{decode_utf8, encode_utf8_decode_utf8, valid_utf8};
use crate::cursor::{get_be, get_u8, lemma_be_value_bound, lemma_limits, put_be, put_slice, take};
use crate::de::{agrees, check_buf, check_buf_zero, read_len, read_type, Parsed};
use crate::error::{DecodeError, DecodeResult, Failure};
use crate::kind::{lemma_admits_items, lemma_admits_pairs, Kind};
use crate::parse::{mismatch, parse_byte_items, parse_bytes_len};
use crate::ser::{header_bytes, write_empty, write_header, write_len};
use crate::tree::{
    bytes_code, bytes_payload, lemma_writable_items, lemma_writable_pairs, wire_items, wire_pairs,
    Tree,
};
use crate::types::{
    JceHeader, BYTE, EMPTY, INT, LIST, LONG, LONG_BYTES, MAP, SHORT, SHORT_BYTES, SINGLE_LIST,
};

verus! {

/// A type whose values travel as values of one kind.
pub trait JceType: Sized {
    /// The kind as which the values travel.
    spec fn kind() -> Kind;

    /// The value as contracts speak of it.
    spec fn tree(&self) -> Tree;

    /// Reads a value that was found under type code `t`. The two names
    /// go into the error of a type code that the kind does not read.
    fn read(buf: &mut &[u8], t: u8, struct_name: &'static str, field: &'static str) -> (r:
        DecodeResult<Self>)
        ensures
            match Self::kind().parse(old(buf)@, t, struct_name, field) {
                Parsed::Done(tree, rest) => r matches Ok(v) && v.tree() == tree && final(buf)@
                    == rest,
                Parsed::Fail(f) => r matches Err(e) && e@ == f,
            },
    ;

    /// Appends the value at `tag`: its header, then its payload.
    fn write(&self, buf: &mut Vec<u8>, tag: u8)
        requires
            self.tree().writable(),
        ensures
            final(buf)@ == old(buf)@ + self.tree().wire(tag),
    ;

    /// No structure within the kind of the type has a tag twice.
    proof fn lemma_sound()
        ensures
            Self::kind().sound(),
    ;

    /// Every value of the type is a value of its kind.
    proof fn lemma_of_kind(&self)
        ensures
            Self::kind().admits(self.tree()),
    ;
}

/// Fails with `IncorrectType`, naming structure and field, unless the
/// type code found is the one expected.
pub fn check_type(
    current: u8,
    expected: u8,
    struct_name: &'static str,
    field: &'static str,
) -> (r: DecodeResult<()>)
    ensures
        current == expected ==> r is Ok,
        current != expected ==> (r matches Err(e) && e@ == mismatch(current, struct_name, field)),
{
    if current == expected {
        Ok(())
    } else {
        Err(DecodeError::IncorrectType { struct_name, field, val_type: current })
    }
}

/// Reads the length of a byte sequence that was found under type code `t`.
pub fn read_bytes_len(
    buf: &mut &[u8],
    t: u8,
    struct_name: &'static str,
    field: &'static str,
) -> (r: DecodeResult<usize>)
    ensures
        agrees(r, final(buf)@, parse_bytes_len(old(buf)@, t, struct_name, field)),
{
    let len = match t {
        SHORT_BYTES => {
            check_buf_zero(buf)?;
            get_u8(buf) as usize
        },
        LONG_BYTES => {
            check_buf(buf, 4)?;
            proof {
                lemma_limits();
            }
            get_be(buf, 4) as usize
        },
        SINGLE_LIST => {
            let t = read_type(buf)?;
            if t != BYTE {
                return Err(DecodeError::IncorrectType { struct_name, field, val_type: t });
            }
            read_len(buf)?
        },
        _ => {
            return Err(DecodeError::IncorrectType { struct_name, field, val_type: t });
        },
    };
    Ok(len)
}

/// Moves the next `len` bytes into the front of `value`.
pub fn read_slice(buf: &mut &[u8], value: &mut [u8], len: usize) -> (r: DecodeResult<()>)
    requires
        len <= old(value)@.len(),
    ensures
        old(buf)@.len() < len ==> (r matches Err(e) && e@ == Failure::Eof) && final(value)@
            == old(value)@,
        old(buf)@.len() >= len ==> r is Ok && final(buf)@ == old(buf)@.skip(len as int)
            && final(value)@ == old(buf)@.take(len as int) + old(value)@.skip(len as int),
{
    if buf.len() < len {
        return Err(DecodeError::Eof);
    }
    let head = take(buf, len);
    let mut i: usize = 0;
    while i < len
        invariant
            i <= len <= value@.len(),
            head@.len() == len,
            value@.len() == old(value)@.len(),
            value@ =~= head@.take(i as int) + old(value)@.skip(i as int),
        decreases len - i,
    {
        value[i] = head[i];
        i = i + 1;
    }
    assert(head@.take(len as int) =~= head@);
    Ok(())
}

/// Appends a byte sequence at `tag`: behind one byte of length up to 255
/// bytes, behind four bytes above.
pub fn write_slice(buf: &mut Vec<u8>, value: &[u8], tag: u8)
    requires
        value@.len() <= u32::MAX,
    ensures
        final(buf)@ == old(buf)@ + header_bytes(tag, bytes_code(value@.len())) + bytes_payload(
            value@,
        ),
{
    let len = value.len();
    if len <= 0xFF {
        write_header(buf, JceHeader { val_type: SHORT_BYTES, tag });
        buf.push(len as u8);
    } else {
        write_header(buf, JceHeader { val_type: LONG_BYTES, tag });
        put_be(buf, len as u64, 4);
    }
    put_slice(buf, value);
    assert(buf@ =~= old(buf)@ + header_bytes(tag, bytes_code(value@.len())) + bytes_payload(
        value@,
    ));
}

/// A signed integer of one byte in two's complement.
impl JceType for i8 {
    open spec fn kind() -> Kind {
        Kind::I8
    }

    open spec fn tree(&self) -> Tree {
        Tree::I8(*self)
    }

    fn read(buf: &mut &[u8], t: u8, struct_name: &'static str, field: &'static str) -> (r:
        DecodeResult<Self>) {
        check_type(t, BYTE, struct_name, field)?;
        check_buf(buf, 1)?;
        proof {
            lemma_limits();
        }
        Ok(get_be(buf, 1) as u8 as i8)
    }

    fn write(&self, buf: &mut Vec<u8>, tag: u8) {
        write_header(buf, JceHeader { val_type: BYTE, tag });
        put_be(buf, *self as u8 as u64, 1);
        assert(buf@ =~= old(buf)@ + self.tree().wire(tag));
    }

    proof fn lemma_sound() {
    }

    proof fn lemma_of_kind(&self) {
    }
}

/// An unsigned integer of one byte.
impl JceType for u8 {
    open spec fn kind() -> Kind {
        Kind::U8
    }

    open spec fn tree(&self) -> Tree {
        Tree::U8(*self)
    }

    fn read(buf: &mut &[u8], t: u8, struct_name: &'static str, field: &'static str) -> (r:
        DecodeResult<Self>) {
        check_type(t, BYTE, struct_name, field)?;
        check_buf(buf, 1)?;
        proof {
            lemma_limits();
        }
        Ok(get_be(buf, 1) as u8)
    }

    fn write(&self, buf: &mut Vec<u8>, tag: u8) {
        write_header(buf, JceHeader { val_type: BYTE, tag });
        put_be(buf, *self as u64, 1);
        assert(buf@ =~= old(buf)@ + self.tree().wire(tag));
    }

    proof fn lemma_sound() {
    }

    proof fn lemma_of_kind(&self) {
    }
}

/// A signed integer of two bytes in two's complement, most significant byte first.
impl JceType for i16 {
    open spec fn kind() -> Kind {
        Kind::I16
    }

    open spec fn tree(&self) -> Tree {
        Tree::I16(*self)
    }

    fn read(buf: &mut &[u8], t: u8, struct_name: &'static str, field: &'static str) -> (r:
        DecodeResult<Self>) {
        check_type(t, SHORT, struct_name, field)?;
        check_buf(buf, 2)?;
        proof {
            lemma_limits();
        }
        Ok(get_be(buf, 2) as u16 as i16)
    }

    fn write(&self, buf: &mut Vec<u8>, tag: u8) {
        write_header(buf, JceHeader { val_type: SHORT, tag });
        put_be(buf, *self as u16 as u64, 2);
        assert(buf@ =~= old(buf)@ + self.tree().wire(tag));
    }

    proof fn lemma_sound() {
    }

    proof fn lemma_of_kind(&self) {
    }
}

/// An unsigned integer of two bytes, most significant byte first.
impl JceType for u16 {
    open spec fn kind() -> Kind {
        Kind::U16
    }

    open spec fn tree(&self) -> Tree {
        Tree::U16(*self)
    }

    fn read(buf: &mut &[u8], t: u8, struct_name: &'static str, field: &'static str) -> (r:
        DecodeResult<Self>) {
        check_type(t, SHORT, struct_name, field)?;
        check_buf(buf, 2)?;
        proof {
            lemma_limits();
        }
        Ok(get_be(buf, 2) as u16)
    }

    fn write(&self, buf: &mut Vec<u8>, tag: u8) {
        write_header(buf, JceHeader { val_type: SHORT, tag });
        put_be(buf, *self as u64, 2);
        assert(buf@ =~= old(buf)@ + self.tree().wire(tag));
    }

    proof fn lemma_sound() {
    }

    proof fn lemma_of_kind(&self) {
    }
}

/// A signed integer of four bytes in two's complement, most significant byte first.
impl JceType for i32 {
    open spec fn kind() -> Kind {
        Kind::I32
    }

    open spec fn tree(&self) -> Tree {
        Tree::I32(*self)
    }

    fn read(buf: &mut &[u8], t: u8, struct_name: &'static str, field: &'static str) -> (r:
        DecodeResult<Self>) {
        check_type(t, INT, struct_name, field)?;
        check_buf(buf, 4)?;
        proof {
            lemma_limits();
        }
        Ok(get_be(buf, 4) as u32 as i32)
    }

    fn write(&self, buf: &mut Vec<u8>, tag: u8) {
        write_header(buf, JceHeader { val_type: INT, tag });
        put_be(buf, *self as u32 as u64, 4);
        assert(buf@ =~= old(buf)@ + self.tree().wire(tag));
    }

    proof fn lemma_sound() {
    }

    proof fn lemma_of_kind(&self) {
    }
}

/// An unsigned integer of four bytes, most significant byte first.
impl JceType for u32 {
    open spec fn kind() -> Kind {
        Kind::U32
    }

    open spec fn tree(&self) -> Tree {
        Tree::U32(*self)
    }

    fn read(buf: &mut &[u8], t: u8, struct_name: &'static str, field: &'static str) -> (r:
        DecodeResult<Self>) {
        check_type(t, INT, struct_name, field)?;
        check_buf(buf, 4)?;
        proof {
            lemma_limits();
        }
        Ok(get_be(buf, 4) as u32)
    }

    fn write(&self, buf: &mut Vec<u8>, tag: u8) {
        write_header(buf, JceHeader { val_type: INT, tag });
        put_be(buf, *self as u64, 4);
        assert(buf@ =~= old(buf)@ + self.tree().wire(tag));
    }

    proof fn lemma_sound() {
    }

    proof fn lemma_of_kind(&self) {
    }
}

/// A signed integer of eight bytes in two's complement, most significant byte first.
impl JceType for i64 {
    open spec fn kind() -> Kind {
        Kind::I64
    }

    open spec fn tree(&self) -> Tree {
        Tree::I64(*self)
    }

    fn read(buf: &mut &[u8], t: u8, struct_name: &'static str, field: &'static str) -> (r:
        DecodeResult<Self>) {
        check_type(t, LONG, struct_name, field)?;
        check_buf(buf, 8)?;
        proof {
            lemma_limits();
        }
        Ok(get_be(buf, 8) as i64)
    }

    fn write(&self, buf: &mut Vec<u8>, tag: u8) {
        write_header(buf, JceHeader { val_type: LONG, tag });
        put_be(buf, *self as u64, 8);
        assert(buf@ =~= old(buf)@ + self.tree().wire(tag));
    }

    proof fn lemma_sound() {
    }

    proof fn lemma_of_kind(&self) {
    }
}

/// An unsigned integer of eight bytes, most significant byte first.
impl JceType for u64 {
    open spec fn kind() -> Kind {
        Kind::U64
    }

    open spec fn tree(&self) -> Tree {
        Tree::U64(*self)
    }

    fn read(buf: &mut &[u8], t: u8, struct_name: &'static str, field: &'static str) -> (r:
        DecodeResult<Self>) {
        check_type(t, LONG, struct_name, field)?;
        check_buf(buf, 8)?;
        proof {
            lemma_limits();
        }
        Ok(get_be(buf, 8))
    }

    fn write(&self, buf: &mut Vec<u8>, tag: u8) {
        write_header(buf, JceHeader { val_type: LONG, tag });
        put_be(buf, *self, 8);
        assert(buf@ =~= old(buf)@ + self.tree().wire(tag));
    }

    proof fn lemma_sound() {
    }

    proof fn lemma_of_kind(&self) {
    }
}

/// A truth value: one byte, 1 for true and 0 for false; read, any byte but
/// 0 is true.
impl JceType for bool {
    open spec fn kind() -> Kind {
        Kind::Bool
    }

    open spec fn tree(&self) -> Tree {
        Tree::Bool(*self)
    }

    fn read(buf: &mut &[u8], t: u8, struct_name: &'static str, field: &'static str) -> (r:
        DecodeResult<Self>) {
        proof {
            lemma_limits();
            lemma_be_value_bound(buf@.take(1));
        }
        Ok(<u8 as JceType>::read(buf, t, struct_name, field)? != 0)
    }

    fn write(&self, buf: &mut Vec<u8>, tag: u8) {
        let byte: u8 = if *self {
            1
        } else {
            0
        };
        byte.write(buf, tag);
        assert(byte.tree().wire(tag) == self.tree().wire(tag));
    }

    proof fn lemma_sound() {
    }

    proof fn lemma_of_kind(&self) {
    }
}

/// A value that may be absent. Absent, it is a header with `EMPTY` and
/// nothing behind it; present, it is written as what it holds.
impl<T: JceType> JceType for Option<T> {
    open spec fn kind() -> Kind {
        Kind::Optional(Box::new(T::kind()))
    }

    open spec fn tree(&self) -> Tree {
        match self {
            Some(v) => Tree::Optional(Some(Box::new(v.tree()))),
            None => Tree::Optional(None),
        }
    }

    fn read(buf: &mut &[u8], t: u8, struct_name: &'static str, field: &'static str) -> (r:
        DecodeResult<Self>) {
        Ok(
            if t != EMPTY {
                Some(T::read(buf, t, struct_name, field)?)
            } else {
                None
            },
        )
    }

    fn write(&self, buf: &mut Vec<u8>, tag: u8) {
        if let Some(t) = self {
            t.write(buf, tag);
        } else {
            write_empty(buf, tag);
        }
    }

    proof fn lemma_sound() {
        T::lemma_sound();
    }

    proof fn lemma_of_kind(&self) {
        if let Some(v) = self {
            v.lemma_of_kind();
        }
    }
}

/// `core::str::from_utf8`: the bytes as a string slice where they are
/// UTF-8, and the standard library's error where they are not. The string
/// has the bytes it was made of.
#[verifier::external_body]
fn str_from_utf8(bytes: &[u8]) -> (r: Result<&str, core::str::Utf8Error>)
    ensures
        r is Ok <==> valid_utf8(bytes@),
        r matches Ok(s) ==> s.spec_bytes() == bytes@,
{
    core::str::from_utf8(bytes)
}

/// Reads bytes that are to be a string: the string, or `String` with the
/// standard library's account where the bytes are not UTF-8.
pub fn read_utf8(bytes: &[u8]) -> (r: DecodeResult<String>)
    ensures
        valid_utf8(bytes@) ==> (r matches Ok(s) && s@ == decode_utf8(bytes@)),
        !valid_utf8(bytes@) ==> (r matches Err(e) && e@ == Failure::String),
{
    match str_from_utf8(bytes) {
        Ok(s) => {
            proof {
                encode_utf8_decode_utf8(s@);
            }
            Ok(s.to_owned())
        },
        Err(e) => Err(DecodeError::String(e)),
    }
}

/// Reads `count` bytes that stand as the elements of a list, each behind
/// a byte with its type code.
fn read_byte_items(
    buf: &mut &[u8],
    count: usize,
    struct_name: &'static str,
    field: &'static str,
) -> (r: DecodeResult<Vec<u8>>)
    ensures
        match parse_byte_items(old(buf)@, count as nat, Seq::empty(), struct_name, field) {
            Parsed::Done(b, rest) => r matches Ok(v) && v@ == b && final(buf)@ == rest,
            Parsed::Fail(f) => r matches Err(e) && e@ == f,
        },
{
    let mut v: Vec<u8> = Vec::new();
    let mut i: usize = 0;
    while i < count
        invariant
            i <= count,
            parse_byte_items(old(buf)@, count as nat, Seq::empty(), struct_name, field)
                == parse_byte_items(buf@, (count - i) as nat, v@, struct_name, field),
        decreases count - i,
    {
        let t = read_type(buf)?;
        check_type(t, BYTE, struct_name, field)?;
        check_buf_zero(buf)?;
        v.push(get_u8(buf));
        i = i + 1;
    }
    Ok(v)
}

/// A byte sequence. It is written behind its length; it is read from any
/// of the forms that writers give it.
impl JceType for Vec<u8> {
    open spec fn kind() -> Kind {
        Kind::Bytes
    }

    open spec fn tree(&self) -> Tree {
        Tree::Bytes(self@)
    }

    fn read(buf: &mut &[u8], t: u8, struct_name: &'static str, field: &'static str) -> (r:
        DecodeResult<Self>) {
        if t == LIST {
            let len = read_len(buf)?;
            return read_byte_items(buf, len, struct_name, field);
        }
        let len = read_bytes_len(buf, t, struct_name, field)?;
        check_buf(buf, len)?;
        let ghost front = buf@.take(len as int);
        let mut v = vec![0u8; len];
        read_slice(buf, v.as_mut_slice(), len)?;
        assert(v@ =~= front);
        Ok(v)
    }

    fn write(&self, buf: &mut Vec<u8>, tag: u8) {
        assert(self.tree() == Tree::Bytes(self@));
        assert(Tree::Bytes(self@).writable());
        assert(self@.len() <= u32::MAX);
        write_slice(buf, self.as_slice(), tag);
    }

    proof fn lemma_sound() {
    }

    proof fn lemma_of_kind(&self) {
    }
}

/// A string: its bytes in UTF-8, written and read as a byte sequence.
impl JceType for String {
    open spec fn kind() -> Kind {
        Kind::Str
    }

    open spec fn tree(&self) -> Tree {
        Tree::Str(self@)
    }

    fn read(buf: &mut &[u8], t: u8, struct_name: &'static str, field: &'static str) -> (r:
        DecodeResult<Self>) {
        let vec = <Vec<u8> as JceType>::read(buf, t, struct_name, field)?;
        read_utf8(vec.as_slice())
    }

    fn write(&self, buf: &mut Vec<u8>, tag: u8) {
        assert(self.tree() == Tree::Str(self@));
        assert(Tree::Str(self@).writable());
        write_slice(buf, self.as_str().as_bytes(), tag);
    }

    proof fn lemma_sound() {
    }

    proof fn lemma_of_kind(&self) {
    }
}

/// A byte sequence of exactly `N` bytes. A length other than `N` fails
/// with `InvalidLength`; the form of a list of single bytes is not read.
impl<const N: usize> JceType for [u8; N] {
    open spec fn kind() -> Kind {
        Kind::FixedBytes(N)
    }

    open spec fn tree(&self) -> Tree {
        Tree::Bytes(self@)
    }

    fn read(buf: &mut &[u8], t: u8, struct_name: &'static str, field: &'static str) -> (r:
        DecodeResult<Self>) {
        let len = read_bytes_len(buf, t, struct_name, field)?;
        if len != N {
            return Err(DecodeError::InvalidLength);
        }
        let mut arr = [0u8; N];
        read_slice(buf, &mut arr, N)?;
        Ok(arr)
    }

    fn write(&self, buf: &mut Vec<u8>, tag: u8) {
        write_slice(buf, self.as_slice(), tag);
    }

    proof fn lemma_sound() {
    }

    proof fn lemma_of_kind(&self) {
    }
}

/// The byte container of the `bytes` crate. Nothing inside it is visible
/// here; what it holds goes by the name `bytes_held`.
#[verifier::external_type_specification]
#[verifier::external_body]
pub struct ExBytes(bytes::Bytes);

/// The bytes that a `Bytes` holds, first to last.
pub uninterp spec fn bytes_held(b: bytes::Bytes) -> Seq<u8>;

/// `Bytes::from` on a `Vec<u8>`: the container that takes over the vector
/// holds the bytes of the vector.
#[verifier::external_body]
fn bytes_from_vec(v: Vec<u8>) -> (b: bytes::Bytes)
    ensures
        bytes_held(b) == v@,
{
    bytes::Bytes::from(v)
}

/// `Bytes::as_ref`: the slice that a container gives out is made of the
/// bytes that it holds.
#[verifier::external_body]
fn bytes_as_slice(b: &bytes::Bytes) -> (s: &[u8])
    ensures
        s@ == bytes_held(*b),
{
    b.as_ref()
}

/// A byte sequence in the container of the `bytes` crate, written and read
/// as any byte sequence.
impl JceType for bytes::Bytes {
    open spec fn kind() -> Kind {
        Kind::Bytes
    }

    open spec fn tree(&self) -> Tree {
        Tree::Bytes(bytes_held(*self))
    }

    fn read(buf: &mut &[u8], t: u8, struct_name: &'static str, field: &'static str) -> (r:
        DecodeResult<Self>) {
        let v = <Vec<u8> as JceType>::read(buf, t, struct_name, field)?;
        Ok(bytes_from_vec(v))
    }

    fn write(&self, buf: &mut Vec<u8>, tag: u8) {
        assert(self.tree() == Tree::Bytes(bytes_held(*self)));
        assert(Tree::Bytes(bytes_held(*self)).writable());
        write_slice(buf, bytes_as_slice(self), tag);
    }

    proof fn lemma_sound() {
    }

    proof fn lemma_of_kind(&self) {
    }
}

/// The types whose values travel as the elements of a list. A `u8` is
/// none of them: a vector of bytes is a byte sequence.
pub trait ListItem: JceType {

}

impl ListItem for i8 {

}

impl ListItem for i16 {

}

impl ListItem for u16 {

}

impl ListItem for i32 {

}

impl ListItem for u32 {

}

impl ListItem for i64 {

}

impl ListItem for u64 {

}

/// The first `n` of `items` as contracts speak of them.
pub open spec fn item_trees<T: JceType>(items: Seq<T>, n: nat) -> Seq<Tree>
    decreases n,
{
    if n == 0 || n > items.len() {
        Seq::empty()
    } else {
        item_trees(items, (n - 1) as nat).push(items[n - 1].tree())
    }
}

/// The trees of items are as many as they are, and hold the tree of each.
pub proof fn lemma_item_trees<T: JceType>(items: Seq<T>, n: nat)
    requires
        n <= items.len(),
    ensures
        item_trees(items, n).len() == n,
        forall|i: int| 0 <= i < n ==> #[trigger] item_trees(items, n)[i] == items[i].tree(),
    decreases n,
{
    if n > 0 {
        lemma_item_trees(items, (n - 1) as nat);
    }
}

/// A list: the count of its elements, then each element behind a byte
/// with its type code.
impl<T: ListItem> JceType for Vec<T> {
    open spec fn kind() -> Kind {
        Kind::List(Box::new(T::kind()))
    }

    open spec fn tree(&self) -> Tree {
        Tree::List(item_trees(self@, self@.len()))
    }

    fn read(buf: &mut &[u8], t: u8, struct_name: &'static str, field: &'static str) -> (r:
        DecodeResult<Self>) {
        check_type(t, LIST, struct_name, field)?;
        let len = read_len(buf)?;
        let mut v: Vec<T> = Vec::new();
        let ghost start = buf@;
        let mut i: usize = 0;
        while i < len
            invariant
                i <= len,
                Self::kind().parse_items(start, len as nat, Seq::empty(), struct_name, field)
                    == Self::kind().parse_items(
                    buf@,
                    (len - i) as nat,
                    item_trees(v@, v@.len()),
                    struct_name,
                    field,
                ),
                Self::kind().parse(old(buf)@, t, struct_name, field)
                    == match Self::kind().parse_items(
                    start,
                    len as nat,
                    Seq::empty(),
                    struct_name,
                    field,
                ) {
                    Parsed::Fail(f) => Parsed::Fail(f),
                    Parsed::Done(items, rest) => Parsed::Done(Tree::List(items), rest),
                },
            decreases len - i,
        {
            let tt = read_type(buf)?;
            let item = T::read(buf, tt, struct_name, field)?;
            let ghost before = v@;
            v.push(item);
            proof {
                lemma_item_trees(before, before.len());
                lemma_item_trees(v@, before.len());
                assert(item_trees(v@, before.len()) =~= item_trees(before, before.len()));
            }
            i = i + 1;
        }
        Ok(v)
    }

    fn write(&self, buf: &mut Vec<u8>, tag: u8) {
        write_header(buf, JceHeader { val_type: LIST, tag });
        write_len(buf, self.len());
        let ghost trees = item_trees(self@, self@.len());
        let ghost front = buf@;
        proof {
            lemma_item_trees(self@, self@.len());
            assert(self.tree() == Tree::List(trees));
            assert(Tree::List(trees).writable());
            lemma_writable_items(trees, trees.len());
        }
        let mut i: usize = 0;
        while i < self.len()
            invariant
                i <= self.len(),
                trees.len() == self@.len(),
                forall|j: int| 0 <= j < trees.len() ==> #[trigger] trees[j] == self@[j].tree(),
                forall|j: int| 0 <= j < trees.len() ==> (#[trigger] trees[j]).writable(),
                buf@ == front + wire_items(trees, 0, i as int),
            decreases self.len() - i,
        {
            proof {
                assert(trees[i as int].writable());
            }
            self[i].write(buf, 0);
            i = i + 1;
        }
        assert(buf@ =~= old(buf)@ + self.tree().wire(tag));
    }

    proof fn lemma_sound() {
        T::lemma_sound();
    }

    proof fn lemma_of_kind(&self) {
        let trees = item_trees(self@, self@.len());
        lemma_item_trees(self@, self@.len());
        assert forall|i: int| 0 <= i < trees.len() implies T::kind().admits(
            #[trigger] trees[i],
        ) by {
            self@[i].lemma_of_kind();
        }
        lemma_admits_items(Self::kind(), trees, trees.len());
    }
}

/// The first `n` of `pairs` as contracts speak of them.
pub open spec fn pair_trees<K: JceType, V: JceType>(pairs: Seq<(K, V)>, n: nat) -> Seq<
    (Tree, Tree),
>
    decreases n,
{
    if n == 0 || n > pairs.len() {
        Seq::empty()
    } else {
        pair_trees(pairs, (n - 1) as nat).push((pairs[n - 1].0.tree(), pairs[n - 1].1.tree()))
    }
}

/// The trees of pairs are as many as they are, and hold the trees of each.
pub proof fn lemma_pair_trees<K: JceType, V: JceType>(pairs: Seq<(K, V)>, n: nat)
    requires
        n <= pairs.len(),
    ensures
        pair_trees(pairs, n).len() == n,
        forall|i: int|
            0 <= i < n ==> #[trigger] pair_trees(pairs, n)[i] == (
                pairs[i].0.tree(),
                pairs[i].1.tree(),
            ),
    decreases n,
{
    if n > 0 {
        lemma_pair_trees(pairs, (n - 1) as nat);
    }
}

/// A map, held as its entries in the order in which they travel: their
/// count, then for each entry the key at tag 0 and the value at tag 1.
impl<K: JceType, V: JceType> JceType for Vec<(K, V)> {
    open spec fn kind() -> Kind {
        Kind::Pairs(Box::new(K::kind()), Box::new(V::kind()))
    }

    open spec fn tree(&self) -> Tree {
        Tree::Pairs(pair_trees(self@, self@.len()))
    }

    fn read(buf: &mut &[u8], t: u8, struct_name: &'static str, field: &'static str) -> (r:
        DecodeResult<Self>) {
        check_type(t, MAP, struct_name, field)?;
        let len = read_len(buf)?;
        let mut map: Vec<(K, V)> = Vec::new();
        let ghost start = buf@;
        let mut i: usize = 0;
        while i < len
            invariant
                i <= len,
                Self::kind().parse_pairs(start, len as nat, Seq::empty(), struct_name, field)
                    == Self::kind().parse_pairs(
                    buf@,
                    (len - i) as nat,
                    pair_trees(map@, map@.len()),
                    struct_name,
                    field,
                ),
                Self::kind().parse(old(buf)@, t, struct_name, field)
                    == match Self::kind().parse_pairs(
                    start,
                    len as nat,
                    Seq::empty(),
                    struct_name,
                    field,
                ) {
                    Parsed::Fail(f) => Parsed::Fail(f),
                    Parsed::Done(pairs, rest) => Parsed::Done(Tree::Pairs(pairs), rest),
                },
            decreases len - i,
        {
            let kt = read_type(buf)?;
            let k = K::read(buf, kt, struct_name, field)?;
            let vt = read_type(buf)?;
            let v = V::read(buf, vt, struct_name, field)?;
            let ghost before = map@;
            map.push((k, v));
            proof {
                lemma_pair_trees(before, before.len());
                lemma_pair_trees(map@, before.len());
                assert(pair_trees(map@, before.len()) =~= pair_trees(before, before.len()));
            }
            i = i + 1;
        }
        Ok(map)
    }

    fn write(&self, buf: &mut Vec<u8>, tag: u8) {
        write_header(buf, JceHeader { val_type: MAP, tag });
        write_len(buf, self.len());
        let ghost trees = pair_trees(self@, self@.len());
        let ghost front = buf@;
        proof {
            lemma_pair_trees(self@, self@.len());
            assert(self.tree() == Tree::Pairs(trees));
            assert(Tree::Pairs(trees).writable());
            lemma_writable_pairs(trees, trees.len());
        }
        let mut i: usize = 0;
        while i < self.len()
            invariant
                i <= self.len(),
                trees.len() == self@.len(),
                forall|j: int|
                    0 <= j < trees.len() ==> #[trigger] trees[j] == (
                        self@[j].0.tree(),
                        self@[j].1.tree(),
                    ),
                forall|j: int|
                    0 <= j < trees.len() ==> (#[trigger] trees[j]).0.writable()
                        && trees[j].1.writable(),
                buf@ == front + wire_pairs(trees, 0, i as int),
            decreases self.len() - i,
        {
            proof {
                assert(trees[i as int].0.writable());
            }
            self[i].0.write(buf, 0);
            self[i].1.write(buf, 1);
            i = i + 1;
        }
        assert(buf@ =~= old(buf)@ + self.tree().wire(tag));
    }

    proof fn lemma_sound() {
        K::lemma_sound();
        V::lemma_sound();
    }

    proof fn lemma_of_kind(&self) {
        let trees = pair_trees(self@, self@.len());
        lemma_pair_trees(self@, self@.len());
        assert forall|i: int| 0 <= i < trees.len() implies K::kind().admits(
            (#[trigger] trees[i]).0,
        ) && V::kind().admits(trees[i].1) by {
            self@[i].0.lemma_of_kind();
            self@[i].1.lemma_of_kind();
        }
        lemma_admits_pairs(Self::kind(), trees, trees.len());
    }
}

} // verus!
