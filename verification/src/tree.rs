//! Values as contracts speak of them, and the bytes that stand for them.

use vstd::prelude::*;
use vstd::utf8::encode_utf8;
use crate::cursor::be_bytes;
use crate::ser::{header_bytes, len_prefix};
use crate::types::{
    BYTE, DOUBLE, EMPTY, FLOAT, INT, LIST, LONG, LONG_BYTES, MAP, SHORT, SHORT_BYTES, STRUCT_END,
    STRUCT_START,
};

verus! {

/// A value of the format. A floating-point number is held by its bits, a
/// structure by its fields in the order in which they are written, each
/// with its tag.
pub enum Tree {
    I8(i8),
    U8(u8),
    I16(i16),
    U16(u16),
    I32(i32),
    U32(u32),
    I64(i64),
    U64(u64),
    Float(u32),
    Double(u64),
    Bool(bool),
    Bytes(Seq<u8>),
    Str(Seq<char>),
    List(Seq<Tree>),
    Pairs(Seq<(Tree, Tree)>),
    Optional(Option<Box<Tree>>),
    Struct(Seq<(u8, Tree)>),
}

impl Tree {
    /// Whether the value is a number or a truth value: what has a fixed width.
    pub open spec fn is_scalar(self) -> bool {
        !(self is Bytes || self is Str || self is List || self is Pairs || self is Optional
            || self is Struct)
    }

    /// The bytes of a scalar as one unsigned number; a negative integer
    /// counts by its two's complement, `true` as 1.
    pub open spec fn bits(self) -> nat {
        match self {
            Tree::I8(v) => (v as u8) as nat,
            Tree::U8(v) => v as nat,
            Tree::I16(v) => (v as u16) as nat,
            Tree::U16(v) => v as nat,
            Tree::I32(v) => (v as u32) as nat,
            Tree::U32(v) => v as nat,
            Tree::I64(v) => (v as u64) as nat,
            Tree::U64(v) => v as nat,
            Tree::Float(v) => v as nat,
            Tree::Double(v) => v as nat,
            Tree::Bool(v) => if v {
                1
            } else {
                0
            },
            _ => 0,
        }
    }

    /// The width of a scalar in bytes.
    pub open spec fn width(self) -> nat {
        match self {
            Tree::I8(_) | Tree::U8(_) | Tree::Bool(_) => 1,
            Tree::I16(_) | Tree::U16(_) => 2,
            Tree::I32(_) | Tree::U32(_) | Tree::Float(_) => 4,
            _ => 8,
        }
    }

    /// The type code in the header of the value. An absent optional value
    /// has `EMPTY`, a present one the type code of what it holds.
    pub open spec fn type_code(self) -> u8
        decreases self,
    {
        match self {
            Tree::I8(_) | Tree::U8(_) | Tree::Bool(_) => BYTE,
            Tree::I16(_) | Tree::U16(_) => SHORT,
            Tree::I32(_) | Tree::U32(_) => INT,
            Tree::I64(_) | Tree::U64(_) => LONG,
            Tree::Float(_) => FLOAT,
            Tree::Double(_) => DOUBLE,
            Tree::Bytes(b) => bytes_code(b.len()),
            Tree::Str(s) => bytes_code(encode_utf8(s).len()),
            Tree::List(_) => LIST,
            Tree::Pairs(_) => MAP,
            Tree::Optional(None) => EMPTY,
            Tree::Optional(Some(v)) => v.type_code(),
            Tree::Struct(_) => STRUCT_START,
        }
    }

    /// The bytes behind the header.
    pub open spec fn payload(self) -> Seq<u8>
        decreases self, 0nat,
    {
        match self {
            Tree::Bytes(b) => bytes_payload(b),
            Tree::Str(s) => bytes_payload(encode_utf8(s)),
            Tree::List(items) => len_prefix(items.len()) + wire_items(items, 0, items.len() as int),
            Tree::Pairs(pairs) => len_prefix(pairs.len()) + wire_pairs(
                pairs,
                0,
                pairs.len() as int,
            ),
            Tree::Optional(None) => Seq::empty(),
            Tree::Optional(Some(v)) => v.payload(),
            Tree::Struct(fields) => wire_fields(fields, 0, fields.len() as int) + seq![STRUCT_END],
            _ => be_bytes(self.bits(), self.width()),
        }
    }

    /// The value on the wire at `tag`: header and payload.
    pub open spec fn wire(self, tag: u8) -> Seq<u8> {
        framed(tag, self.type_code(), self.payload())
    }

    /// The value as it comes back from the wire. It is the value itself,
    /// but that a present optional value whose content is written as absent
    /// comes back absent.
    pub open spec fn normal(self) -> Tree
        decreases self, 0nat,
    {
        match self {
            Tree::List(items) => Tree::List(normal_items(items, items.len())),
            Tree::Pairs(pairs) => Tree::Pairs(normal_pairs(pairs, pairs.len())),
            Tree::Optional(Some(v)) => if v.type_code() == EMPTY {
                Tree::Optional(None)
            } else {
                Tree::Optional(Some(Box::new(v.normal())))
            },
            Tree::Struct(fields) => Tree::Struct(normal_fields(fields, fields.len())),
            _ => self,
        }
    }

    /// Whether the last byte of the value is the end marker of a structure.
    pub open spec fn ends_in_struct(self) -> bool
        decreases self,
    {
        match self {
            Tree::List(items) => items.len() > 0 && items.last().ends_in_struct(),
            Tree::Pairs(pairs) => pairs.len() > 0 && pairs.last().1.ends_in_struct(),
            Tree::Optional(Some(v)) => v.ends_in_struct(),
            Tree::Struct(_) => true,
            _ => false,
        }
    }

    /// Whether the value holds no structure that has fields.
    pub open spec fn plain(self) -> bool
        decreases self, 0nat,
    {
        match self {
            Tree::List(items) => plain_items(items, items.len()),
            Tree::Pairs(pairs) => plain_pairs(pairs, pairs.len()),
            Tree::Optional(Some(v)) => v.plain(),
            Tree::Struct(fields) => fields.len() == 0,
            _ => true,
        }
    }

    /// Whether the value can be written: no byte sequence in it, and no
    /// string in its UTF-8 form, is longer than four bytes of length can
    /// say, and no list or map has more entries than a `usize` counts.
    pub open spec fn writable(self) -> bool
        decreases self, 0nat,
    {
        match self {
            Tree::Bytes(b) => b.len() <= u32::MAX,
            Tree::Str(s) => encode_utf8(s).len() <= u32::MAX,
            Tree::List(items) => items.len() <= usize::MAX && writable_items(items, items.len()),
            Tree::Pairs(pairs) => pairs.len() <= usize::MAX && writable_pairs(pairs, pairs.len()),
            Tree::Optional(None) => true,
            Tree::Optional(Some(v)) => v.writable(),
            Tree::Struct(fields) => writable_fields(fields, fields.len()),
            _ => true,
        }
    }
}

/// The first `n` of `items` as they come back from the wire.
pub open spec fn normal_items(items: Seq<Tree>, n: nat) -> Seq<Tree>
    decreases items, n,
{
    if n == 0 || n > items.len() {
        Seq::empty()
    } else {
        normal_items(items, (n - 1) as nat).push(items[n - 1].normal())
    }
}

/// The first `n` of `pairs` as they come back from the wire.
pub open spec fn normal_pairs(pairs: Seq<(Tree, Tree)>, n: nat) -> Seq<(Tree, Tree)>
    decreases pairs, n,
{
    if n == 0 || n > pairs.len() {
        Seq::empty()
    } else {
        normal_pairs(pairs, (n - 1) as nat).push((pairs[n - 1].0.normal(), pairs[n - 1].1.normal()))
    }
}

/// The first `n` of `fields` as they come back from the wire.
pub open spec fn normal_fields(fields: Seq<(u8, Tree)>, n: nat) -> Seq<(u8, Tree)>
    decreases fields, n,
{
    if n == 0 || n > fields.len() {
        Seq::empty()
    } else {
        normal_fields(fields, (n - 1) as nat).push((fields[n - 1].0, fields[n - 1].1.normal()))
    }
}

/// Whether the first `n` of `items` hold no structure that has fields.
pub open spec fn plain_items(items: Seq<Tree>, n: nat) -> bool
    decreases items, n,
{
    if n == 0 || n > items.len() {
        true
    } else {
        plain_items(items, (n - 1) as nat) && items[n - 1].plain()
    }
}

/// Whether the first `n` of `pairs` hold no structure that has fields.
pub open spec fn plain_pairs(pairs: Seq<(Tree, Tree)>, n: nat) -> bool
    decreases pairs, n,
{
    if n == 0 || n > pairs.len() {
        true
    } else {
        plain_pairs(pairs, (n - 1) as nat) && pairs[n - 1].0.plain() && pairs[n - 1].1.plain()
    }
}

/// Items are plain where each of them is.
pub proof fn lemma_plain_items(items: Seq<Tree>, n: nat)
    requires
        n <= items.len(),
    ensures
        plain_items(items, n) <==> forall|i: int| 0 <= i < n ==> (#[trigger] items[i]).plain(),
    decreases n,
{
    if n > 0 {
        lemma_plain_items(items, (n - 1) as nat);
    }
}

/// Pairs are plain where each key and each value is.
pub proof fn lemma_plain_pairs(pairs: Seq<(Tree, Tree)>, n: nat)
    requires
        n <= pairs.len(),
    ensures
        plain_pairs(pairs, n) <==> forall|i: int|
            0 <= i < n ==> (#[trigger] pairs[i]).0.plain() && pairs[i].1.plain(),
    decreases n,
{
    if n > 0 {
        lemma_plain_pairs(pairs, (n - 1) as nat);
    }
}

/// Whether the first `n` of `items` can be written.
pub open spec fn writable_items(items: Seq<Tree>, n: nat) -> bool
    decreases items, n,
{
    if n == 0 || n > items.len() {
        true
    } else {
        writable_items(items, (n - 1) as nat) && items[n - 1].writable()
    }
}

/// Whether the first `n` of `pairs` can be written, keys and values.
pub open spec fn writable_pairs(pairs: Seq<(Tree, Tree)>, n: nat) -> bool
    decreases pairs, n,
{
    if n == 0 || n > pairs.len() {
        true
    } else {
        writable_pairs(pairs, (n - 1) as nat) && pairs[n - 1].0.writable()
            && pairs[n - 1].1.writable()
    }
}

/// Whether the values of the first `n` of `fields` can be written.
pub open spec fn writable_fields(fields: Seq<(u8, Tree)>, n: nat) -> bool
    decreases fields, n,
{
    if n == 0 || n > fields.len() {
        true
    } else {
        writable_fields(fields, (n - 1) as nat) && fields[n - 1].1.writable()
    }
}

/// Items can be written where each of them can.
pub proof fn lemma_writable_items(items: Seq<Tree>, n: nat)
    requires
        n <= items.len(),
    ensures
        writable_items(items, n) <==> forall|i: int|
            0 <= i < n ==> (#[trigger] items[i]).writable(),
    decreases n,
{
    if n > 0 {
        lemma_writable_items(items, (n - 1) as nat);
    }
}

/// Pairs can be written where each key and each value can.
pub proof fn lemma_writable_pairs(pairs: Seq<(Tree, Tree)>, n: nat)
    requires
        n <= pairs.len(),
    ensures
        writable_pairs(pairs, n) <==> forall|i: int|
            0 <= i < n ==> (#[trigger] pairs[i]).0.writable() && pairs[i].1.writable(),
    decreases n,
{
    if n > 0 {
        lemma_writable_pairs(pairs, (n - 1) as nat);
    }
}

/// Fields can be written where each value can.
pub proof fn lemma_writable_fields(fields: Seq<(u8, Tree)>, n: nat)
    requires
        n <= fields.len(),
    ensures
        writable_fields(fields, n) <==> forall|i: int|
            0 <= i < n ==> (#[trigger] fields[i]).1.writable(),
    decreases n,
{
    if n > 0 {
        lemma_writable_fields(fields, (n - 1) as nat);
    }
}

/// A payload behind the header with `tag` and type code `code`.
pub open spec fn framed(tag: u8, code: u8, payload: Seq<u8>) -> Seq<u8> {
    header_bytes(tag, code) + payload
}

/// The type code of a byte sequence of `len` bytes.
pub open spec fn bytes_code(len: nat) -> u8 {
    if len <= 0xFF {
        SHORT_BYTES
    } else {
        LONG_BYTES
    }
}

/// A byte sequence behind its length: one byte of length up to 255 bytes,
/// four bytes above.
pub open spec fn bytes_payload(b: Seq<u8>) -> Seq<u8> {
    if b.len() <= 0xFF {
        seq![b.len() as u8] + b
    } else {
        be_bytes(b.len(), 4) + b
    }
}

/// The elements of a list from index `lo` up to `hi` on the wire, each at tag 0.
pub open spec fn wire_items(items: Seq<Tree>, lo: int, hi: int) -> Seq<u8>
    decreases items, hi - lo,
{
    if hi <= lo || lo < 0 || hi > items.len() {
        Seq::empty()
    } else {
        wire_items(items, lo, hi - 1) + framed(
            0,
            items[hi - 1].type_code(),
            items[hi - 1].payload(),
        )
    }
}

/// The pairs of a map from index `lo` up to `hi` on the wire: each key at
/// tag 0, each value at tag 1.
pub open spec fn wire_pairs(pairs: Seq<(Tree, Tree)>, lo: int, hi: int) -> Seq<u8>
    decreases pairs, hi - lo,
{
    if hi <= lo || lo < 0 || hi > pairs.len() {
        Seq::empty()
    } else {
        wire_pairs(pairs, lo, hi - 1) + framed(
            0,
            pairs[hi - 1].0.type_code(),
            pairs[hi - 1].0.payload(),
        ) + framed(1, pairs[hi - 1].1.type_code(), pairs[hi - 1].1.payload())
    }
}

/// All fields of a structure on the wire, each at its tag, in their order.
pub open spec fn wire_struct(fields: Seq<(u8, Tree)>) -> Seq<u8> {
    wire_fields(fields, 0, fields.len() as int)
}

/// The fields of a structure from index `lo` up to `hi` on the wire, each at its tag.
pub open spec fn wire_fields(fields: Seq<(u8, Tree)>, lo: int, hi: int) -> Seq<u8>
    decreases fields, hi - lo,
{
    if hi <= lo || lo < 0 || hi > fields.len() {
        Seq::empty()
    } else {
        wire_fields(fields, lo, hi - 1) + framed(
            fields[hi - 1].0,
            fields[hi - 1].1.type_code(),
            fields[hi - 1].1.payload(),
        )
    }
}

/// The fields as they come back are as many, each with its tag and its
/// value as it comes back.
pub proof fn lemma_normal_fields(fields: Seq<(u8, Tree)>, n: nat)
    requires
        n <= fields.len(),
    ensures
        normal_fields(fields, n).len() == n,
        forall|i: int|
            0 <= i < n ==> #[trigger] normal_fields(fields, n)[i] == (
                fields[i].0,
                fields[i].1.normal(),
            ),
    decreases n,
{
    if n > 0 {
        lemma_normal_fields(fields, (n - 1) as nat);
    }
}

/// A value that is written as absent has no payload.
pub proof fn lemma_absent_payload(tree: Tree)
    requires
        tree.type_code() == EMPTY,
    ensures
        tree.payload() == Seq::<u8>::empty(),
    decreases tree,
{
    if let Tree::Optional(Some(v)) = tree {
        lemma_absent_payload(*v);
    }
}

} // verus!
