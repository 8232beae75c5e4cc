//! Reading without a layout: whatever bytes hold, as a tree of values
//! that carry their own type.
//!
//! A reader of this kind knows integers, floating-point numbers, byte
//! sequences, lists, and maps whose keys are strings. A nested structure it
//! does not know: its start and end markers are type codes like any
//! unknown one, and fail.

use vstd::prelude::*;
use vstd::utf8::{decode_utf8, valid_utf8};
use std::collections::HashMap;
use crate::cursor::{be_value, get_be, get_u8, lemma_limits, take};
use crate::de::{check_buf, check_buf_zero, parse_header, parse_len, read_header, read_len, Parsed};
use crate::error::{DecodeError, DecodeResult, Failure};
use crate::typed::read_utf8;
use crate::types::{
    BYTE, DOUBLE, EMPTY, FLOAT, INT, LIST, LONG, LONG_BYTES, MAP, SHORT, SHORT_BYTES,
};

verus! {

/// A value that was read without a layout. A floating-point number is held
/// by its bits, a map by its entries in the order in which they were read.
#[derive(Debug, PartialEq)]
pub enum Value {
    Byte(i8),
    Short(i16),
    Int(i32),
    Long(i64),
    Float(u32),
    Double(u64),
    Bytes(Vec<u8>),
    Pairs(Vec<(String, Value)>),
    List(Vec<Value>),
    Empty,
}

/// A `Value` as contracts speak of it.
pub enum Shape {
    Byte(i8),
    Short(i16),
    Int(i32),
    Long(i64),
    Float(u32),
    Double(u64),
    Bytes(Seq<u8>),
    Pairs(Seq<(Seq<char>, Shape)>),
    List(Seq<Shape>),
    Empty,
}

impl Value {
    /// The value as contracts speak of it.
    pub open spec fn shape(&self) -> Shape
        decreases self,
    {
        match self {
            Value::Byte(v) => Shape::Byte(*v),
            Value::Short(v) => Shape::Short(*v),
            Value::Int(v) => Shape::Int(*v),
            Value::Long(v) => Shape::Long(*v),
            Value::Float(v) => Shape::Float(*v),
            Value::Double(v) => Shape::Double(*v),
            Value::Bytes(v) => Shape::Bytes(v@),
            Value::Pairs(v) => Shape::Pairs(entries_shape(v@, v@.len())),
            Value::List(v) => Shape::List(values_shape(v@, v@.len())),
            Value::Empty => Shape::Empty,
        }
    }
}

impl View for Value {
    type V = Shape;

    open spec fn view(&self) -> Shape {
        self.shape()
    }
}

/// The first `n` of `values` as contracts speak of them.
pub open spec fn values_shape(values: Seq<Value>, n: nat) -> Seq<Shape>
    decreases values, n,
{
    if n == 0 || n > values.len() {
        Seq::empty()
    } else {
        values_shape(values, (n - 1) as nat).push(values[n - 1].shape())
    }
}

/// The first `n` of `entries` as contracts speak of them.
pub open spec fn entries_shape(entries: Seq<(String, Value)>, n: nat) -> Seq<(Seq<char>, Shape)>
    decreases entries, n,
{
    if n == 0 || n > entries.len() {
        Seq::empty()
    } else {
        entries_shape(entries, (n - 1) as nat).push((entries[n - 1].0@, entries[n - 1].1.shape()))
    }
}

/// The scalar, byte sequence, list, map or absent value that stands under
/// type code `t` at the front of `bytes`. An integer is taken as signed.
pub open spec fn parse_value(bytes: Seq<u8>, t: u8) -> Parsed<Shape>
    decreases bytes.len(), 2nat, 0nat,
{
    if t == BYTE {
        if bytes.len() < 1 {
            Parsed::Fail(Failure::Eof)
        } else {
            Parsed::Done(Shape::Byte(bytes[0] as i8), bytes.skip(1))
        }
    } else if t == SHORT {
        if bytes.len() < 2 {
            Parsed::Fail(Failure::Eof)
        } else {
            Parsed::Done(Shape::Short((be_value(bytes.take(2)) as u16) as i16), bytes.skip(2))
        }
    } else if t == INT {
        if bytes.len() < 4 {
            Parsed::Fail(Failure::Eof)
        } else {
            Parsed::Done(Shape::Int((be_value(bytes.take(4)) as u32) as i32), bytes.skip(4))
        }
    } else if t == LONG {
        if bytes.len() < 8 {
            Parsed::Fail(Failure::Eof)
        } else {
            Parsed::Done(Shape::Long((be_value(bytes.take(8)) as u64) as i64), bytes.skip(8))
        }
    } else if t == FLOAT {
        if bytes.len() < 4 {
            Parsed::Fail(Failure::Eof)
        } else {
            Parsed::Done(Shape::Float(be_value(bytes.take(4)) as u32), bytes.skip(4))
        }
    } else if t == DOUBLE {
        if bytes.len() < 8 {
            Parsed::Fail(Failure::Eof)
        } else {
            Parsed::Done(Shape::Double(be_value(bytes.take(8)) as u64), bytes.skip(8))
        }
    } else if t == SHORT_BYTES {
        if bytes.len() < 1 {
            Parsed::Fail(Failure::Eof)
        } else if bytes.len() - 1 < bytes[0] {
            Parsed::Fail(Failure::Eof)
        } else {
            Parsed::Done(
                Shape::Bytes(bytes.subrange(1, 1 + bytes[0] as int)),
                bytes.skip(1 + bytes[0] as int),
            )
        }
    } else if t == LONG_BYTES {
        if bytes.len() < 4 {
            Parsed::Fail(Failure::Eof)
        } else if bytes.len() - 4 < be_value(bytes.take(4)) {
            Parsed::Fail(Failure::Eof)
        } else {
            Parsed::Done(
                Shape::Bytes(bytes.subrange(4, 4 + be_value(bytes.take(4)) as int)),
                bytes.skip(4 + be_value(bytes.take(4)) as int),
            )
        }
    } else if t == MAP {
        match parse_len(bytes) {
            Parsed::Fail(f) => Parsed::Fail(f),
            Parsed::Done(n, rest) => match parse_entries(rest, n as nat, Seq::empty()) {
                Parsed::Fail(f) => Parsed::Fail(f),
                Parsed::Done(entries, rest) => Parsed::Done(Shape::Pairs(entries), rest),
            },
        }
    } else if t == LIST {
        match parse_len(bytes) {
            Parsed::Fail(f) => Parsed::Fail(f),
            Parsed::Done(n, rest) => match parse_elems(rest, n as nat, Seq::empty()) {
                Parsed::Fail(f) => Parsed::Fail(f),
                Parsed::Done(values, rest) => Parsed::Done(Shape::List(values), rest),
            },
        }
    } else if t == EMPTY {
        Parsed::Done(Shape::Empty, bytes)
    } else {
        Parsed::Fail(Failure::InvalidType)
    }
}

/// The element at the front of `bytes`: a byte that holds its type code,
/// then the value.
pub open spec fn parse_elem(bytes: Seq<u8>) -> Parsed<Shape>
    decreases bytes.len(), 0nat, 0nat,
{
    if bytes.len() < 1 {
        Parsed::Fail(Failure::Eof)
    } else {
        parse_value(bytes.skip(1), bytes[0] & 0xF)
    }
}

/// `count` elements, added to `acc`. An element takes its type byte at
/// least, so that the test on the length never fails: it is there to show
/// that the definition ends.
pub open spec fn parse_elems(bytes: Seq<u8>, count: nat, acc: Seq<Shape>) -> Parsed<Seq<Shape>>
    decreases bytes.len(), 1nat, count,
{
    if count == 0 {
        Parsed::Done(acc, bytes)
    } else {
        match parse_elem(bytes) {
            Parsed::Fail(f) => Parsed::Fail(f),
            Parsed::Done(v, rest) => if rest.len() < bytes.len() {
                parse_elems(rest, (count - 1) as nat, acc.push(v))
            } else {
                Parsed::Fail(Failure::Eof)
            },
        }
    }
}

/// `count` entries of a map, added to `acc`. Key and value are read as
/// elements; then the key must be a byte sequence, or the entry fails with
/// `InvalidType`, and its bytes must be UTF-8, or it fails with `String`.
/// The tests on the length never fail, as for elements.
pub open spec fn parse_entries(bytes: Seq<u8>, count: nat, acc: Seq<(Seq<char>, Shape)>) -> Parsed<
    Seq<(Seq<char>, Shape)>,
>
    decreases bytes.len(), 1nat, count,
{
    if count == 0 {
        Parsed::Done(acc, bytes)
    } else {
        match parse_elem(bytes) {
            Parsed::Fail(f) => Parsed::Fail(f),
            Parsed::Done(key, rest) => if rest.len() < bytes.len() {
                match parse_elem(rest) {
                    Parsed::Fail(f) => Parsed::Fail(f),
                    Parsed::Done(value, rest) => if rest.len() < bytes.len() {
                        match key {
                            Shape::Bytes(b) => if valid_utf8(b) {
                                parse_entries(
                                    rest,
                                    (count - 1) as nat,
                                    acc.push((decode_utf8(b), value)),
                                )
                            } else {
                                Parsed::Fail(Failure::String)
                            },
                            _ => Parsed::Fail(Failure::InvalidType),
                        }
                    } else {
                        Parsed::Fail(Failure::Eof)
                    },
                }
            } else {
                Parsed::Fail(Failure::Eof)
            },
        }
    }
}

/// The values behind their headers up to the end of `bytes`, each entered
/// into `acc` under its tag; of two values under one tag the later stays.
pub open spec fn parse_tagged(bytes: Seq<u8>, acc: Map<u8, Shape>) -> Parsed<Map<u8, Shape>>
    decreases bytes.len(),
{
    if bytes.len() == 0 {
        Parsed::Done(acc, bytes)
    } else {
        match parse_header(bytes) {
            Parsed::Fail(f) => Parsed::Fail(f),
            Parsed::Done(header, rest) => match parse_value(rest, header.val_type) {
                Parsed::Fail(f) => Parsed::Fail(f),
                Parsed::Done(v, rest) => if rest.len() < bytes.len() {
                    parse_tagged(rest, acc.insert(header.tag, v))
                } else {
                    Parsed::Fail(Failure::Eof)
                },
            },
        }
    }
}

/// Reading a value never makes the buffer longer.
pub proof fn lemma_parse_value_shortens(bytes: Seq<u8>, t: u8)
    ensures
        parse_value(bytes, t) matches Parsed::Done(_, rest) ==> rest.len() <= bytes.len(),
    decreases bytes.len(), 2nat, 0nat,
{
    if t == MAP {
        if let Parsed::Done(n, rest) = parse_len(bytes) {
            lemma_parse_entries_shorten(rest, n as nat, Seq::empty());
        }
    } else if t == LIST {
        if let Parsed::Done(n, rest) = parse_len(bytes) {
            lemma_parse_elems_shorten(rest, n as nat, Seq::empty());
        }
    }
}

/// Reading an element takes one byte at least.
pub proof fn lemma_parse_elem_shortens(bytes: Seq<u8>)
    ensures
        parse_elem(bytes) matches Parsed::Done(_, rest) ==> rest.len() < bytes.len(),
    decreases bytes.len(), 0nat, 0nat,
{
    if bytes.len() >= 1 {
        lemma_parse_value_shortens(bytes.skip(1), bytes[0] & 0xF);
    }
}

/// Reading elements never makes the buffer longer.
pub proof fn lemma_parse_elems_shorten(bytes: Seq<u8>, count: nat, acc: Seq<Shape>)
    ensures
        parse_elems(bytes, count, acc) matches Parsed::Done(_, rest) ==> rest.len() <= bytes.len(),
    decreases bytes.len(), 1nat, count,
{
    if count > 0 {
        lemma_parse_elem_shortens(bytes);
        if let Parsed::Done(v, rest) = parse_elem(bytes) {
            lemma_parse_elems_shorten(rest, (count - 1) as nat, acc.push(v));
        }
    }
}

/// Reading the entries of a map never makes the buffer longer.
pub proof fn lemma_parse_entries_shorten(bytes: Seq<u8>, count: nat, acc: Seq<(Seq<char>, Shape)>)
    ensures
        parse_entries(bytes, count, acc) matches Parsed::Done(_, rest) ==> rest.len()
            <= bytes.len(),
    decreases bytes.len(), 1nat, count,
{
    if count > 0 {
        lemma_parse_elem_shortens(bytes);
        if let Parsed::Done(key, rest) = parse_elem(bytes) {
            lemma_parse_elem_shortens(rest);
            if let Parsed::Done(value, rest) = parse_elem(rest) {
                if let Shape::Bytes(b) = key {
                    if valid_utf8(b) {
                        lemma_parse_entries_shorten(
                            rest,
                            (count - 1) as nat,
                            acc.push((decode_utf8(b), value)),
                        );
                    }
                }
            }
        }
    }
}

/// The shapes of values are as many as they are, and hold the shape of each.
pub proof fn lemma_values_shape(values: Seq<Value>, n: nat)
    requires
        n <= values.len(),
    ensures
        values_shape(values, n).len() == n,
        forall|i: int| 0 <= i < n ==> #[trigger] values_shape(values, n)[i] == values[i]@,
    decreases n,
{
    if n > 0 {
        lemma_values_shape(values, (n - 1) as nat);
    }
}

/// The shapes of entries are as many as they are, and hold key and shape of each.
pub proof fn lemma_entries_shape(entries: Seq<(String, Value)>, n: nat)
    requires
        n <= entries.len(),
    ensures
        entries_shape(entries, n).len() == n,
        forall|i: int|
            0 <= i < n ==> #[trigger] entries_shape(entries, n)[i] == (
                entries[i].0@,
                entries[i].1@,
            ),
    decreases n,
{
    if n > 0 {
        lemma_entries_shape(entries, (n - 1) as nat);
    }
}

/// Reads the next `len` bytes into a vector of their own.
fn read_bytes(buf: &mut &[u8], len: usize) -> (r: DecodeResult<Vec<u8>>)
    ensures
        old(buf)@.len() < len ==> (r matches Err(e) && e@ == Failure::Eof),
        old(buf)@.len() >= len ==> (r matches Ok(v) && v@ == old(buf)@.take(len as int)
            && final(buf)@ == old(buf)@.skip(len as int)),
{
    check_buf(buf, len)?;
    Ok(vstd::slice::slice_to_vec(take(buf, len)))
}

/// Reads the value that stands under type code `t`.
fn read_value(buf: &mut &[u8], t: u8) -> (r: DecodeResult<Value>)
    ensures
        match parse_value(old(buf)@, t) {
            Parsed::Done(shape, rest) => r matches Ok(v) && v@ == shape && final(buf)@ == rest,
            Parsed::Fail(f) => r matches Err(e) && e@ == f,
        },
    decreases old(buf)@.len(), 2nat,
{
    proof {
        lemma_limits();
    }
    match t {
        BYTE => {
            check_buf(buf, 1)?;
            Ok(Value::Byte(get_u8(buf) as i8))
        },
        SHORT => {
            check_buf(buf, 2)?;
            Ok(Value::Short(get_be(buf, 2) as u16 as i16))
        },
        INT => {
            check_buf(buf, 4)?;
            Ok(Value::Int(get_be(buf, 4) as u32 as i32))
        },
        LONG => {
            check_buf(buf, 8)?;
            Ok(Value::Long(get_be(buf, 8) as i64))
        },
        FLOAT => {
            check_buf(buf, 4)?;
            Ok(Value::Float(get_be(buf, 4) as u32))
        },
        DOUBLE => {
            check_buf(buf, 8)?;
            Ok(Value::Double(get_be(buf, 8)))
        },
        SHORT_BYTES => {
            check_buf_zero(buf)?;
            let len = get_u8(buf) as usize;
            let v = read_bytes(buf, len)?;
            proof {
                assert(v@ =~= old(buf)@.subrange(1, 1 + len));
                assert(buf@ =~= old(buf)@.skip(1 + len));
            }
            Ok(Value::Bytes(v))
        },
        LONG_BYTES => {
            check_buf(buf, 4)?;
            let len = get_be(buf, 4) as usize;
            let v = read_bytes(buf, len)?;
            proof {
                assert(v@ =~= old(buf)@.subrange(4, 4 + len));
                assert(buf@ =~= old(buf)@.skip(4 + len));
            }
            Ok(Value::Bytes(v))
        },
        MAP => {
            let len = read_len(buf)?;
            Ok(Value::Pairs(read_entries(buf, len)?))
        },
        LIST => {
            let len = read_len(buf)?;
            Ok(Value::List(read_elems(buf, len)?))
        },
        EMPTY => Ok(Value::Empty),
        _ => Err(DecodeError::InvalidType),
    }
}

/// Reads one element: the byte with its type code, and its value.
pub fn read_elem(buf: &mut &[u8]) -> (r: DecodeResult<Value>)
    ensures
        match parse_elem(old(buf)@) {
            Parsed::Done(shape, rest) => r matches Ok(v) && v@ == shape && final(buf)@ == rest,
            Parsed::Fail(f) => r matches Err(e) && e@ == f,
        },
    decreases old(buf)@.len(), 0nat,
{
    check_buf_zero(buf)?;
    let t = get_u8(buf) & 0xF;
    read_value(buf, t)
}

/// Reads `count` elements.
fn read_elems(buf: &mut &[u8], count: usize) -> (r: DecodeResult<Vec<Value>>)
    ensures
        match parse_elems(old(buf)@, count as nat, Seq::empty()) {
            Parsed::Done(shapes, rest) => r matches Ok(v) && values_shape(v@, v@.len()) == shapes
                && final(buf)@ == rest,
            Parsed::Fail(f) => r matches Err(e) && e@ == f,
        },
    decreases old(buf)@.len(), 1nat,
{
    let mut list: Vec<Value> = Vec::new();
    let mut i: usize = 0;
    while i < count
        invariant
            i <= count,
            buf@.len() <= old(buf)@.len(),
            parse_elems(old(buf)@, count as nat, Seq::empty()) == parse_elems(
                buf@,
                (count - i) as nat,
                values_shape(list@, list@.len()),
            ),
        decreases count - i,
    {
        proof {
            lemma_parse_elem_shortens(buf@);
        }
        let v = read_elem(buf)?;
        let ghost before = list@;
        list.push(v);
        proof {
            lemma_values_shape(before, before.len());
            lemma_values_shape(list@, before.len());
            assert(values_shape(list@, before.len()) =~= values_shape(before, before.len()));
        }
        i = i + 1;
    }
    Ok(list)
}

/// Reads `count` entries of a map.
fn read_entries(buf: &mut &[u8], count: usize) -> (r: DecodeResult<Vec<(String, Value)>>)
    ensures
        match parse_entries(old(buf)@, count as nat, Seq::empty()) {
            Parsed::Done(shapes, rest) => r matches Ok(v) && entries_shape(v@, v@.len())
                == shapes && final(buf)@ == rest,
            Parsed::Fail(f) => r matches Err(e) && e@ == f,
        },
    decreases old(buf)@.len(), 1nat,
{
    let mut map: Vec<(String, Value)> = Vec::new();
    let mut i: usize = 0;
    while i < count
        invariant
            i <= count,
            buf@.len() <= old(buf)@.len(),
            parse_entries(old(buf)@, count as nat, Seq::empty()) == parse_entries(
                buf@,
                (count - i) as nat,
                entries_shape(map@, map@.len()),
            ),
        decreases count - i,
    {
        let ghost bytes = buf@;
        proof {
            lemma_parse_elem_shortens(bytes);
        }
        let key = read_elem(buf)?;
        proof {
            lemma_parse_elem_shortens(buf@);
        }
        let value = read_elem(buf)?;
        let s = match key {
            Value::Bytes(b) => read_utf8(b.as_slice())?,
            _ => {
                return Err(DecodeError::InvalidType);
            },
        };
        let ghost before = map@;
        map.push((s, value));
        proof {
            lemma_entries_shape(before, before.len());
            lemma_entries_shape(map@, before.len());
            assert(entries_shape(map@, before.len()) =~= entries_shape(before, before.len()));
        }
        i = i + 1;
    }
    Ok(map)
}

/// Reads a buffer to its end as values behind their headers, and enters
/// each under its tag; of two values under one tag the later stays.
pub fn read_to_hashmap(buf: &[u8]) -> (r: DecodeResult<HashMap<u8, Value>>)
    ensures
        match parse_tagged(buf@, Map::empty()) {
            Parsed::Done(shapes, _) => r matches Ok(m) && m@.dom() == shapes.dom() && forall|
                tag: u8,
            | #[trigger]
                shapes.contains_key(tag) ==> m@[tag]@ == shapes[tag],
            Parsed::Fail(f) => r matches Err(e) && e@ == f,
        },
{
    broadcast use vstd::std_specs::hash::group_hash_axioms;

    let mut rest = buf;
    let mut map: HashMap<u8, Value> = HashMap::new();
    let ghost mut shapes: Map<u8, Shape> = Map::empty();
    while rest.len() > 0
        invariant
            parse_tagged(buf@, Map::empty()) == parse_tagged(rest@, shapes),
            map@.dom() == shapes.dom(),
            forall|tag: u8| #[trigger] shapes.contains_key(tag) ==> map@[tag]@ == shapes[tag],
        decreases rest@.len(),
    {
        let header = read_header(&mut rest)?;
        proof {
            lemma_parse_value_shortens(rest@, header.val_type);
        }
        let value = read_value(&mut rest, header.value_type())?;
        proof {
            shapes = shapes.insert(header.tag, value@);
        }
        map.insert(header.tag(), value);
    }
    Ok(map)
}

} // verus!
