//! A reader that does not know a field steps over it and reads on as if
//! it had not been there.

use vstd::prelude::*;
use vstd::utf8::encode_utf8;
use crate::cursor::{be_bytes, lemma_be_bytes_len, lemma_be_value_of_bytes, lemma_limits};
use crate::de::Parsed;
use crate::kind::{lemma_admits_fields, Schema};
use crate::laws::lemma_len_round_trip;
use crate::round_trip::{
    lemma_struct_round_trip, lemma_type_code, lemma_wire_items_front, lemma_wire_pairs_front,
};
use crate::ser::len_prefix;
use crate::skip::{drop_bytes, lemma_skip_elem_shortens, skip, skip_elem, skip_elems};
use crate::tree::{
    bytes_code, bytes_payload, framed, lemma_plain_items, lemma_plain_pairs, lemma_writable_fields,
    lemma_writable_items, lemma_writable_pairs, normal_fields, wire_fields, wire_items, wire_pairs,
    wire_struct, Tree,
};
use crate::types::{LIST, MAP, STRUCT_END, STRUCT_START};

verus! {

/// Stepping over an element that was written at a tag below 15 comes to
/// stepping over its payload under its type code.
pub proof fn lemma_skip_elem_framed(tag: u8, tree: Tree, rest: Seq<u8>)
    requires
        tag < 0xF,
    ensures
        skip_elem(framed(tag, tree.type_code(), tree.payload()) + rest) == skip(
            tree.payload() + rest,
            tree.type_code(),
        ),
{
    let code = tree.type_code();
    lemma_type_code(tree);
    let bytes = framed(tag, code, tree.payload()) + rest;
    let head = (tag << 4) | code;
    assert(head & 0xF == code) by (bit_vector)
        requires
            head == (tag << 4) | code,
            tag < 0xF,
            code <= 13,
    ;
    assert(bytes[0] == head);
    assert(bytes.skip(1) =~= tree.payload() + rest);
}

/// Stepping over a scalar takes as many bytes as it is wide.
pub proof fn lemma_skip_scalar(tree: Tree, rest: Seq<u8>)
    requires
        tree.is_scalar(),
    ensures
        skip(tree.payload() + rest, tree.type_code()) == Parsed::Done((), rest),
{
    let bytes = tree.payload() + rest;
    lemma_be_bytes_len(tree.bits(), tree.width());
    assert(bytes.skip(tree.width() as int) =~= rest);
    assert(drop_bytes(bytes, tree.width()) == Parsed::Done((), rest));
}

/// Stepping over a structure without fields takes its end marker.
pub proof fn lemma_skip_empty_struct(rest: Seq<u8>)
    ensures
        skip(seq![STRUCT_END] + rest, STRUCT_START) == Parsed::Done((), rest),
{
    let bytes = seq![STRUCT_END] + rest;
    let head = bytes[0];
    assert(head & 0xF == 11u8) by (bit_vector)
        requires
            head == 11u8,
    ;
    assert(bytes.skip(1) =~= rest);
    assert(skip_elem(bytes) == skip(rest, STRUCT_END));
}

/// Stepping over a value that holds no structure with fields takes the
/// bytes of the value and no others.
pub proof fn lemma_skip_exact(tree: Tree, rest: Seq<u8>)
    requires
        tree.writable(),
        tree.plain(),
    ensures
        skip(tree.payload() + rest, tree.type_code()) == Parsed::Done((), rest),
    decreases tree, 1nat, 0nat,
{
    match tree {
        Tree::Bytes(b) => {
            lemma_skip_bytes(b, rest);
        },
        Tree::Str(s) => {
            lemma_skip_bytes(encode_utf8(s), rest);
        },
        Tree::List(items) => {
            lemma_skip_list(items, rest);
        },
        Tree::Pairs(pairs) => {
            lemma_skip_map(pairs, rest);
        },
        Tree::Optional(None) => {
            assert(tree.payload() + rest =~= rest);
        },
        Tree::Optional(Some(v)) => {
            lemma_skip_exact(*v, rest);
        },
        Tree::Struct(fields) => {
            assert(wire_fields(fields, 0, 0) =~= Seq::empty());
            assert(tree.payload() =~= seq![STRUCT_END]);
            lemma_skip_empty_struct(rest);
        },
        _ => {
            lemma_skip_scalar(tree, rest);
        },
    }
}

/// Stepping over a list takes its count and its elements.
pub proof fn lemma_skip_list(items: Seq<Tree>, rest: Seq<u8>)
    requires
        Tree::List(items).writable(),
        Tree::List(items).plain(),
    ensures
        skip(Tree::List(items).payload() + rest, LIST) == Parsed::Done((), rest),
    decreases items, items.len() + 1,
{
    let bytes = Tree::List(items).payload() + rest;
    let tail = wire_items(items, 0, items.len() as int) + rest;
    lemma_len_round_trip(items.len() as usize, tail);
    assert(bytes =~= len_prefix(items.len()) + tail);
    lemma_skip_items(items, 0, rest);
    assert(skip(bytes, LIST) == skip_elems(tail, items.len()));
}

/// Stepping over a map takes its count, its keys and its values.
pub proof fn lemma_skip_map(pairs: Seq<(Tree, Tree)>, rest: Seq<u8>)
    requires
        Tree::Pairs(pairs).writable(),
        Tree::Pairs(pairs).plain(),
    ensures
        skip(Tree::Pairs(pairs).payload() + rest, MAP) == Parsed::Done((), rest),
    decreases pairs, pairs.len() + 1,
{
    let bytes = Tree::Pairs(pairs).payload() + rest;
    let tail = wire_pairs(pairs, 0, pairs.len() as int) + rest;
    lemma_len_round_trip(pairs.len() as usize, tail);
    assert(bytes =~= len_prefix(pairs.len()) + tail);
    lemma_skip_pairs(pairs, 0, rest);
    assert(skip(bytes, MAP) == skip_elems(tail, 2 * pairs.len()));
}

/// Stepping over a byte sequence takes its length and its bytes.
pub proof fn lemma_skip_bytes(b: Seq<u8>, rest: Seq<u8>)
    requires
        b.len() <= u32::MAX,
    ensures
        skip(bytes_payload(b) + rest, bytes_code(b.len())) == Parsed::Done((), rest),
{
    let bytes = bytes_payload(b) + rest;
    lemma_limits();
    if b.len() <= 0xFF {
        assert(bytes[0] == b.len() as u8);
        assert(bytes.skip(1) =~= b + rest);
        assert((b + rest).skip(b.len() as int) =~= rest);
    } else {
        lemma_be_bytes_len(b.len(), 4);
        lemma_be_value_of_bytes(b.len(), 4);
        assert(bytes.take(4) =~= be_bytes(b.len(), 4));
        assert(bytes.skip(4) =~= b + rest);
        assert((b + rest).skip(b.len() as int) =~= rest);
    }
}

/// Stepping over a plain element that was written at a tag below 15
/// takes its bytes.
pub proof fn lemma_skip_one(tag: u8, tree: Tree, tail: Seq<u8>, count: nat)
    requires
        tag < 0xF,
        tree.writable(),
        tree.plain(),
        count > 0,
    ensures
        skip_elems(framed(tag, tree.type_code(), tree.payload()) + tail, count) == skip_elems(
            tail,
            (count - 1) as nat,
        ),
    decreases tree, 2nat, 0nat,
{
    let bytes = framed(tag, tree.type_code(), tree.payload()) + tail;
    lemma_skip_elem_framed(tag, tree, tail);
    lemma_skip_exact(tree, tail);
    assert(skip_elem(bytes) == Parsed::Done((), tail));
    lemma_skip_elem_shortens(bytes);
}

/// Stepping over the elements of a list from index `lo` on takes their bytes.
pub proof fn lemma_skip_items(items: Seq<Tree>, lo: int, rest: Seq<u8>)
    requires
        0 <= lo <= items.len(),
        Tree::List(items).writable(),
        Tree::List(items).plain(),
    ensures
        skip_elems(wire_items(items, lo, items.len() as int) + rest, (items.len() - lo) as nat)
            == Parsed::Done((), rest),
    decreases items, items.len() - lo,
{
    let hi = items.len() as int;
    if lo < hi {
        lemma_writable_items(items, items.len());
        lemma_plain_items(items, items.len());
        lemma_wire_items_front(items, lo, hi);
        let tail = wire_items(items, lo + 1, hi) + rest;
        assert(wire_items(items, lo, hi) + rest =~= framed(
            0,
            items[lo].type_code(),
            items[lo].payload(),
        ) + tail);
        lemma_skip_one(0, items[lo], tail, (hi - lo) as nat);
        lemma_skip_items(items, lo + 1, rest);
    } else {
        assert(wire_items(items, lo, hi) + rest =~= rest);
    }
}

/// Stepping over the keys and values of a map from index `lo` on takes
/// their bytes.
pub proof fn lemma_skip_pairs(pairs: Seq<(Tree, Tree)>, lo: int, rest: Seq<u8>)
    requires
        0 <= lo <= pairs.len(),
        Tree::Pairs(pairs).writable(),
        Tree::Pairs(pairs).plain(),
    ensures
        skip_elems(
            wire_pairs(pairs, lo, pairs.len() as int) + rest,
            (2 * (pairs.len() - lo)) as nat,
        ) == Parsed::Done((), rest),
    decreases pairs, pairs.len() - lo,
{
    let hi = pairs.len() as int;
    if lo < hi {
        lemma_writable_pairs(pairs, pairs.len());
        lemma_plain_pairs(pairs, pairs.len());
        lemma_wire_pairs_front(pairs, lo, hi);
        let count = (2 * (hi - lo)) as nat;
        let tail = wire_pairs(pairs, lo + 1, hi) + rest;
        let mid = framed(1, pairs[lo].1.type_code(), pairs[lo].1.payload()) + tail;
        assert(wire_pairs(pairs, lo, hi) + rest =~= framed(
            0,
            pairs[lo].0.type_code(),
            pairs[lo].0.payload(),
        ) + mid);
        lemma_skip_one(0, pairs[lo].0, mid, count);
        lemma_skip_one(1, pairs[lo].1, tail, (count - 1) as nat);
        lemma_skip_pairs(pairs, lo + 1, rest);
    } else {
        assert(wire_pairs(pairs, lo, hi) + rest =~= rest);
    }
}

impl Schema {
    /// Reading values of which one stands at a tag that the layout does not
    /// declare makes the same fields as reading the others alone.
    pub proof fn lemma_put_all_unknown(
        self,
        state: Seq<(u8, Tree)>,
        bindings: Seq<(u8, Tree)>,
        at: int,
        extra: (u8, Tree),
        lo: int,
    )
        requires
            0 <= at <= bindings.len(),
            0 <= lo <= bindings.len() + 1,
            self.index_of(extra.0) is None,
        ensures
            lo <= at ==> self.put_all(state, bindings.insert(at, extra), lo) == self.put_all(
                state,
                bindings,
                lo,
            ),
            lo > at ==> self.put_all(state, bindings.insert(at, extra), lo) == self.put_all(
                state,
                bindings,
                lo - 1,
            ),
        decreases bindings.len() + 1 - lo,
    {
        let more = bindings.insert(at, extra);
        if lo < more.len() {
            if lo < at {
                assert(more[lo] == bindings[lo]);
                self.lemma_put_all_unknown(
                    self.put(state, bindings[lo]),
                    bindings,
                    at,
                    extra,
                    lo + 1,
                );
            } else if lo == at {
                assert(more[lo] == extra);
                self.lemma_put_all_unknown(state, bindings, at, extra, lo + 1);
            } else {
                assert(more[lo] == bindings[lo - 1]);
                self.lemma_put_all_unknown(
                    self.put(state, bindings[lo - 1]),
                    bindings,
                    at,
                    extra,
                    lo + 1,
                );
            }
        }
    }
}

/// A reader is not disturbed by a field that it does not know: where a
/// structure is written with one more field, at a tag that the reader's
/// layout does not declare and anywhere among the others, the reader finds
/// in the bytes what it finds in the bytes of the structure without that
/// field. This holds of every additional value that can be written and holds
/// no structure with fields; over a structure with fields the reader
/// steps short.
pub proof fn lemma_forward_compatible(
    reader: Schema,
    fields: Seq<(u8, Tree)>,
    at: int,
    extra: (u8, Tree),
)
    requires
        reader.sound(),
        reader.admits(fields),
        Tree::Struct(fields).writable(),
        0 <= at <= fields.len(),
        reader.index_of(extra.0) is None,
        extra.1.writable(),
        extra.1.plain(),
    ensures
        reader.parse_fields(
            reader.blank_fields(reader.fields@.len()),
            wire_struct(fields.insert(at, extra)),
            true,
        ) == reader.parse_fields(
            reader.blank_fields(reader.fields@.len()),
            wire_struct(fields),
            true,
        ),
        reader.parse_fields(
            reader.blank_fields(reader.fields@.len()),
            wire_struct(fields.insert(at, extra)),
            true,
        ) == Parsed::Done(normal_fields(fields, fields.len()), Seq::<u8>::empty()),
{
    let n = fields.len();
    let more = fields.insert(at, extra);
    let blank = reader.blank_fields(reader.fields@.len());
    let rest = Seq::<u8>::empty();
    reader.lemma_blank_fields_len(reader.fields@.len());
    lemma_admits_fields(reader, fields, n);
    lemma_writable_fields(fields, n);
    reader.lemma_sound_fields(reader.fields@.len());
    assert forall|j: int| 0 <= j < more.len() implies reader.takes(#[trigger] more[j]) by {
        if j < at {
            assert(more[j] == fields[j]);
            reader.lemma_index_of_own(j);
        } else if j > at {
            assert(more[j] == fields[j - 1]);
            reader.lemma_index_of_own(j - 1);
        }
    }
    reader.lemma_read_bindings(blank, more, 0, rest, true);
    assert(wire_fields(more, 0, more.len() as int) + rest =~= wire_fields(
        more,
        0,
        more.len() as int,
    ));
    reader.lemma_put_all_unknown(blank, fields, at, extra, 0);
    lemma_struct_round_trip(reader, fields);
    assert forall|j: int| 0 <= j < n implies reader.takes(#[trigger] fields[j]) by {
        reader.lemma_index_of_own(j);
    }
    reader.lemma_read_bindings(blank, fields, 0, rest, true);
    assert(wire_fields(fields, 0, n as int) + rest =~= wire_fields(fields, 0, n as int));
}

} // verus!
