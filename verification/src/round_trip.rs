//! What was written reads back: for every kind of value, and for every
//! structure built from them.

use vstd::prelude::*;
use vstd::utf8::{encode_utf8, encode_utf8_decode_utf8, encode_utf8_valid_utf8};
use crate::cursor::{be_bytes, lemma_be_bytes_len, lemma_be_value_of_bytes, lemma_limits, limit};
use crate::de::{parse_header, parse_type, Parsed};
use crate::forward::lemma_skip_exact;
use crate::kind::{lemma_admits_fields, lemma_admits_items, lemma_admits_pairs, Kind, Schema};
use crate::laws::{lemma_header_as_type, lemma_header_round_trip, lemma_len_round_trip};
use crate::parse::{parse_bytes, parse_fixed_bytes};
use crate::ser::{header_bytes, len_prefix};
use crate::tree::{
    bytes_code, bytes_payload, framed, lemma_absent_payload, lemma_normal_fields,
    lemma_writable_fields,
    lemma_writable_items, lemma_writable_pairs, normal_fields, normal_items, normal_pairs,
    wire_fields, wire_items, wire_pairs, wire_struct, Tree,
};
use crate::typed::JceType;
use crate::types::{JceHeader, EMPTY, LIST, MAP, STRUCT_END, STRUCT_START};

verus! {

/// The type code of a value is one of those that values have: it fits the
/// low half of a byte and is not the end marker.
pub proof fn lemma_type_code(tree: Tree)
    ensures
        tree.type_code() <= 13,
        tree.type_code() != STRUCT_END,
    decreases tree,
{
    if let Tree::Optional(Some(v)) = tree {
        lemma_type_code(*v);
    }
}

/// The elements from `lo` on are the element at `lo` and those behind it.
pub proof fn lemma_wire_items_front(items: Seq<Tree>, lo: int, hi: int)
    requires
        0 <= lo < hi <= items.len(),
    ensures
        wire_items(items, lo, hi) == framed(0, items[lo].type_code(), items[lo].payload())
            + wire_items(items, lo + 1, hi),
    decreases hi - lo,
{
    if lo + 1 < hi {
        lemma_wire_items_front(items, lo, hi - 1);
        assert(wire_items(items, lo, hi) =~= framed(0, items[lo].type_code(), items[lo].payload())
            + wire_items(items, lo + 1, hi));
    } else {
        assert(wire_items(items, lo, lo) =~= Seq::empty());
        assert(wire_items(items, hi, hi) =~= Seq::empty());
        assert(wire_items(items, lo, hi) =~= framed(0, items[lo].type_code(), items[lo].payload())
            + wire_items(items, lo + 1, hi));
    }
}

/// The pairs from `lo` on are the pair at `lo` and those behind it.
pub proof fn lemma_wire_pairs_front(pairs: Seq<(Tree, Tree)>, lo: int, hi: int)
    requires
        0 <= lo < hi <= pairs.len(),
    ensures
        wire_pairs(pairs, lo, hi) == framed(0, pairs[lo].0.type_code(), pairs[lo].0.payload())
            + framed(1, pairs[lo].1.type_code(), pairs[lo].1.payload()) + wire_pairs(
            pairs,
            lo + 1,
            hi,
        ),
    decreases hi - lo,
{
    if lo + 1 < hi {
        lemma_wire_pairs_front(pairs, lo, hi - 1);
        assert(wire_pairs(pairs, lo, hi) =~= framed(
            0,
            pairs[lo].0.type_code(),
            pairs[lo].0.payload(),
        ) + framed(1, pairs[lo].1.type_code(), pairs[lo].1.payload()) + wire_pairs(
            pairs,
            lo + 1,
            hi,
        ));
    } else {
        assert(wire_pairs(pairs, lo, lo) =~= Seq::empty());
        assert(wire_pairs(pairs, hi, hi) =~= Seq::empty());
        assert(wire_pairs(pairs, lo, hi) =~= framed(
            0,
            pairs[lo].0.type_code(),
            pairs[lo].0.payload(),
        ) + framed(1, pairs[lo].1.type_code(), pairs[lo].1.payload()) + wire_pairs(
            pairs,
            lo + 1,
            hi,
        ));
    }
}

/// The fields from `lo` on are the field at `lo` and those behind it.
pub proof fn lemma_wire_fields_front(fields: Seq<(u8, Tree)>, lo: int, hi: int)
    requires
        0 <= lo < hi <= fields.len(),
    ensures
        wire_fields(fields, lo, hi) == framed(
            fields[lo].0,
            fields[lo].1.type_code(),
            fields[lo].1.payload(),
        ) + wire_fields(fields, lo + 1, hi),
    decreases hi - lo,
{
    if lo + 1 < hi {
        lemma_wire_fields_front(fields, lo, hi - 1);
        assert(wire_fields(fields, lo, hi) =~= framed(
            fields[lo].0,
            fields[lo].1.type_code(),
            fields[lo].1.payload(),
        ) + wire_fields(fields, lo + 1, hi));
    } else {
        assert(wire_fields(fields, lo, lo) =~= Seq::empty());
        assert(wire_fields(fields, hi, hi) =~= Seq::empty());
        assert(wire_fields(fields, lo, hi) =~= framed(
            fields[lo].0,
            fields[lo].1.type_code(),
            fields[lo].1.payload(),
        ) + wire_fields(fields, lo + 1, hi));
    }
}

/// A scalar that was written reads back as itself.
pub proof fn lemma_scalar_round_trip(
    kind: Kind,
    tree: Tree,
    rest: Seq<u8>,
    struct_name: &'static str,
    field: &'static str,
)
    requires
        kind.is_scalar(),
        kind.admits(tree),
    ensures
        kind.parse_scalar(tree.payload() + rest, tree.type_code(), struct_name, field)
            == Parsed::Done(tree, rest),
{
    let w = tree.width();
    let bits = tree.bits();
    let bytes = tree.payload() + rest;
    lemma_limits();
    lemma_be_bytes_len(bits, w);
    assert(bits < limit(w));
    lemma_be_value_of_bytes(bits, w);
    assert(bytes.take(w as int) =~= be_bytes(bits, w));
    assert(bytes.skip(w as int) =~= rest);
    match tree {
        Tree::I8(v) => {
            assert((v as u8) as i8 == v) by (bit_vector);
        },
        Tree::I16(v) => {
            assert((v as u16) as i16 == v) by (bit_vector);
        },
        Tree::I32(v) => {
            assert((v as u32) as i32 == v) by (bit_vector);
        },
        Tree::I64(v) => {
            assert((v as u64) as i64 == v) by (bit_vector);
        },
        _ => {},
    }
    assert(kind.scalar(bits) == tree);
}

/// A byte sequence that was written reads back as itself, also where a
/// sequence of exactly its length is asked for.
pub proof fn lemma_bytes_round_trip(
    b: Seq<u8>,
    rest: Seq<u8>,
    struct_name: &'static str,
    field: &'static str,
)
    requires
        b.len() <= u32::MAX,
    ensures
        parse_bytes(bytes_payload(b) + rest, bytes_code(b.len()), struct_name, field)
            == Parsed::Done(b, rest),
        parse_fixed_bytes(bytes_payload(b) + rest, bytes_code(b.len()), b.len(), struct_name, field)
            == Parsed::Done(b, rest),
{
    let bytes = bytes_payload(b) + rest;
    lemma_limits();
    if b.len() <= 0xFF {
        assert(bytes[0] == b.len() as u8);
        assert(bytes.skip(1) =~= b + rest);
        assert((b + rest).take(b.len() as int) =~= b);
        assert((b + rest).skip(b.len() as int) =~= rest);
    } else {
        lemma_be_bytes_len(b.len(), 4);
        lemma_be_value_of_bytes(b.len(), 4);
        assert(bytes.take(4) =~= be_bytes(b.len(), 4));
        assert(bytes.skip(4) =~= b + rest);
        assert((b + rest).take(b.len() as int) =~= b);
        assert((b + rest).skip(b.len() as int) =~= rest);
    }
}

impl Kind {
    /// A value of the kind that was written reads back as it was, whatever
    /// follows it, but that a present optional value whose content is
    /// written as absent comes back absent.
    pub proof fn lemma_round_trip(
        self,
        tree: Tree,
        rest: Seq<u8>,
        struct_name: &'static str,
        field: &'static str,
    )
        requires
            self.sound(),
            self.admits(tree),
            tree.writable(),
        ensures
            self.parse(tree.payload() + rest, tree.type_code(), struct_name, field)
                == Parsed::Done(tree.normal(), rest),
        decreases self, 3nat, 0nat,
    {
        match self {
            Kind::Bytes => {
                lemma_bytes_round_trip(tree->Bytes_0, rest, struct_name, field);
            },
            Kind::FixedBytes(n) => {
                lemma_bytes_round_trip(tree->Bytes_0, rest, struct_name, field);
            },
            Kind::Str => {
                let s = tree->Str_0;
                lemma_bytes_round_trip(encode_utf8(s), rest, struct_name, field);
                encode_utf8_valid_utf8(s);
                encode_utf8_decode_utf8(s);
            },
            Kind::List(_) => {
                self.lemma_list_round_trip(tree->List_0, rest, struct_name, field);
            },
            Kind::Pairs(_, _) => {
                self.lemma_map_round_trip(tree->Pairs_0, rest, struct_name, field);
            },
            Kind::Optional(k) => {
                match tree {
                    Tree::Optional(Some(v)) => {
                        if v.type_code() == EMPTY {
                            lemma_absent_payload(*v);
                            assert(tree.payload() + rest =~= rest);
                        } else {
                            k.lemma_round_trip(*v, rest, struct_name, field);
                        }
                    },
                    _ => {
                        assert(tree.payload() + rest =~= rest);
                    },
                }
            },
            Kind::Struct(_) => {
                self.lemma_nested_round_trip(tree->Struct_0, rest, struct_name, field);
            },
            _ => {
                lemma_scalar_round_trip(self, tree, rest, struct_name, field);
            },
        }
    }

    /// A list that was written reads back with each element as it comes back.
    pub proof fn lemma_list_round_trip(
        self,
        items: Seq<Tree>,
        rest: Seq<u8>,
        struct_name: &'static str,
        field: &'static str,
    )
        requires
            self is List,
            self.sound(),
            self.admits(Tree::List(items)),
            Tree::List(items).writable(),
        ensures
            self.parse(Tree::List(items).payload() + rest, LIST, struct_name, field)
                == Parsed::Done(Tree::List(normal_items(items, items.len())), rest),
        decreases self, 2nat, 0nat,
    {
        let bytes = Tree::List(items).payload() + rest;
        let tail = wire_items(items, 0, items.len() as int) + rest;
        lemma_len_round_trip(items.len() as usize, tail);
        assert(bytes =~= len_prefix(items.len()) + tail);
        self.lemma_items_round_trip(items, 0, rest, struct_name, field);
        assert(normal_items(items, 0) =~= Seq::empty());
    }

    /// A map that was written reads back with each key and each value as
    /// it comes back.
    pub proof fn lemma_map_round_trip(
        self,
        pairs: Seq<(Tree, Tree)>,
        rest: Seq<u8>,
        struct_name: &'static str,
        field: &'static str,
    )
        requires
            self is Pairs,
            self.sound(),
            self.admits(Tree::Pairs(pairs)),
            Tree::Pairs(pairs).writable(),
        ensures
            self.parse(Tree::Pairs(pairs).payload() + rest, MAP, struct_name, field)
                == Parsed::Done(Tree::Pairs(normal_pairs(pairs, pairs.len())), rest),
        decreases self, 2nat, 0nat,
    {
        let bytes = Tree::Pairs(pairs).payload() + rest;
        let tail = wire_pairs(pairs, 0, pairs.len() as int) + rest;
        lemma_len_round_trip(pairs.len() as usize, tail);
        assert(bytes =~= len_prefix(pairs.len()) + tail);
        self.lemma_pairs_round_trip(pairs, 0, rest, struct_name, field);
        assert(normal_pairs(pairs, 0) =~= Seq::empty());
    }

    /// A nested structure that was written reads back with each field as
    /// it comes back, up to and with its end marker.
    pub proof fn lemma_nested_round_trip(
        self,
        fields: Seq<(u8, Tree)>,
        rest: Seq<u8>,
        struct_name: &'static str,
        field: &'static str,
    )
        requires
            self is Struct,
            self.sound(),
            self.admits(Tree::Struct(fields)),
            Tree::Struct(fields).writable(),
        ensures
            self.parse(Tree::Struct(fields).payload() + rest, STRUCT_START, struct_name, field)
                == Parsed::Done(Tree::Struct(normal_fields(fields, fields.len())), rest),
        decreases self, 2nat, 0nat,
    {
        let schema = *self->Struct_0;
        let bytes = Tree::Struct(fields).payload() + rest;
        let n = fields.len();
        let blank = schema.blank_fields(schema.fields@.len());
        let tail = seq![STRUCT_END] + rest;
        assert(schema.sound());
        assert(schema.distinct_tags());
        assert(schema.sound_fields(schema.fields@.len()));
        assert(schema.admits(fields));
        assert(fields.len() == schema.fields@.len());
        schema.lemma_blank_fields_len(schema.fields@.len());
        lemma_admits_fields(schema, fields, n);
        lemma_writable_fields(fields, n);
        schema.lemma_sound_fields(schema.fields@.len());
        assert forall|j: int| 0 <= j < n implies schema.takes(#[trigger] fields[j]) by {
            schema.lemma_index_of_own(j);
        }
        schema.lemma_read_bindings(blank, fields, 0, tail, false);
        assert(bytes =~= wire_fields(fields, 0, n as int) + tail);
        schema.lemma_put_own(blank, fields, 0);
        let read = schema.put_all(blank, fields, 0);
        lemma_normal_fields(fields, n);
        assert(read =~= normal_fields(fields, n));
        lemma_end_marker(rest);
        assert(schema.parse_fields(read, tail, false) == Parsed::Done(read, rest));
    }

    /// An element that was written at a tag below 15 reads back as it
    /// was: the byte in front of it gives its type code, and what follows
    /// gives the value.
    pub proof fn lemma_elem_round_trip(
        self,
        tag: u8,
        tree: Tree,
        rest: Seq<u8>,
        struct_name: &'static str,
        field: &'static str,
    )
        requires
            tag < 0xF,
            self.sound(),
            self.admits(tree),
            tree.writable(),
        ensures
            parse_type(framed(tag, tree.type_code(), tree.payload()) + rest) == Parsed::Done(
                tree.type_code(),
                tree.payload() + rest,
            ),
            self.parse(tree.payload() + rest, tree.type_code(), struct_name, field)
                == Parsed::Done(tree.normal(), rest),
        decreases self, 4nat, 0nat,
    {
        lemma_type_code(tree);
        assert(framed(tag, tree.type_code(), tree.payload()) + rest =~= header_bytes(
            tag,
            tree.type_code(),
        ) + (tree.payload() + rest));
        lemma_header_as_type(tag, tree.type_code(), tree.payload() + rest);
        self.lemma_round_trip(tree, rest, struct_name, field);
    }

    /// The elements of a list from index `lo` on read back as they were.
    #[verifier::spinoff_prover]
    pub proof fn lemma_items_round_trip(
        self,
        items: Seq<Tree>,
        lo: int,
        rest: Seq<u8>,
        struct_name: &'static str,
        field: &'static str,
    )
        requires
            self is List,
            self.sound(),
            0 <= lo <= items.len(),
            self.admits(Tree::List(items)),
            Tree::List(items).writable(),
        ensures
            self.parse_items(
                wire_items(items, lo, items.len() as int) + rest,
                (items.len() - lo) as nat,
                normal_items(items, lo as nat),
                struct_name,
                field,
            ) == Parsed::Done(normal_items(items, items.len()), rest),
        decreases self, 1nat, items.len() - lo,
    {
        let hi = items.len() as int;
        let bytes = wire_items(items, lo, hi) + rest;
        if lo < hi {
            let k = *self->List_0;
            let x = items[lo];
            let tail = wire_items(items, lo + 1, hi) + rest;
            lemma_admits_items(self, items, items.len());
            lemma_writable_items(items, items.len());
            lemma_wire_items_front(items, lo, hi);
            assert(bytes =~= framed(0, x.type_code(), x.payload()) + tail);
            k.lemma_elem_round_trip(0, x, tail, struct_name, field);
            self.lemma_parse_items_step(
                bytes,
                (hi - lo) as nat,
                normal_items(items, lo as nat),
                x.type_code(),
                x.payload() + tail,
                x.normal(),
                tail,
                struct_name,
                field,
            );
            self.lemma_items_round_trip(items, lo + 1, rest, struct_name, field);
        } else {
            assert(bytes =~= rest);
        }
    }

    /// The pairs of a map from index `lo` on read back as they were.
    #[verifier::spinoff_prover]
    pub proof fn lemma_pairs_round_trip(
        self,
        pairs: Seq<(Tree, Tree)>,
        lo: int,
        rest: Seq<u8>,
        struct_name: &'static str,
        field: &'static str,
    )
        requires
            self is Pairs,
            self.sound(),
            0 <= lo <= pairs.len(),
            self.admits(Tree::Pairs(pairs)),
            Tree::Pairs(pairs).writable(),
        ensures
            self.parse_pairs(
                wire_pairs(pairs, lo, pairs.len() as int) + rest,
                (pairs.len() - lo) as nat,
                normal_pairs(pairs, lo as nat),
                struct_name,
                field,
            ) == Parsed::Done(normal_pairs(pairs, pairs.len()), rest),
        decreases self, 1nat, pairs.len() - lo,
    {
        let hi = pairs.len() as int;
        let bytes = wire_pairs(pairs, lo, hi) + rest;
        if lo < hi {
            let kk = *self->Pairs_0;
            let vk = *self->Pairs_1;
            let (key, value) = pairs[lo];
            let tail = wire_pairs(pairs, lo + 1, hi) + rest;
            let mid = framed(1, value.type_code(), value.payload()) + tail;
            lemma_admits_pairs(self, pairs, pairs.len());
            lemma_writable_pairs(pairs, pairs.len());
            lemma_wire_pairs_front(pairs, lo, hi);
            assert(bytes =~= framed(0, key.type_code(), key.payload()) + mid);
            kk.lemma_elem_round_trip(0, key, mid, struct_name, field);
            vk.lemma_elem_round_trip(1, value, tail, struct_name, field);
            self.lemma_parse_pairs_step(
                bytes,
                (hi - lo) as nat,
                normal_pairs(pairs, lo as nat),
                (key.type_code(), value.type_code()),
                (key.payload() + mid, value.payload() + tail),
                (key.normal(), value.normal()),
                (mid, tail),
                struct_name,
                field,
            );
            self.lemma_pairs_round_trip(pairs, lo + 1, rest, struct_name, field);
        } else {
            assert(bytes =~= rest);
        }
    }
}

/// A reader of a nested structure that finds the end marker takes it and stops.
pub proof fn lemma_end_marker(rest: Seq<u8>)
    ensures
        parse_header(seq![STRUCT_END] + rest) == Parsed::Done(
            JceHeader { val_type: STRUCT_END, tag: 0 },
            rest,
        ),
{
    lemma_header_round_trip(0, STRUCT_END, rest);
    let head = (0u8 << 4) | STRUCT_END;
    assert(head == 11u8) by (bit_vector)
        requires
            head == (0u8 << 4) | 11u8,
    ;
    assert(header_bytes(0, STRUCT_END) =~= seq![STRUCT_END]);
}

impl Schema {
    /// A reader with this layout that stands in front of values written
    /// at their tags, each of which it can take, reads them one after the
    /// other and stands behind them as if it had started there with the
    /// fields that they made.
    pub proof fn lemma_read_bindings(
        self,
        fields: Seq<(u8, Tree)>,
        bindings: Seq<(u8, Tree)>,
        lo: int,
        rest: Seq<u8>,
        to_end: bool,
    )
        requires
            fields.len() == self.fields@.len(),
            0 <= lo <= bindings.len(),
            forall|j: int| lo <= j < bindings.len() ==> self.takes(#[trigger] bindings[j]),
        ensures
            self.parse_fields(
                fields,
                wire_fields(bindings, lo, bindings.len() as int) + rest,
                to_end,
            ) == self.parse_fields(self.put_all(fields, bindings, lo), rest, to_end),
        decreases self, 1nat, bindings.len() - lo,
    {
        let hi = bindings.len() as int;
        let bytes = wire_fields(bindings, lo, hi) + rest;
        if lo < hi {
            let (tag, x) = bindings[lo];
            let code = x.type_code();
            assert(self.takes(bindings[lo]));
            lemma_type_code(x);
            lemma_wire_fields_front(bindings, lo, hi);
            let tail = wire_fields(bindings, lo + 1, hi) + rest;
            assert(bytes =~= header_bytes(tag, code) + (x.payload() + tail));
            lemma_header_round_trip(tag, code, x.payload() + tail);
            self.lemma_find(tag, 0);
            match self.index_of(tag) {
                Some(i) => {
                    self.fields@[i].kind.lemma_round_trip(
                        x,
                        tail,
                        self.name,
                        self.fields@[i].name,
                    );
                },
                None => {
                    lemma_skip_exact(x, tail);
                },
            }
            let next = self.put(fields, bindings[lo]);
            assert(self.parse_field(fields, tag, code, x.payload() + tail) == Parsed::Done(
                next,
                tail,
            ));
            assert(tail.len() < bytes.len());
            self.lemma_read_bindings(next, bindings, lo + 1, rest, to_end);
        } else {
            assert(bytes =~= rest);
        }
    }

    /// Reading the fields of a structure of this layout, in their order,
    /// into any fields leaves each as it comes back from the wire.
    pub proof fn lemma_put_own(self, state: Seq<(u8, Tree)>, fields: Seq<(u8, Tree)>, lo: int)
        requires
            self.distinct_tags(),
            self.admits(fields),
            state.len() == fields.len(),
            0 <= lo <= fields.len(),
        ensures
            self.put_all(state, fields, lo).len() == fields.len(),
            forall|j: int|
                0 <= j < lo ==> #[trigger] self.put_all(state, fields, lo)[j] == state[j],
            forall|j: int|
                lo <= j < fields.len() ==> #[trigger] self.put_all(state, fields, lo)[j] == (
                    fields[j].0,
                    fields[j].1.normal(),
                ),
        decreases fields.len() - lo,
    {
        if lo < fields.len() {
            lemma_admits_fields(self, fields, fields.len());
            self.lemma_index_of_own(lo);
            let next = self.put(state, fields[lo]);
            assert(next == state.update(lo, (fields[lo].0, fields[lo].1.normal())));
            self.lemma_put_own(next, fields, lo + 1);
        }
    }
}

/// A structure that was written reads back as it was: for every layout
/// with distinct tags, in it and in the structures within it, and every
/// structure of that layout whose values can be written, reading the bytes
/// of its fields to the end of the buffer gives the fields as they were,
/// but that a present optional value whose content is written as absent
/// comes back absent.
pub proof fn lemma_struct_round_trip(schema: Schema, fields: Seq<(u8, Tree)>)
    requires
        schema.sound(),
        schema.admits(fields),
        Tree::Struct(fields).writable(),
    ensures
        schema.parse_fields(schema.blank_fields(schema.fields@.len()), wire_struct(fields), true)
            == Parsed::Done(normal_fields(fields, fields.len()), Seq::<u8>::empty()),
{
    let n = fields.len();
    let blank = schema.blank_fields(schema.fields@.len());
    let rest = Seq::<u8>::empty();
    schema.lemma_blank_fields_len(schema.fields@.len());
    lemma_admits_fields(schema, fields, n);
    lemma_writable_fields(fields, n);
    schema.lemma_sound_fields(schema.fields@.len());
    assert forall|j: int| 0 <= j < n implies schema.takes(#[trigger] fields[j]) by {
        schema.lemma_index_of_own(j);
    }
    schema.lemma_read_bindings(blank, fields, 0, rest, true);
    assert(wire_fields(fields, 0, n as int) + rest =~= wire_fields(fields, 0, n as int));
    schema.lemma_put_own(blank, fields, 0);
    lemma_normal_fields(fields, n);
    assert(schema.put_all(blank, fields, 0) =~= normal_fields(fields, n));
}

/// A value of a type that travels, once written, reads back as it was,
/// whatever follows it, but that a present optional value whose content is
/// written as absent comes back absent.
pub proof fn lemma_typed_round_trip<T: JceType>(
    v: T,
    rest: Seq<u8>,
    struct_name: &'static str,
    field: &'static str,
)
    requires
        v.tree().writable(),
    ensures
        T::kind().parse(v.tree().payload() + rest, v.tree().type_code(), struct_name, field)
            == Parsed::Done(v.tree().normal(), rest),
{
    T::lemma_sound();
    v.lemma_of_kind();
    T::kind().lemma_round_trip(v.tree(), rest, struct_name, field);
}

} // verus!
