//! How reading fails: on a type code that the kind of a field does not
//! read, and on a value whose last byte is missing.

use vstd::prelude::*;
use vstd::utf8::encode_utf8;
use crate::cursor::{be_bytes, lemma_be_bytes_len, lemma_be_value_of_bytes, lemma_limits};
use crate::de::{parse_header, parse_len, parse_type, Parsed};
use crate::error::Failure;
use crate::kind::{lemma_admits_fields, lemma_admits_items, lemma_admits_pairs, Kind, Schema};
use crate::laws::{lemma_header_as_type, lemma_header_round_trip, lemma_len_round_trip};
use crate::parse::{mismatch, parse_bytes, parse_fixed_bytes};
use crate::round_trip::{lemma_type_code, lemma_wire_items_front, lemma_wire_pairs_front};
use crate::ser::{header_bytes, len_prefix, spec_len_bytes};
use crate::tree::{
    bytes_code, bytes_payload, framed, lemma_absent_payload, lemma_writable_fields,
    lemma_writable_items, lemma_writable_pairs, wire_fields, wire_items, wire_pairs, wire_struct,
    Tree,
};
use crate::types::{
    JceHeader, EMPTY, LIST, LONG_BYTES, MAP, SHORT_BYTES, SINGLE_LIST, STRUCT_START,
};

verus! {

impl Kind {
    /// Whether a value of the kind is read under type code `t`.
    pub open spec fn reads(self, t: u8) -> bool
        decreases self,
    {
        match self {
            Kind::Bytes | Kind::Str => t == SHORT_BYTES || t == LONG_BYTES || t == LIST || t
                == SINGLE_LIST,
            Kind::FixedBytes(_) => t == SHORT_BYTES || t == LONG_BYTES || t == SINGLE_LIST,
            Kind::List(_) => t == LIST,
            Kind::Pairs(_, _) => t == MAP,
            Kind::Optional(k) => t == EMPTY || k.reads(t),
            Kind::Struct(_) => t == STRUCT_START || t == EMPTY,
            _ => t == self.scalar_code(),
        }
    }

    /// A value that is found under a type code which its kind does not
    /// read fails with `IncorrectType`, which names the structure, the field
    /// and the type code, whatever the bytes are.
    pub proof fn lemma_mismatch(
        self,
        bytes: Seq<u8>,
        t: u8,
        struct_name: &'static str,
        field: &'static str,
    )
        requires
            !self.reads(t),
        ensures
            self.parse(bytes, t, struct_name, field) == Parsed::<Tree>::Fail(
                mismatch(t, struct_name, field),
            ),
        decreases self,
    {
        if let Kind::Optional(k) = self {
            k.lemma_mismatch(bytes, t, struct_name, field);
        }
    }
}

impl Schema {
    /// A declared field that is found under a type code which its kind
    /// does not read fails with `IncorrectType`, which names this structure
    /// and that field.
    pub proof fn lemma_field_mismatch(self, fields: Seq<(u8, Tree)>, tag: u8, t: u8, bytes: Seq<u8>)
        requires
            self.index_of(tag) matches Some(i) && !self.fields@[i].kind.reads(t),
        ensures
            self.index_of(tag) matches Some(i) && self.parse_field(fields, tag, t, bytes)
                == Parsed::<Seq<(u8, Tree)>>::Fail(
                Failure::IncorrectType {
                    struct_name: self.name,
                    field: self.fields@[i].name,
                    val_type: t,
                },
            ),
    {
        self.lemma_find(tag, 0);
        let i = self.index_of(tag)->Some_0;
        self.fields@[i].kind.lemma_mismatch(bytes, t, self.name, self.fields@[i].name);
    }
}

/// A byte sequence behind its length, with its last byte missing, fails
/// as running past the end.
pub proof fn lemma_bytes_truncated(b: Seq<u8>, struct_name: &'static str, field: &'static str)
    requires
        b.len() <= u32::MAX,
    ensures
        parse_bytes(bytes_payload(b).drop_last(), bytes_code(b.len()), struct_name, field)
            == Parsed::<Seq<u8>>::Fail(Failure::Eof),
        parse_fixed_bytes(
            bytes_payload(b).drop_last(),
            bytes_code(b.len()),
            b.len(),
            struct_name,
            field,
        ) == Parsed::<Seq<u8>>::Fail(Failure::Eof),
{
    let bytes = bytes_payload(b).drop_last();
    lemma_limits();
    if b.len() == 0 {
        assert(bytes.len() == 0);
    } else if b.len() <= 0xFF {
        assert(bytes =~= seq![b.len() as u8] + b.drop_last());
        assert(bytes[0] == b.len() as u8);
        assert(bytes.skip(1) =~= b.drop_last());
    } else {
        lemma_be_bytes_len(b.len(), 4);
        lemma_be_value_of_bytes(b.len(), 4);
        assert(bytes =~= be_bytes(b.len(), 4) + b.drop_last());
        assert(bytes.take(4) =~= be_bytes(b.len(), 4));
        assert(bytes.skip(4) =~= b.drop_last());
    }
}

/// The elements from `lo` up to `hi` take as many bytes at least as they are.
pub proof fn lemma_wire_items_len(items: Seq<Tree>, lo: int, hi: int)
    requires
        0 <= lo <= hi <= items.len(),
    ensures
        wire_items(items, lo, hi).len() >= hi - lo,
    decreases hi - lo,
{
    if lo < hi {
        lemma_wire_items_len(items, lo, hi - 1);
    }
}

/// The pairs from `lo` up to `hi` take twice as many bytes at least as they are.
pub proof fn lemma_wire_pairs_len(pairs: Seq<(Tree, Tree)>, lo: int, hi: int)
    requires
        0 <= lo <= hi <= pairs.len(),
    ensures
        wire_pairs(pairs, lo, hi).len() >= 2 * (hi - lo),
    decreases hi - lo,
{
    if lo < hi {
        lemma_wire_pairs_len(pairs, lo, hi - 1);
    }
}

impl Kind {
    /// A value that was written and has lost its last byte fails as
    /// running past the end. This holds of every value that has a payload
    /// and does not end in a nested structure; a reader that misses the end
    /// marker of a structure at the end of its buffer takes the structure
    /// as complete.
    pub proof fn lemma_truncated(self, tree: Tree, struct_name: &'static str, field: &'static str)
        requires
            self.sound(),
            self.admits(tree),
            tree.writable(),
            tree.payload().len() > 0,
            !tree.ends_in_struct(),
        ensures
            self.parse(tree.payload().drop_last(), tree.type_code(), struct_name, field)
                == Parsed::<Tree>::Fail(Failure::Eof),
        decreases self, 2nat, 0nat,
    {
        let bytes = tree.payload().drop_last();
        match self {
            Kind::Bytes => {
                lemma_bytes_truncated(tree->Bytes_0, struct_name, field);
            },
            Kind::FixedBytes(_) => {
                lemma_bytes_truncated(tree->Bytes_0, struct_name, field);
            },
            Kind::Str => {
                lemma_bytes_truncated(encode_utf8(tree->Str_0), struct_name, field);
            },
            Kind::List(_) => {
                let items = tree->List_0;
                let n = items.len() as int;
                let body = wire_items(items, 0, n);
                lemma_wire_items_len(items, 0, n);
                if n == 0 {
                    lemma_len_prefix_truncated(0);
                    assert(body =~= Seq::empty());
                    assert(bytes =~= len_prefix(0).drop_last());
                } else {
                    assert(bytes =~= len_prefix(items.len()) + body.drop_last());
                    lemma_len_round_trip(items.len() as usize, body.drop_last());
                    self.lemma_items_truncated(items, 0, Seq::empty(), struct_name, field);
                }
            },
            Kind::Pairs(_, _) => {
                let pairs = tree->Pairs_0;
                let n = pairs.len() as int;
                let body = wire_pairs(pairs, 0, n);
                lemma_wire_pairs_len(pairs, 0, n);
                if n == 0 {
                    lemma_len_prefix_truncated(0);
                    assert(body =~= Seq::empty());
                    assert(bytes =~= len_prefix(0).drop_last());
                } else {
                    assert(bytes =~= len_prefix(pairs.len()) + body.drop_last());
                    lemma_len_round_trip(pairs.len() as usize, body.drop_last());
                    self.lemma_pairs_truncated(pairs, 0, Seq::empty(), struct_name, field);
                }
            },
            Kind::Optional(k) => {
                let v = *tree->Optional_0->Some_0;
                if v.type_code() == EMPTY {
                    lemma_absent_payload(v);
                }
                k.lemma_truncated(v, struct_name, field);
            },
            Kind::Struct(_) => {},
            _ => {
                lemma_be_bytes_len(tree.bits(), tree.width());
            },
        }
    }

    /// The elements of a list from index `lo` on, the last of which has
    /// lost its last byte, fail as running past the end.
    #[verifier::spinoff_prover]
    pub proof fn lemma_items_truncated(
        self,
        items: Seq<Tree>,
        lo: int,
        acc: Seq<Tree>,
        struct_name: &'static str,
        field: &'static str,
    )
        requires
            self is List,
            self.sound(),
            0 <= lo < items.len(),
            self.admits(Tree::List(items)),
            Tree::List(items).writable(),
            !items.last().ends_in_struct(),
        ensures
            self.parse_items(
                wire_items(items, lo, items.len() as int).drop_last(),
                (items.len() - lo) as nat,
                acc,
                struct_name,
                field,
            ) == Parsed::<Seq<Tree>>::Fail(Failure::Eof),
        decreases self, 1nat, items.len() - lo,
    {
        let hi = items.len() as int;
        let k = *self->List_0;
        let x = items[lo];
        let code = x.type_code();
        lemma_admits_items(self, items, items.len());
        lemma_writable_items(items, items.len());
        lemma_wire_items_front(items, lo, hi);
        lemma_type_code(x);
        let bytes = wire_items(items, lo, hi).drop_last();
        if lo + 1 < hi {
            lemma_wire_items_len(items, lo + 1, hi);
            let tail = wire_items(items, lo + 1, hi).drop_last();
            assert(bytes =~= framed(0, code, x.payload()) + tail);
            k.lemma_elem_round_trip(0, x, tail, struct_name, field);
            self.lemma_parse_items_step(
                bytes,
                (hi - lo) as nat,
                acc,
                code,
                x.payload() + tail,
                x.normal(),
                tail,
                struct_name,
                field,
            );
            self.lemma_items_truncated(items, lo + 1, acc.push(x.normal()), struct_name, field);
        } else {
            assert(wire_items(items, lo + 1, hi) =~= Seq::empty());
            assert(x == items.last());
            k.lemma_elem_truncated(0, x, struct_name, field);
            assert(bytes =~= framed(0, code, x.payload()).drop_last());
        }
    }

    /// An element that was written at a tag below 15 and has lost its
    /// last byte fails as running past the end: where it has no payload, the
    /// byte in front of it is missing; where it has one, the value is short.
    pub proof fn lemma_elem_truncated(
        self,
        tag: u8,
        tree: Tree,
        struct_name: &'static str,
        field: &'static str,
    )
        requires
            tag < 0xF,
            self.sound(),
            self.admits(tree),
            tree.writable(),
            !tree.ends_in_struct(),
        ensures
            match parse_type(framed(tag, tree.type_code(), tree.payload()).drop_last()) {
                Parsed::Fail(f) => f == Failure::Eof,
                Parsed::Done(t, body) => self.parse(body, t, struct_name, field) == Parsed::<
                    Tree,
                >::Fail(Failure::Eof),
            },
        decreases self, 4nat, 0nat,
    {
        let code = tree.type_code();
        let bytes = framed(tag, code, tree.payload()).drop_last();
        lemma_type_code(tree);
        if tree.payload().len() == 0 {
            assert(bytes =~= Seq::empty());
        } else {
            assert(bytes =~= header_bytes(tag, code) + tree.payload().drop_last());
            lemma_header_as_type(tag, code, tree.payload().drop_last());
            self.lemma_truncated(tree, struct_name, field);
        }
    }

    /// The pairs of a map from index `lo` on, the last value of which has
    /// lost its last byte, fail as running past the end.
    #[verifier::spinoff_prover]
    pub proof fn lemma_pairs_truncated(
        self,
        pairs: Seq<(Tree, Tree)>,
        lo: int,
        acc: Seq<(Tree, Tree)>,
        struct_name: &'static str,
        field: &'static str,
    )
        requires
            self is Pairs,
            self.sound(),
            0 <= lo < pairs.len(),
            self.admits(Tree::Pairs(pairs)),
            Tree::Pairs(pairs).writable(),
            !pairs.last().1.ends_in_struct(),
        ensures
            self.parse_pairs(
                wire_pairs(pairs, lo, pairs.len() as int).drop_last(),
                (pairs.len() - lo) as nat,
                acc,
                struct_name,
                field,
            ) == Parsed::<Seq<(Tree, Tree)>>::Fail(Failure::Eof),
        decreases self, 1nat, pairs.len() - lo,
    {
        let hi = pairs.len() as int;
        let kk = *self->Pairs_0;
        let vk = *self->Pairs_1;
        let (key, value) = pairs[lo];
        lemma_admits_pairs(self, pairs, pairs.len());
        lemma_writable_pairs(pairs, pairs.len());
        lemma_wire_pairs_front(pairs, lo, hi);
        let bytes = wire_pairs(pairs, lo, hi).drop_last();
        if lo + 1 < hi {
            lemma_wire_pairs_len(pairs, lo + 1, hi);
            let tail = wire_pairs(pairs, lo + 1, hi).drop_last();
            let mid = framed(1, value.type_code(), value.payload()) + tail;
            assert(bytes =~= framed(0, key.type_code(), key.payload()) + mid);
            kk.lemma_elem_round_trip(0, key, mid, struct_name, field);
            vk.lemma_elem_round_trip(1, value, tail, struct_name, field);
            self.lemma_parse_pairs_step(
                bytes,
                (hi - lo) as nat,
                acc,
                (key.type_code(), value.type_code()),
                (key.payload() + mid, value.payload() + tail),
                (key.normal(), value.normal()),
                (mid, tail),
                struct_name,
                field,
            );
            self.lemma_pairs_truncated(
                pairs,
                lo + 1,
                acc.push((key.normal(), value.normal())),
                struct_name,
                field,
            );
        } else {
            assert(wire_pairs(pairs, lo + 1, hi) =~= Seq::empty());
            assert(pairs[lo] == pairs.last());
            let mid = framed(1, value.type_code(), value.payload()).drop_last();
            lemma_type_code(value);
            assert(framed(1, value.type_code(), value.payload()).len() > 0);
            assert(bytes =~= framed(0, key.type_code(), key.payload()) + mid);
            kk.lemma_elem_round_trip(0, key, mid, struct_name, field);
            vk.lemma_elem_truncated(1, value, struct_name, field);
        }
    }
}

/// A length prefix that has lost its last byte fails as running past the end.
pub proof fn lemma_len_prefix_truncated(len: usize)
    ensures
        parse_len(len_prefix(len as nat).drop_last()) == Parsed::<usize>::Fail(Failure::Eof),
{
    let w = spec_len_bytes(len as nat);
    lemma_be_bytes_len(len as nat, w);
    let bytes = len_prefix(len as nat).drop_last();
    assert(bytes[0] == len_prefix(len as nat)[0]);
}

/// A value that was written at a tag and has lost its last byte fails as
/// running past the end: either its header cannot be read, or its header
/// is read and its payload is short. This holds of every value that does
/// not end in a nested structure; a reader that misses the end marker of
/// a structure at the end of its buffer takes the structure as complete.
pub proof fn lemma_wire_truncated(
    kind: Kind,
    tree: Tree,
    tag: u8,
    struct_name: &'static str,
    field: &'static str,
)
    requires
        kind.sound(),
        kind.admits(tree),
        tree.writable(),
        !tree.ends_in_struct(),
    ensures
        match parse_header(tree.wire(tag).drop_last()) {
            Parsed::Fail(f) => f == Failure::Eof,
            Parsed::Done(header, body) => header.tag == tag && header.val_type
                == tree.type_code() && kind.parse(body, header.val_type, struct_name, field)
                == Parsed::<Tree>::Fail(Failure::Eof),
        },
{
    let code = tree.type_code();
    let bytes = tree.wire(tag).drop_last();
    lemma_type_code(tree);
    if tree.payload().len() > 0 {
        let body = tree.payload().drop_last();
        assert(bytes =~= header_bytes(tag, code) + body);
        lemma_header_round_trip(tag, code, body);
        kind.lemma_truncated(tree, struct_name, field);
    } else if tag < 0xF {
        assert(bytes =~= Seq::empty());
    } else {
        let head = code | 0xF0;
        assert(head >> 4 == 0xF) by (bit_vector)
            requires
                head == code | 0xF0,
        ;
        assert(tree.payload() =~= Seq::empty());
        assert(bytes =~= seq![head]);
        assert(bytes[0] == head);
    }
}

/// A structure that was written and has lost its last byte fails as
/// running past the end, where its last field has a payload that does not
/// end in a nested structure, or has no payload and a header of two bytes.
/// Without the one byte of an absent last field at a tag below 15, or
/// without the end marker of a last nested structure, the bytes are those
/// of a shorter structure.
pub proof fn lemma_struct_truncated(schema: Schema, fields: Seq<(u8, Tree)>)
    requires
        schema.sound(),
        schema.admits(fields),
        Tree::Struct(fields).writable(),
        fields.len() > 0,
        !fields.last().1.ends_in_struct(),
        fields.last().1.payload().len() > 0 || fields.last().0 >= 0xF,
    ensures
        schema.parse_fields(
            schema.blank_fields(schema.fields@.len()),
            wire_struct(fields).drop_last(),
            true,
        ) == Parsed::<Seq<(u8, Tree)>>::Fail(Failure::Eof),
{
    let n = fields.len() as int;
    let (tag, x) = fields.last();
    let code = x.type_code();
    let blank = schema.blank_fields(schema.fields@.len());
    let front = fields.drop_last();
    let cut = framed(tag, code, x.payload()).drop_last();
    schema.lemma_blank_fields_len(schema.fields@.len());
    lemma_admits_fields(schema, fields, fields.len());
    lemma_writable_fields(fields, fields.len());
    schema.lemma_sound_fields(schema.fields@.len());
    lemma_type_code(x);
    assert forall|j: int| 0 <= j < front.len() implies schema.takes(#[trigger] front[j]) by {
        assert(front[j] == fields[j]);
        schema.lemma_index_of_own(j);
    }
    lemma_wire_fields_prefix(fields, 0, n - 1);
    assert(wire_fields(fields, 0, n).drop_last() =~= wire_fields(front, 0, n - 1) + cut);
    schema.lemma_read_bindings(blank, front, 0, cut, true);
    let state = schema.put_all(blank, front, 0);
    schema.lemma_index_of_own(n - 1);
    assert(schema.parse_fields(blank, wire_fields(fields, 0, n).drop_last(), true)
        == schema.parse_fields(state, cut, true));
    if x.payload().len() > 0 {
        let body = x.payload().drop_last();
        assert(cut =~= header_bytes(tag, code) + body);
        lemma_header_round_trip(tag, code, body);
        schema.fields@[n - 1].kind.lemma_truncated(x, schema.name, schema.fields@[n - 1].name);
        assert(schema.parse_field(state, tag, code, body) == Parsed::<Seq<(u8, Tree)>>::Fail(
            Failure::Eof,
        ));
        assert(cut.len() > 0);
    } else {
        let head = code | 0xF0;
        assert(head >> 4 == 0xF) by (bit_vector)
            requires
                head == code | 0xF0,
        ;
        assert(x.payload() =~= Seq::empty());
        assert(cut =~= seq![head]);
        assert(cut[0] == head);
        assert(parse_header(cut) == Parsed::<JceHeader>::Fail(
            Failure::Eof,
        ));
    }
}

/// The fields up to `hi` of a structure are those of the structure
/// without the fields from `hi` on.
pub proof fn lemma_wire_fields_prefix(fields: Seq<(u8, Tree)>, lo: int, hi: int)
    requires
        0 <= lo <= hi < fields.len(),
    ensures
        wire_fields(fields, lo, hi) == wire_fields(fields.drop_last(), lo, hi),
    decreases hi - lo,
{
    if lo < hi {
        lemma_wire_fields_prefix(fields, lo, hi - 1);
    }
}

} // verus!
