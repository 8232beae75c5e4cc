//! Values of any kind, as programs hold them.

use vstd::prelude::*;
use crate::cursor::put_be;
use crate::ser::{write_empty, write_header, write_len, write_type};
use crate::tree::{
    lemma_writable_fields, lemma_writable_items, lemma_writable_pairs, wire_fields, wire_items,
    wire_pairs, wire_struct, writable_fields, Tree,
};
use crate::typed::JceType;
use crate::types::{JceHeader, DOUBLE, FLOAT, LIST, MAP, STRUCT_END, STRUCT_START};

verus! {

/// A value of the format. A floating-point number is held by its bits.
#[derive(Debug, PartialEq)]
pub enum Datum {
    I8(i8),
    U8(u8),
    I16(i16),
    U16(u16),
    I32(i32),
    U32(u32),
    I64(i64),
    U64(u64),
    Float(u32),
    Double(u64),
    Bool(bool),
    Bytes(Vec<u8>),
    Str(String),
    List(Vec<Datum>),
    Pairs(Vec<(Datum, Datum)>),
    Optional(Option<Box<Datum>>),
    Struct(Record),
}

/// A structure: its fields in the order in which they are written, each
/// with its tag.
#[derive(Debug, PartialEq)]
pub struct Record {
    pub fields: Vec<(u8, Datum)>,
}

impl Datum {
    /// The value as contracts speak of it.
    pub open spec fn tree(&self) -> Tree
        decreases self,
    {
        match self {
            Datum::I8(v) => Tree::I8(*v),
            Datum::U8(v) => Tree::U8(*v),
            Datum::I16(v) => Tree::I16(*v),
            Datum::U16(v) => Tree::U16(*v),
            Datum::I32(v) => Tree::I32(*v),
            Datum::U32(v) => Tree::U32(*v),
            Datum::I64(v) => Tree::I64(*v),
            Datum::U64(v) => Tree::U64(*v),
            Datum::Float(v) => Tree::Float(*v),
            Datum::Double(v) => Tree::Double(*v),
            Datum::Bool(v) => Tree::Bool(*v),
            Datum::Bytes(v) => Tree::Bytes(v@),
            Datum::Str(v) => Tree::Str(v@),
            Datum::List(v) => Tree::List(items_view(v@, v@.len())),
            Datum::Pairs(v) => Tree::Pairs(pairs_view(v@, v@.len())),
            Datum::Optional(None) => Tree::Optional(None),
            Datum::Optional(Some(v)) => Tree::Optional(Some(Box::new(v.tree()))),
            Datum::Struct(r) => Tree::Struct(fields_view(r.fields@, r.fields@.len())),
        }
    }
}

impl View for Datum {
    type V = Tree;

    open spec fn view(&self) -> Tree {
        self.tree()
    }
}

impl View for Record {
    type V = Seq<(u8, Tree)>;

    open spec fn view(&self) -> Seq<(u8, Tree)> {
        fields_view(self.fields@, self.fields@.len())
    }
}

/// The first `n` of `items` as contracts speak of them.
pub open spec fn items_view(items: Seq<Datum>, n: nat) -> Seq<Tree>
    decreases items, n,
{
    if n == 0 || n > items.len() {
        Seq::empty()
    } else {
        items_view(items, (n - 1) as nat).push(items[n - 1].tree())
    }
}

/// The first `n` of `pairs` as contracts speak of them.
pub open spec fn pairs_view(pairs: Seq<(Datum, Datum)>, n: nat) -> Seq<(Tree, Tree)>
    decreases pairs, n,
{
    if n == 0 || n > pairs.len() {
        Seq::empty()
    } else {
        pairs_view(pairs, (n - 1) as nat).push((pairs[n - 1].0.tree(), pairs[n - 1].1.tree()))
    }
}

/// The first `n` of `fields` as contracts speak of them.
pub open spec fn fields_view(fields: Seq<(u8, Datum)>, n: nat) -> Seq<(u8, Tree)>
    decreases fields, n,
{
    if n == 0 || n > fields.len() {
        Seq::empty()
    } else {
        fields_view(fields, (n - 1) as nat).push((fields[n - 1].0, fields[n - 1].1.tree()))
    }
}

/// The view of items is as long as they are, and holds the view of each.
pub proof fn lemma_items_view(items: Seq<Datum>, n: nat)
    requires
        n <= items.len(),
    ensures
        items_view(items, n).len() == n,
        forall|i: int| 0 <= i < n ==> #[trigger] items_view(items, n)[i] == items[i]@,
    decreases n,
{
    if n > 0 {
        lemma_items_view(items, (n - 1) as nat);
    }
}

/// The view of pairs is as long as they are, and holds the views of each.
pub proof fn lemma_pairs_view(pairs: Seq<(Datum, Datum)>, n: nat)
    requires
        n <= pairs.len(),
    ensures
        pairs_view(pairs, n).len() == n,
        forall|i: int|
            0 <= i < n ==> #[trigger] pairs_view(pairs, n)[i] == (pairs[i].0@, pairs[i].1@),
    decreases n,
{
    if n > 0 {
        lemma_pairs_view(pairs, (n - 1) as nat);
    }
}

/// The view of fields is as long as they are, and holds the tag and the view of each.
pub proof fn lemma_fields_view(fields: Seq<(u8, Datum)>, n: nat)
    requires
        n <= fields.len(),
    ensures
        fields_view(fields, n).len() == n,
        forall|i: int|
            0 <= i < n ==> #[trigger] fields_view(fields, n)[i] == (fields[i].0, fields[i].1@),
    decreases n,
{
    if n > 0 {
        lemma_fields_view(fields, (n - 1) as nat);
    }
}

impl Datum {
    /// Appends the value at `tag`: its header, then its payload.
    pub fn write(&self, buf: &mut Vec<u8>, tag: u8)
        requires
            self@.writable(),
        ensures
            final(buf)@ == old(buf)@ + self@.wire(tag),
        decreases self,
    {
        match self {
            Datum::I8(v) => v.write(buf, tag),
            Datum::U8(v) => v.write(buf, tag),
            Datum::I16(v) => v.write(buf, tag),
            Datum::U16(v) => v.write(buf, tag),
            Datum::I32(v) => v.write(buf, tag),
            Datum::U32(v) => v.write(buf, tag),
            Datum::I64(v) => v.write(buf, tag),
            Datum::U64(v) => v.write(buf, tag),
            Datum::Float(v) => {
                write_header(buf, JceHeader { val_type: FLOAT, tag });
                put_be(buf, *v as u64, 4);
            },
            Datum::Double(v) => {
                write_header(buf, JceHeader { val_type: DOUBLE, tag });
                put_be(buf, *v, 8);
            },
            Datum::Bool(v) => v.write(buf, tag),
            Datum::Bytes(v) => v.write(buf, tag),
            Datum::Str(v) => v.write(buf, tag),
            Datum::List(items) => {
                write_header(buf, JceHeader { val_type: LIST, tag });
                write_len(buf, items.len());
                let ghost trees = items_view(items@, items@.len());
                let ghost front = buf@;
                proof {
                    lemma_items_view(items@, items@.len());
                    assert(self@ == Tree::List(trees));
                    lemma_writable_items(trees, trees.len());
                }
                let mut i: usize = 0;
                while i < items.len()
                    invariant
                        i <= items.len(),
                        *self == Datum::List(*items),
                        trees == items_view(items@, items@.len()),
                        trees.len() == items@.len(),
                        forall|j: int| 0 <= j < trees.len() ==> #[trigger] trees[j] == items@[j]@,
                        forall|j: int| 0 <= j < trees.len() ==> (#[trigger] trees[j]).writable(),
                        buf@ == front + wire_items(trees, 0, i as int),
                    decreases items.len() - i,
                {
                    proof {
                        assert(trees[i as int].writable());
                        assert(decreases_to!(*self => self->List_0));
                        assert(decreases_to!(*items => items[i as int]));
                    }
                    items[i].write(buf, 0);
                    i = i + 1;
                }
            },
            Datum::Pairs(pairs) => {
                write_header(buf, JceHeader { val_type: MAP, tag });
                write_len(buf, pairs.len());
                let ghost trees = pairs_view(pairs@, pairs@.len());
                let ghost front = buf@;
                proof {
                    lemma_pairs_view(pairs@, pairs@.len());
                    assert(self@ == Tree::Pairs(trees));
                    lemma_writable_pairs(trees, trees.len());
                }
                let mut i: usize = 0;
                while i < pairs.len()
                    invariant
                        i <= pairs.len(),
                        *self == Datum::Pairs(*pairs),
                        trees == pairs_view(pairs@, pairs@.len()),
                        trees.len() == pairs@.len(),
                        forall|j: int|
                            0 <= j < trees.len() ==> #[trigger] trees[j] == (
                                pairs@[j].0@,
                                pairs@[j].1@,
                            ),
                        forall|j: int|
                            0 <= j < trees.len() ==> (#[trigger] trees[j]).0.writable()
                                && trees[j].1.writable(),
                        buf@ == front + wire_pairs(trees, 0, i as int),
                    decreases pairs.len() - i,
                {
                    proof {
                        assert(trees[i as int].0.writable());
                        assert(decreases_to!(*self => self->Pairs_0));
                        assert(decreases_to!(*pairs => pairs[i as int]));
                    }
                    pairs[i].0.write(buf, 0);
                    pairs[i].1.write(buf, 1);
                    i = i + 1;
                }
            },
            Datum::Optional(None) => write_empty(buf, tag),
            Datum::Optional(Some(v)) => v.write(buf, tag),
            Datum::Struct(r) => {
                write_header(buf, JceHeader { val_type: STRUCT_START, tag });
                proof {
                    assert(self@ == Tree::Struct(r@));
                }
                r.encode_fields(buf);
                write_type(buf, STRUCT_END);
            },
        }
    }
}

impl Record {
    /// Appends the fields, each at its tag, in their order.
    pub fn encode_fields(&self, buf: &mut Vec<u8>)
        requires
            Tree::Struct(self@).writable(),
        ensures
            final(buf)@ == old(buf)@ + wire_struct(self@),
        decreases self,
    {
        proof {
            lemma_fields_view(self.fields@, self.fields@.len());
            lemma_writable_fields(self@, self@.len());
        }
        let mut i: usize = 0;
        while i < self.fields.len()
            invariant
                i <= self.fields.len(),
                self@.len() == self.fields@.len(),
                forall|j: int|
                    0 <= j < self@.len() ==> #[trigger] self@[j] == (
                        self.fields@[j].0,
                        self.fields@[j].1@,
                    ),
                forall|j: int| 0 <= j < self@.len() ==> (#[trigger] self@[j]).1.writable(),
                buf@ == old(buf)@ + wire_fields(self@, 0, i as int),
            decreases self.fields.len() - i,
        {
            proof {
                assert(self@[i as int].1.writable());
                assert(decreases_to!(self.fields => self.fields[i as int]));
            }
            self.fields[i].1.write(buf, self.fields[i].0);
            i = i + 1;
        }
    }
}

impl Datum {
    /// Whether the value can be written: whether no byte sequence in it,
    /// and no string in its UTF-8 form, is longer than four bytes of length
    /// can say.
    pub fn is_writable(&self) -> (r: bool)
        ensures
            r == self@.writable(),
        decreases self,
    {
        match self {
            Datum::Bytes(v) => v.len() <= 0xFFFF_FFFF,
            Datum::Str(v) => v.as_str().as_bytes().len() <= 0xFFFF_FFFF,
            Datum::List(items) => {
                let ghost trees = items_view(items@, items@.len());
                let count = items.len();
                proof {
                    lemma_items_view(items@, items@.len());
                    assert(self@ == Tree::List(trees));
                    lemma_writable_items(trees, trees.len());
                    assert(trees.len() == count);
                }
                let mut i: usize = 0;
                while i < items.len()
                    invariant
                        i <= items.len(),
                        *self == Datum::List(*items),
                        trees.len() == items@.len(),
                        forall|j: int| 0 <= j < trees.len() ==> #[trigger] trees[j] == items@[j]@,
                        forall|j: int| 0 <= j < i ==> (#[trigger] trees[j]).writable(),
                        Tree::List(trees).writable() <==> forall|j: int|
                            0 <= j < trees.len() ==> (#[trigger] trees[j]).writable(),
                        self@ == Tree::List(trees),
                    decreases items.len() - i,
                {
                    proof {
                        assert(decreases_to!(*self => self->List_0));
                        assert(decreases_to!(*items => items[i as int]));
                    }
                    if !items[i].is_writable() {
                        assert(!trees[i as int].writable());
                        return false;
                    }
                    i = i + 1;
                }
                true
            },
            Datum::Pairs(pairs) => {
                let ghost trees = pairs_view(pairs@, pairs@.len());
                let count = pairs.len();
                proof {
                    lemma_pairs_view(pairs@, pairs@.len());
                    assert(self@ == Tree::Pairs(trees));
                    lemma_writable_pairs(trees, trees.len());
                    assert(trees.len() == count);
                }
                let mut i: usize = 0;
                while i < pairs.len()
                    invariant
                        i <= pairs.len(),
                        *self == Datum::Pairs(*pairs),
                        trees.len() == pairs@.len(),
                        forall|j: int|
                            0 <= j < trees.len() ==> #[trigger] trees[j] == (
                                pairs@[j].0@,
                                pairs@[j].1@,
                            ),
                        forall|j: int|
                            0 <= j < i ==> (#[trigger] trees[j]).0.writable()
                                && trees[j].1.writable(),
                        Tree::Pairs(trees).writable() <==> forall|j: int|
                            0 <= j < trees.len() ==> (#[trigger] trees[j]).0.writable()
                                && trees[j].1.writable(),
                        self@ == Tree::Pairs(trees),
                    decreases pairs.len() - i,
                {
                    proof {
                        assert(decreases_to!(*self => self->Pairs_0));
                        assert(decreases_to!(*pairs => pairs[i as int]));
                    }
                    if !pairs[i].0.is_writable() || !pairs[i].1.is_writable() {
                        assert(!(trees[i as int].0.writable() && trees[i as int].1.writable()));
                        return false;
                    }
                    i = i + 1;
                }
                true
            },
            Datum::Optional(Some(v)) => v.is_writable(),
            Datum::Struct(r) => {
                proof {
                    assert(self@ == Tree::Struct(r@));
                }
                r.is_writable()
            },
            _ => true,
        }
    }
}

impl Record {
    /// Whether the value of every field can be written.
    pub fn is_writable(&self) -> (r: bool)
        ensures
            r == Tree::Struct(self@).writable(),
        decreases self,
    {
        proof {
            lemma_fields_view(self.fields@, self.fields@.len());
            lemma_writable_fields(self@, self@.len());
        }
        let mut i: usize = 0;
        while i < self.fields.len()
            invariant
                i <= self.fields.len(),
                self@.len() == self.fields@.len(),
                forall|j: int|
                    0 <= j < self@.len() ==> #[trigger] self@[j] == (
                        self.fields@[j].0,
                        self.fields@[j].1@,
                    ),
                forall|j: int| 0 <= j < i ==> (#[trigger] self@[j]).1.writable(),
                writable_fields(self@, self@.len()) <==> forall|j: int|
                    0 <= j < self@.len() ==> (#[trigger] self@[j]).1.writable(),
            decreases self.fields.len() - i,
        {
            proof {
                assert(decreases_to!(self.fields => self.fields[i as int]));
            }
            if !self.fields[i].1.is_writable() {
                assert(!self@[i as int].1.writable());
                return false;
            }
            i = i + 1;
        }
        true
    }
}

} // verus!
