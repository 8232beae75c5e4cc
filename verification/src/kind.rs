//! The kinds of value and the layout of a structure.

use vstd::prelude::*;
use crate::tree::Tree;
use crate::types::{BYTE, DOUBLE, FLOAT, INT, LONG, SHORT};

verus! {

/// A kind of value: what a field is declared to hold.
#[derive(Debug)]
pub enum Kind {
    I8,
    U8,
    I16,
    U16,
    I32,
    U32,
    I64,
    U64,
    /// A floating-point number of four bytes, held by its bits.
    Float,
    /// A floating-point number of eight bytes, held by its bits.
    Double,
    Bool,
    /// A byte sequence of any length.
    Bytes,
    /// A byte sequence of exactly this length.
    FixedBytes(usize),
    /// A string, on the wire a byte sequence in UTF-8.
    Str,
    /// Elements of one kind.
    List(Box<Kind>),
    /// Pairs of a key of the first kind and a value of the second.
    Pairs(Box<Kind>, Box<Kind>),
    /// A value of the kind, or none.
    Optional(Box<Kind>),
    /// A nested structure.
    Struct(Box<Schema>),
}

/// A declared field of a structure.
#[derive(Debug)]
pub struct Field {
    pub tag: u8,
    pub name: &'static str,
    pub kind: Kind,
}

/// The layout of a structure: its name and its fields in the order of their
/// declaration, which need not be that of their tags.
#[derive(Debug)]
pub struct Schema {
    pub name: &'static str,
    pub fields: Vec<Field>,
}

impl Kind {
    /// Whether the kind is one of numbers or truth values.
    pub open spec fn is_scalar(self) -> bool {
        !(self is Bytes || self is FixedBytes || self is Str || self is List || self is Pairs
            || self is Optional || self is Struct)
    }

    /// The type code under which a scalar of the kind is read.
    pub open spec fn scalar_code(self) -> u8 {
        match self {
            Kind::I8 | Kind::U8 | Kind::Bool => BYTE,
            Kind::I16 | Kind::U16 => SHORT,
            Kind::I32 | Kind::U32 => INT,
            Kind::I64 | Kind::U64 => LONG,
            Kind::Float => FLOAT,
            _ => DOUBLE,
        }
    }

    /// The width in bytes of a scalar of the kind.
    pub open spec fn scalar_width(self) -> nat {
        match self {
            Kind::I8 | Kind::U8 | Kind::Bool => 1,
            Kind::I16 | Kind::U16 => 2,
            Kind::I32 | Kind::U32 | Kind::Float => 4,
            _ => 8,
        }
    }

    /// The scalar of the kind whose bytes spell `bits`. A signed integer
    /// takes them as its two's complement; a truth value is true unless
    /// they spell zero.
    pub open spec fn scalar(self, bits: nat) -> Tree {
        match self {
            Kind::I8 => Tree::I8((bits as u8) as i8),
            Kind::U8 => Tree::U8(bits as u8),
            Kind::I16 => Tree::I16((bits as u16) as i16),
            Kind::U16 => Tree::U16(bits as u16),
            Kind::I32 => Tree::I32((bits as u32) as i32),
            Kind::U32 => Tree::U32(bits as u32),
            Kind::I64 => Tree::I64((bits as u64) as i64),
            Kind::U64 => Tree::U64(bits as u64),
            Kind::Float => Tree::Float(bits as u32),
            Kind::Bool => Tree::Bool(bits != 0),
            _ => Tree::Double(bits as u64),
        }
    }

    /// The value that a field of the kind has until one is read: zero,
    /// false, empty, none; of a structure, the like in every field.
    pub open spec fn blank(self) -> Tree
        decreases self, 0nat,
    {
        match self {
            Kind::Bytes => Tree::Bytes(Seq::empty()),
            Kind::FixedBytes(n) => Tree::Bytes(Seq::new(n as nat, |i: int| 0u8)),
            Kind::Str => Tree::Str(Seq::empty()),
            Kind::List(_) => Tree::List(Seq::empty()),
            Kind::Pairs(_, _) => Tree::Pairs(Seq::empty()),
            Kind::Optional(_) => Tree::Optional(None),
            Kind::Struct(schema) => Tree::Struct(schema.blank_fields(schema.fields@.len())),
            _ => self.scalar(0),
        }
    }

    /// Whether `tree` is a value of the kind.
    pub open spec fn admits(self, tree: Tree) -> bool
        decreases self, 2nat, 0nat,
    {
        match self {
            Kind::I8 => tree is I8,
            Kind::U8 => tree is U8,
            Kind::I16 => tree is I16,
            Kind::U16 => tree is U16,
            Kind::I32 => tree is I32,
            Kind::U32 => tree is U32,
            Kind::I64 => tree is I64,
            Kind::U64 => tree is U64,
            Kind::Float => tree is Float,
            Kind::Double => tree is Double,
            Kind::Bool => tree is Bool,
            Kind::Bytes => tree is Bytes,
            Kind::FixedBytes(n) => tree matches Tree::Bytes(b) && b.len() == n,
            Kind::Str => tree is Str,
            Kind::List(_) => tree matches Tree::List(items) && self.admits_items(
                items,
                items.len(),
            ),
            Kind::Pairs(_, _) => tree matches Tree::Pairs(pairs) && self.admits_pairs(
                pairs,
                pairs.len(),
            ),
            Kind::Optional(k) => match tree {
                Tree::Optional(None) => true,
                Tree::Optional(Some(v)) => k.admits(*v),
                _ => false,
            },
            Kind::Struct(schema) => tree matches Tree::Struct(fields) && schema.admits(fields),
        }
    }

    /// Whether the first `n` of `items` are values of the element kind of
    /// this kind of list.
    pub open spec fn admits_items(self, items: Seq<Tree>, n: nat) -> bool
        decreases self, 1nat, n,
    {
        match self {
            Kind::List(k) => if n == 0 || n > items.len() {
                true
            } else {
                self.admits_items(items, (n - 1) as nat) && k.admits(items[n - 1])
            },
            _ => false,
        }
    }

    /// Whether the first `n` of `pairs` hold keys and values of the two
    /// kinds of this kind of map.
    pub open spec fn admits_pairs(self, pairs: Seq<(Tree, Tree)>, n: nat) -> bool
        decreases self, 1nat, n,
    {
        match self {
            Kind::Pairs(kk, vk) => if n == 0 || n > pairs.len() {
                true
            } else {
                self.admits_pairs(pairs, (n - 1) as nat) && kk.admits(pairs[n - 1].0)
                    && vk.admits(pairs[n - 1].1)
            },
            _ => false,
        }
    }
}

impl Schema {
    /// The index of the first declared field with `tag` from index `from` on.
    pub open spec fn find(self, tag: u8, from: int) -> Option<int>
        decreases self.fields@.len() - from,
    {
        if from < 0 || from >= self.fields@.len() {
            None
        } else if self.fields@[from].tag == tag {
            Some(from)
        } else {
            self.find(tag, from + 1)
        }
    }

    /// The index of the first declared field with `tag`.
    pub open spec fn index_of(self, tag: u8) -> Option<int> {
        self.find(tag, 0)
    }

    /// Whether no two declared fields have one tag.
    pub open spec fn distinct_tags(self) -> bool {
        forall|i: int, j: int|
            0 <= i < j < self.fields@.len() ==> (#[trigger] self.fields@[i]).tag != (
            #[trigger] self.fields@[j]).tag
    }

    /// The first `n` fields, each with the blank value of its kind.
    pub open spec fn blank_fields(self, n: nat) -> Seq<(u8, Tree)>
        decreases self, n,
    {
        if n == 0 || n > self.fields@.len() {
            Seq::empty()
        } else {
            self.blank_fields((n - 1) as nat).push(
                (self.fields@[n - 1].tag, self.fields@[n - 1].kind.blank()),
            )
        }
    }

    /// Whether `fields` are the fields of the structure: as many, in the
    /// order of declaration, each with its tag and a value of its kind.
    pub open spec fn admits(self, fields: Seq<(u8, Tree)>) -> bool
        decreases self, 1nat, fields.len() + 1,
    {
        fields.len() == self.fields@.len() && self.admits_fields(fields, fields.len())
    }

    /// Whether the first `n` of `fields` have the tags of the first `n`
    /// declared fields and values of their kinds.
    pub open spec fn admits_fields(self, fields: Seq<(u8, Tree)>, n: nat) -> bool
        decreases self, 1nat, n,
    {
        if n == 0 || n > fields.len() || n > self.fields@.len() {
            true
        } else {
            self.admits_fields(fields, (n - 1) as nat) && fields[n - 1].0 == self.fields@[n
                - 1].tag && self.fields@[n - 1].kind.admits(fields[n - 1].1)
        }
    }
}

/// A list is of a kind of list where each of its items is of the element kind.
pub proof fn lemma_admits_items(kind: Kind, items: Seq<Tree>, n: nat)
    requires
        kind is List,
        n <= items.len(),
    ensures
        kind.admits_items(items, n) <==> forall|i: int|
            0 <= i < n ==> kind->List_0.admits(#[trigger] items[i]),
    decreases n,
{
    if n > 0 {
        lemma_admits_items(kind, items, (n - 1) as nat);
    }
}

/// A map is of a kind of map where each key and each value is of its kind.
pub proof fn lemma_admits_pairs(kind: Kind, pairs: Seq<(Tree, Tree)>, n: nat)
    requires
        kind is Pairs,
        n <= pairs.len(),
    ensures
        kind.admits_pairs(pairs, n) <==> forall|i: int|
            0 <= i < n ==> kind->Pairs_0.admits((#[trigger] pairs[i]).0) && kind->Pairs_1.admits(
                pairs[i].1,
            ),
    decreases n,
{
    if n > 0 {
        lemma_admits_pairs(kind, pairs, (n - 1) as nat);
    }
}

/// Fields are those of a structure where each has the tag and a value of
/// the kind of the declared field in its place.
pub proof fn lemma_admits_fields(schema: Schema, fields: Seq<(u8, Tree)>, n: nat)
    requires
        n <= fields.len(),
        n <= schema.fields@.len(),
    ensures
        schema.admits_fields(fields, n) <==> forall|i: int|
            0 <= i < n ==> (#[trigger] fields[i]).0 == schema.fields@[i].tag
                && schema.fields@[i].kind.admits(fields[i].1),
    decreases n,
{
    if n > 0 {
        lemma_admits_fields(schema, fields, (n - 1) as nat);
    }
}

impl Schema {
    /// The blank fields are as many as were asked for.
    pub proof fn lemma_blank_fields_len(self, n: nat)
        requires
            n <= self.fields@.len(),
        ensures
            self.blank_fields(n).len() == n,
        decreases n,
    {
        if n > 0 {
            self.lemma_blank_fields_len((n - 1) as nat);
        }
    }
}

impl Kind {
    /// Whether every structure within the kind has distinct tags.
    pub open spec fn sound(self) -> bool
        decreases self, 2nat, 0nat,
    {
        match self {
            Kind::List(k) => k.sound(),
            Kind::Pairs(kk, vk) => kk.sound() && vk.sound(),
            Kind::Optional(k) => k.sound(),
            Kind::Struct(schema) => schema.sound(),
            _ => true,
        }
    }
}

impl Schema {
    /// Whether the structure, and every structure within its fields, has
    /// distinct tags.
    pub open spec fn sound(self) -> bool
        decreases self, 1nat, self.fields@.len() + 1,
    {
        self.distinct_tags() && self.sound_fields(self.fields@.len())
    }

    /// Whether every structure within the first `n` fields has distinct tags.
    pub open spec fn sound_fields(self, n: nat) -> bool
        decreases self, 1nat, n,
    {
        if n == 0 || n > self.fields@.len() {
            true
        } else {
            self.sound_fields((n - 1) as nat) && self.fields@[n - 1].kind.sound()
        }
    }

    /// The first `n` fields are sound where each of them is.
    pub proof fn lemma_sound_fields(self, n: nat)
        requires
            n <= self.fields@.len(),
        ensures
            self.sound_fields(n) <==> forall|i: int|
                0 <= i < n ==> (#[trigger] self.fields@[i]).kind.sound(),
        decreases n,
    {
        if n > 0 {
            self.lemma_sound_fields((n - 1) as nat);
        }
    }

    /// A tag that is found is found at the first index that has it; a tag
    /// that is not found is at no index.
    pub proof fn lemma_find(self, tag: u8, from: int)
        requires
            0 <= from,
        ensures
            self.find(tag, from) matches Some(i) ==> from <= i < self.fields@.len()
                && self.fields@[i].tag == tag && forall|j: int|
                from <= j < i ==> (#[trigger] self.fields@[j]).tag != tag,
            self.find(tag, from) is None ==> forall|i: int|
                from <= i < self.fields@.len() ==> (#[trigger] self.fields@[i]).tag != tag,
        decreases self.fields@.len() - from,
    {
        if from < self.fields@.len() && self.fields@[from].tag != tag {
            self.lemma_find(tag, from + 1);
        }
    }

    /// With distinct tags, a declared field is found at its own index.
    pub proof fn lemma_index_of_own(self, i: int)
        requires
            self.distinct_tags(),
            0 <= i < self.fields@.len(),
        ensures
            self.index_of(self.fields@[i].tag) == Some(i),
    {
        self.lemma_find(self.fields@[i].tag, 0);
    }
}

} // verus!
