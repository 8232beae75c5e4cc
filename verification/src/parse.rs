//! What reading a value of a kind makes of a byte sequence.
//!
//! Each function here says, for every byte sequence, which value a reader
//! finds at its front and what it leaves, or how it fails; the first
//! failure on the way from left to right is the one that counts.

use vstd::prelude::*;
use vstd::utf8::{decode_utf8, valid_utf8};
use crate::cursor::be_value;
use crate::de::{parse_header, parse_len, parse_type, Parsed};
use crate::error::Failure;
use crate::kind::{lemma_admits_fields, lemma_admits_items, lemma_admits_pairs, Kind, Schema};
use crate::skip::{lemma_skip_shortens, skip};
use crate::tree::Tree;
use crate::types::{
    BYTE, EMPTY, LIST, LONG_BYTES, MAP, SHORT_BYTES, SINGLE_LIST, STRUCT_END, STRUCT_START,
};

verus! {

/// The failure of a field that was found under a type code `t` which its
/// kind does not read.
pub open spec fn mismatch(t: u8, struct_name: &'static str, field: &'static str) -> Failure {
    Failure::IncorrectType { struct_name, field, val_type: t }
}

/// The length of a byte sequence that stands under type code `t`: one byte
/// of length, four bytes, or, for a packed list, the type code of a byte
/// and a length prefix.
pub open spec fn parse_bytes_len(
    bytes: Seq<u8>,
    t: u8,
    struct_name: &'static str,
    field: &'static str,
) -> Parsed<usize> {
    if t == SHORT_BYTES {
        if bytes.len() < 1 {
            Parsed::Fail(Failure::Eof)
        } else {
            Parsed::Done(bytes[0] as usize, bytes.skip(1))
        }
    } else if t == LONG_BYTES {
        if bytes.len() < 4 {
            Parsed::Fail(Failure::Eof)
        } else {
            Parsed::Done(be_value(bytes.take(4)) as usize, bytes.skip(4))
        }
    } else if t == SINGLE_LIST {
        match parse_type(bytes) {
            Parsed::Fail(f) => Parsed::Fail(f),
            Parsed::Done(tt, rest) => if tt != BYTE {
                Parsed::Fail(mismatch(tt, struct_name, field))
            } else {
                parse_len(rest)
            },
        }
    } else {
        Parsed::Fail(mismatch(t, struct_name, field))
    }
}

/// The first `len` bytes as they are.
pub open spec fn parse_slice(bytes: Seq<u8>, len: nat) -> Parsed<Seq<u8>> {
    if bytes.len() < len {
        Parsed::Fail(Failure::Eof)
    } else {
        Parsed::Done(bytes.take(len as int), bytes.skip(len as int))
    }
}

/// `count` bytes that stand as the elements of a list, each behind its own
/// type code, added to `acc`.
pub open spec fn parse_byte_items(
    bytes: Seq<u8>,
    count: nat,
    acc: Seq<u8>,
    struct_name: &'static str,
    field: &'static str,
) -> Parsed<Seq<u8>>
    decreases count,
{
    if count == 0 {
        Parsed::Done(acc, bytes)
    } else {
        match parse_type(bytes) {
            Parsed::Fail(f) => Parsed::Fail(f),
            Parsed::Done(tt, rest) => if tt != BYTE {
                Parsed::Fail(mismatch(tt, struct_name, field))
            } else if rest.len() < 1 {
                Parsed::Fail(Failure::Eof)
            } else {
                parse_byte_items(
                    rest.skip(1),
                    (count - 1) as nat,
                    acc.push(rest[0]),
                    struct_name,
                    field,
                )
            },
        }
    }
}

/// A byte sequence of fixed length `n`, which a list of single bytes cannot
/// stand for.
pub open spec fn parse_fixed_bytes(
    bytes: Seq<u8>,
    t: u8,
    n: nat,
    struct_name: &'static str,
    field: &'static str,
) -> Parsed<Seq<u8>> {
    match parse_bytes_len(bytes, t, struct_name, field) {
        Parsed::Fail(f) => Parsed::Fail(f),
        Parsed::Done(len, rest) => if len != n {
            Parsed::Fail(Failure::InvalidLength)
        } else {
            parse_slice(rest, n)
        },
    }
}

/// A byte sequence in any of the forms that writers give it: behind a
/// length of one or of four bytes, as a list of single bytes, or as a
/// packed list of bytes.
pub open spec fn parse_bytes(
    bytes: Seq<u8>,
    t: u8,
    struct_name: &'static str,
    field: &'static str,
) -> Parsed<Seq<u8>> {
    if t == LIST {
        match parse_len(bytes) {
            Parsed::Fail(f) => Parsed::Fail(f),
            Parsed::Done(n, rest) => parse_byte_items(
                rest,
                n as nat,
                Seq::empty(),
                struct_name,
                field,
            ),
        }
    } else {
        match parse_bytes_len(bytes, t, struct_name, field) {
            Parsed::Fail(f) => Parsed::Fail(f),
            Parsed::Done(len, rest) => parse_slice(rest, len as nat),
        }
    }
}

impl Kind {
    /// A scalar of the kind: as many bytes as it is wide, under its own
    /// type code and no other.
    pub open spec fn parse_scalar(
        self,
        bytes: Seq<u8>,
        t: u8,
        struct_name: &'static str,
        field: &'static str,
    ) -> Parsed<Tree> {
        if t != self.scalar_code() {
            Parsed::Fail(mismatch(t, struct_name, field))
        } else if bytes.len() < self.scalar_width() {
            Parsed::Fail(Failure::Eof)
        } else {
            Parsed::Done(
                self.scalar(be_value(bytes.take(self.scalar_width() as int))),
                bytes.skip(self.scalar_width() as int),
            )
        }
    }

    /// A value of the kind that was found under type code `t`, read from
    /// the front of `bytes`. The two names go into the failure of a type
    /// code that the kind does not read.
    pub open spec fn parse(
        self,
        bytes: Seq<u8>,
        t: u8,
        struct_name: &'static str,
        field: &'static str,
    ) -> Parsed<Tree>
        decreases self, 2nat, 0nat,
    {
        match self {
            Kind::Bytes => match parse_bytes(bytes, t, struct_name, field) {
                Parsed::Fail(f) => Parsed::Fail(f),
                Parsed::Done(b, rest) => Parsed::Done(Tree::Bytes(b), rest),
            },
            Kind::FixedBytes(n) => match parse_fixed_bytes(bytes, t, n as nat, struct_name, field) {
                Parsed::Fail(f) => Parsed::Fail(f),
                Parsed::Done(b, rest) => Parsed::Done(Tree::Bytes(b), rest),
            },
            Kind::Str => match parse_bytes(bytes, t, struct_name, field) {
                Parsed::Fail(f) => Parsed::Fail(f),
                Parsed::Done(b, rest) => if valid_utf8(b) {
                    Parsed::Done(Tree::Str(decode_utf8(b)), rest)
                } else {
                    Parsed::Fail(Failure::String)
                },
            },
            Kind::List(_) => if t != LIST {
                Parsed::Fail(mismatch(t, struct_name, field))
            } else {
                match parse_len(bytes) {
                    Parsed::Fail(f) => Parsed::Fail(f),
                    Parsed::Done(n, rest) => match self.parse_items(
                        rest,
                        n as nat,
                        Seq::empty(),
                        struct_name,
                        field,
                    ) {
                        Parsed::Fail(f) => Parsed::Fail(f),
                        Parsed::Done(items, rest) => Parsed::Done(Tree::List(items), rest),
                    },
                }
            },
            Kind::Pairs(_, _) => if t != MAP {
                Parsed::Fail(mismatch(t, struct_name, field))
            } else {
                match parse_len(bytes) {
                    Parsed::Fail(f) => Parsed::Fail(f),
                    Parsed::Done(n, rest) => match self.parse_pairs(
                        rest,
                        n as nat,
                        Seq::empty(),
                        struct_name,
                        field,
                    ) {
                        Parsed::Fail(f) => Parsed::Fail(f),
                        Parsed::Done(pairs, rest) => Parsed::Done(Tree::Pairs(pairs), rest),
                    },
                }
            },
            Kind::Optional(k) => if t == EMPTY {
                Parsed::Done(Tree::Optional(None), bytes)
            } else {
                match k.parse(bytes, t, struct_name, field) {
                    Parsed::Fail(f) => Parsed::Fail(f),
                    Parsed::Done(v, rest) => Parsed::Done(Tree::Optional(Some(Box::new(v))), rest),
                }
            },
            Kind::Struct(schema) => if t == EMPTY {
                Parsed::Done(self.blank(), bytes)
            } else if t != STRUCT_START {
                Parsed::Fail(mismatch(t, struct_name, field))
            } else {
                match schema.parse_fields(
                    schema.blank_fields(schema.fields@.len()),
                    bytes,
                    false,
                ) {
                    Parsed::Fail(f) => Parsed::Fail(f),
                    Parsed::Done(fields, rest) => Parsed::Done(Tree::Struct(fields), rest),
                }
            },
            _ => self.parse_scalar(bytes, t, struct_name, field),
        }
    }

    /// `count` elements of a list of this kind, each behind a byte with its
    /// type code, added to `acc`. It is asked of a kind of list; of any
    /// other kind it fails.
    pub open spec fn parse_items(
        self,
        bytes: Seq<u8>,
        count: nat,
        acc: Seq<Tree>,
        struct_name: &'static str,
        field: &'static str,
    ) -> Parsed<Seq<Tree>>
        decreases self, 1nat, count,
    {
        match self {
            Kind::List(k) => if count == 0 {
                Parsed::Done(acc, bytes)
            } else {
                match parse_type(bytes) {
                    Parsed::Fail(f) => Parsed::Fail(f),
                    Parsed::Done(t, rest) => match k.parse(rest, t, struct_name, field) {
                        Parsed::Fail(f) => Parsed::Fail(f),
                        Parsed::Done(v, rest) => self.parse_items(
                            rest,
                            (count - 1) as nat,
                            acc.push(v),
                            struct_name,
                            field,
                        ),
                    },
                }
            },
            _ => Parsed::Fail(Failure::InvalidType),
        }
    }

    /// `count` pairs of a map of this kind, key and value each behind a
    /// byte with its type code, added to `acc`. It is asked of a kind of map;
    /// of any other kind it fails.
    pub open spec fn parse_pairs(
        self,
        bytes: Seq<u8>,
        count: nat,
        acc: Seq<(Tree, Tree)>,
        struct_name: &'static str,
        field: &'static str,
    ) -> Parsed<Seq<(Tree, Tree)>>
        decreases self, 1nat, count,
    {
        match self {
            Kind::Pairs(kk, vk) => if count == 0 {
                Parsed::Done(acc, bytes)
            } else {
                match parse_type(bytes) {
                    Parsed::Fail(f) => Parsed::Fail(f),
                    Parsed::Done(kt, rest) => match kk.parse(rest, kt, struct_name, field) {
                        Parsed::Fail(f) => Parsed::Fail(f),
                        Parsed::Done(k, rest) => match parse_type(rest) {
                            Parsed::Fail(f) => Parsed::Fail(f),
                            Parsed::Done(vt, rest) => match vk.parse(rest, vt, struct_name, field) {
                                Parsed::Fail(f) => Parsed::Fail(f),
                                Parsed::Done(v, rest) => self.parse_pairs(
                                    rest,
                                    (count - 1) as nat,
                                    acc.push((k, v)),
                                    struct_name,
                                    field,
                                ),
                            },
                        },
                    },
                }
            },
            _ => Parsed::Fail(Failure::InvalidType),
        }
    }
}

impl Schema {
    /// What one field behind its header makes of the fields read so far:
    /// a declared tag has its value read and put in its place, any other
    /// has its value stepped over.
    pub open spec fn parse_field(
        self,
        fields: Seq<(u8, Tree)>,
        tag: u8,
        t: u8,
        bytes: Seq<u8>,
    ) -> Parsed<Seq<(u8, Tree)>>
        decreases self, 0nat, 0nat,
    {
        match self.index_of(tag) {
            Some(i) => {
                proof {
                    self.lemma_find(tag, 0);
                }
                match self.fields@[i].kind.parse(bytes, t, self.name, self.fields@[i].name) {
                    Parsed::Fail(f) => Parsed::Fail(f),
                    Parsed::Done(v, rest) => Parsed::Done(fields.update(i, (tag, v)), rest),
                }
            },
            None => match skip(bytes, t) {
                Parsed::Fail(f) => Parsed::Fail(f),
                Parsed::Done(_, rest) => Parsed::Done(fields, rest),
            },
        }
    }

    /// The fields of a structure, read into `fields` until the bytes end
    /// or, unless `to_end`, until a header with the end marker has been
    /// taken. A field takes its header at least, so that the test on the
    /// length never fails: it is there to show that the definition ends.
    pub open spec fn parse_fields(
        self,
        fields: Seq<(u8, Tree)>,
        bytes: Seq<u8>,
        to_end: bool,
    ) -> Parsed<Seq<(u8, Tree)>>
        decreases self, 1nat, bytes.len(),
    {
        if bytes.len() == 0 {
            Parsed::Done(fields, bytes)
        } else {
            match parse_header(bytes) {
                Parsed::Fail(f) => Parsed::Fail(f),
                Parsed::Done(header, rest) => if !to_end && header.val_type == STRUCT_END {
                    Parsed::Done(fields, rest)
                } else {
                    match self.parse_field(fields, header.tag, header.val_type, rest) {
                        Parsed::Fail(f) => Parsed::Fail(f),
                        Parsed::Done(fields, rest) => if rest.len() < bytes.len() {
                            self.parse_fields(fields, rest, to_end)
                        } else {
                            Parsed::Fail(Failure::Eof)
                        },
                    }
                },
            }
        }
    }
}

/// Reading bytes as list elements never makes the buffer longer.
pub proof fn lemma_parse_byte_items_shortens(
    bytes: Seq<u8>,
    count: nat,
    acc: Seq<u8>,
    struct_name: &'static str,
    field: &'static str,
)
    ensures
        parse_byte_items(bytes, count, acc, struct_name, field) matches Parsed::Done(_, rest)
            ==> rest.len() <= bytes.len(),
    decreases count,
{
    if count > 0 && bytes.len() >= 2 {
        lemma_parse_byte_items_shortens(
            bytes.skip(1).skip(1),
            (count - 1) as nat,
            acc.push(bytes.skip(1)[0]),
            struct_name,
            field,
        );
    }
}

/// Reading a byte sequence never makes the buffer longer.
pub proof fn lemma_parse_bytes_shortens(
    bytes: Seq<u8>,
    t: u8,
    struct_name: &'static str,
    field: &'static str,
)
    ensures
        parse_bytes(bytes, t, struct_name, field) matches Parsed::Done(_, rest) ==> rest.len()
            <= bytes.len(),
        forall|n: nat|
            #[trigger] parse_fixed_bytes(bytes, t, n, struct_name, field) matches Parsed::Done(
                _,
                rest,
            ) ==> rest.len() <= bytes.len(),
{
    if t == LIST {
        if let Parsed::Done(n, rest) = parse_len(bytes) {
            lemma_parse_byte_items_shortens(rest, n as nat, Seq::empty(), struct_name, field);
        }
    }
}

impl Kind {
    /// Reading a value never makes the buffer longer.
    pub proof fn lemma_parse_shortens(
        self,
        bytes: Seq<u8>,
        t: u8,
        struct_name: &'static str,
        field: &'static str,
    )
        ensures
            self.parse(bytes, t, struct_name, field) matches Parsed::Done(_, rest) ==> rest.len()
                <= bytes.len(),
        decreases self, 2nat, 0nat,
    {
        match self {
            Kind::Bytes | Kind::FixedBytes(_) | Kind::Str => {
                lemma_parse_bytes_shortens(bytes, t, struct_name, field);
            },
            Kind::List(_) => {
                if t == LIST {
                    if let Parsed::Done(n, rest) = parse_len(bytes) {
                        self.lemma_parse_items_shortens(
                            rest,
                            n as nat,
                            Seq::empty(),
                            struct_name,
                            field,
                        );
                    }
                }
            },
            Kind::Pairs(_, _) => {
                if t == MAP {
                    if let Parsed::Done(n, rest) = parse_len(bytes) {
                        self.lemma_parse_pairs_shortens(
                            rest,
                            n as nat,
                            Seq::empty(),
                            struct_name,
                            field,
                        );
                    }
                }
            },
            Kind::Optional(k) => {
                k.lemma_parse_shortens(bytes, t, struct_name, field);
            },
            Kind::Struct(schema) => {
                schema.lemma_parse_fields_shortens(
                    schema.blank_fields(schema.fields@.len()),
                    bytes,
                    false,
                );
            },
            _ => {},
        }
    }

    /// Reading the elements of a list never makes the buffer longer.
    pub proof fn lemma_parse_items_shortens(
        self,
        bytes: Seq<u8>,
        count: nat,
        acc: Seq<Tree>,
        struct_name: &'static str,
        field: &'static str,
    )
        ensures
            self.parse_items(bytes, count, acc, struct_name, field) matches Parsed::Done(_, rest)
                ==> rest.len() <= bytes.len(),
        decreases self, 1nat, count,
    {
        if let Kind::List(k) = self {
            if count > 0 {
                if let Parsed::Done(t, rest) = parse_type(bytes) {
                    k.lemma_parse_shortens(rest, t, struct_name, field);
                    if let Parsed::Done(v, rest) = k.parse(rest, t, struct_name, field) {
                        self.lemma_parse_items_shortens(
                            rest,
                            (count - 1) as nat,
                            acc.push(v),
                            struct_name,
                            field,
                        );
                    }
                }
            }
        }
    }

    /// Reading the pairs of a map never makes the buffer longer.
    pub proof fn lemma_parse_pairs_shortens(
        self,
        bytes: Seq<u8>,
        count: nat,
        acc: Seq<(Tree, Tree)>,
        struct_name: &'static str,
        field: &'static str,
    )
        ensures
            self.parse_pairs(bytes, count, acc, struct_name, field) matches Parsed::Done(_, rest)
                ==> rest.len() <= bytes.len(),
        decreases self, 1nat, count,
    {
        if let Kind::Pairs(kk, vk) = self {
            if count > 0 {
                if let Parsed::Done(kt, rest) = parse_type(bytes) {
                    kk.lemma_parse_shortens(rest, kt, struct_name, field);
                    if let Parsed::Done(k, rest) = kk.parse(rest, kt, struct_name, field) {
                        if let Parsed::Done(vt, rest) = parse_type(rest) {
                            vk.lemma_parse_shortens(rest, vt, struct_name, field);
                            if let Parsed::Done(v, rest) = vk.parse(rest, vt, struct_name, field) {
                                self.lemma_parse_pairs_shortens(
                                    rest,
                                    (count - 1) as nat,
                                    acc.push((k, v)),
                                    struct_name,
                                    field,
                                );
                            }
                        }
                    }
                }
            }
        }
    }
}

impl Schema {
    /// Reading one field never makes the buffer longer.
    pub proof fn lemma_parse_field_shortens(
        self,
        fields: Seq<(u8, Tree)>,
        tag: u8,
        t: u8,
        bytes: Seq<u8>,
    )
        ensures
            self.parse_field(fields, tag, t, bytes) matches Parsed::Done(_, rest) ==> rest.len()
                <= bytes.len(),
        decreases self, 0nat, 0nat,
    {
        self.lemma_find(tag, 0);
        match self.index_of(tag) {
            Some(i) => {
                self.fields@[i].kind.lemma_parse_shortens(
                    bytes,
                    t,
                    self.name,
                    self.fields@[i].name,
                );
            },
            None => {
                lemma_skip_shortens(bytes, t);
            },
        }
    }

    /// Reading the fields of a structure never makes the buffer longer.
    pub proof fn lemma_parse_fields_shortens(
        self,
        fields: Seq<(u8, Tree)>,
        bytes: Seq<u8>,
        to_end: bool,
    )
        ensures
            self.parse_fields(fields, bytes, to_end) matches Parsed::Done(_, rest) ==> rest.len()
                <= bytes.len(),
        decreases self, 1nat, bytes.len(),
    {
        if bytes.len() > 0 {
            if let Parsed::Done(header, rest) = parse_header(bytes) {
                if to_end || header.val_type != STRUCT_END {
                    self.lemma_parse_field_shortens(fields, header.tag, header.val_type, rest);
                    if let Parsed::Done(fields, rest2) = self.parse_field(
                        fields,
                        header.tag,
                        header.val_type,
                        rest,
                    ) {
                        if rest2.len() < bytes.len() {
                            self.lemma_parse_fields_shortens(fields, rest2, to_end);
                        }
                    }
                }
            }
        }
    }
}

impl Schema {
    /// The fields after a value that was written at a tag has been read
    /// into them: in the place of the tag where it is declared, nowhere
    /// where it is not.
    pub open spec fn put(self, fields: Seq<(u8, Tree)>, binding: (u8, Tree)) -> Seq<(u8, Tree)> {
        match self.index_of(binding.0) {
            Some(i) => fields.update(i, (binding.0, binding.1.normal())),
            None => fields,
        }
    }

    /// The fields after the values from index `lo` on have been read into
    /// them, one after the other.
    pub open spec fn put_all(
        self,
        fields: Seq<(u8, Tree)>,
        bindings: Seq<(u8, Tree)>,
        lo: int,
    ) -> Seq<(u8, Tree)>
        decreases bindings.len() - lo,
    {
        if lo < 0 || lo >= bindings.len() {
            fields
        } else {
            self.put_all(self.put(fields, bindings[lo]), bindings, lo + 1)
        }
    }

    /// Whether a reader with this layout is in step behind a value written
    /// at a tag: the value can be written, and it is of the kind of the
    /// field where the tag is declared, or holds no structure with fields
    /// where it is not.
    pub open spec fn takes(self, binding: (u8, Tree)) -> bool {
        &&& binding.1.writable()
        &&& match self.index_of(binding.0) {
            Some(i) => self.fields@[i].kind.sound() && self.fields@[i].kind.admits(binding.1),
            None => binding.1.plain(),
        }
    }
}

impl Kind {
    /// Reading the elements of a list goes on behind the first of them
    /// with one element less to read and one more read.
    pub proof fn lemma_parse_items_step(
        self,
        bytes: Seq<u8>,
        count: nat,
        acc: Seq<Tree>,
        t: u8,
        body: Seq<u8>,
        v: Tree,
        rest: Seq<u8>,
        struct_name: &'static str,
        field: &'static str,
    )
        requires
            self is List,
            count > 0,
            parse_type(bytes) == Parsed::Done(t, body),
            self->List_0.parse(body, t, struct_name, field) == Parsed::Done(v, rest),
        ensures
            self.parse_items(bytes, count, acc, struct_name, field) == self.parse_items(
                rest,
                (count - 1) as nat,
                acc.push(v),
                struct_name,
                field,
            ),
    {
    }

    /// Reading the pairs of a map goes on behind the first of them with
    /// one pair less to read and one more read. Of each pair of arguments,
    /// the first belongs to the key and the second to the value.
    pub proof fn lemma_parse_pairs_step(
        self,
        bytes: Seq<u8>,
        count: nat,
        acc: Seq<(Tree, Tree)>,
        t: (u8, u8),
        body: (Seq<u8>, Seq<u8>),
        v: (Tree, Tree),
        rest: (Seq<u8>, Seq<u8>),
        struct_name: &'static str,
        field: &'static str,
    )
        requires
            self is Pairs,
            count > 0,
            parse_type(bytes) == Parsed::Done(t.0, body.0),
            self->Pairs_0.parse(body.0, t.0, struct_name, field) == Parsed::Done(v.0, rest.0),
            parse_type(rest.0) == Parsed::Done(t.1, body.1),
            self->Pairs_1.parse(body.1, t.1, struct_name, field) == Parsed::Done(v.1, rest.1),
        ensures
            self.parse_pairs(bytes, count, acc, struct_name, field) == self.parse_pairs(
                rest.1,
                (count - 1) as nat,
                acc.push(v),
                struct_name,
                field,
            ),
    {
    }
}

impl Kind {
    /// The blank value of a kind is a value of the kind.
    pub proof fn lemma_blank_admits(self)
        ensures
            self.admits(self.blank()),
        decreases self, 2nat, 0nat,
    {
        match self {
            Kind::List(_) => {
                assert(self.admits_items(Seq::empty(), 0));
            },
            Kind::Pairs(_, _) => {
                assert(self.admits_pairs(Seq::empty(), 0));
            },
            Kind::Struct(schema) => {
                schema.lemma_blank_fields_admits(schema.fields@.len());
                schema.lemma_blank_fields_len(schema.fields@.len());
            },
            _ => {},
        }
    }

    /// What is read as a value of a kind is a value of the kind.
    pub proof fn lemma_parse_admits(
        self,
        bytes: Seq<u8>,
        t: u8,
        struct_name: &'static str,
        field: &'static str,
    )
        ensures
            self.parse(bytes, t, struct_name, field) matches Parsed::Done(tree, _)
                ==> self.admits(tree),
        decreases self, 3nat, 0nat,
    {
        match self {
            Kind::FixedBytes(n) => {},
            Kind::List(_) => {
                if t == LIST {
                    if let Parsed::Done(n, rest) = parse_len(bytes) {
                        self.lemma_parse_items_admit(
                            rest,
                            n as nat,
                            Seq::empty(),
                            struct_name,
                            field,
                        );
                        if let Parsed::Done(items, _) = self.parse_items(
                            rest,
                            n as nat,
                            Seq::empty(),
                            struct_name,
                            field,
                        ) {
                            lemma_admits_items(self, items, items.len());
                        }
                    }
                }
            },
            Kind::Pairs(_, _) => {
                if t == MAP {
                    if let Parsed::Done(n, rest) = parse_len(bytes) {
                        self.lemma_parse_pairs_admit(
                            rest,
                            n as nat,
                            Seq::empty(),
                            struct_name,
                            field,
                        );
                        if let Parsed::Done(pairs, _) = self.parse_pairs(
                            rest,
                            n as nat,
                            Seq::empty(),
                            struct_name,
                            field,
                        ) {
                            lemma_admits_pairs(self, pairs, pairs.len());
                        }
                    }
                }
            },
            Kind::Optional(k) => {
                k.lemma_parse_admits(bytes, t, struct_name, field);
            },
            Kind::Struct(schema) => {
                self.lemma_blank_admits();
                schema.lemma_blank_fields_admits(schema.fields@.len());
                schema.lemma_blank_fields_len(schema.fields@.len());
                schema.lemma_parse_fields_admit(
                    schema.blank_fields(schema.fields@.len()),
                    bytes,
                    false,
                );
            },
            _ => {},
        }
    }

    /// The elements that are read for a list of this kind are of its
    /// element kind, where those read before are.
    pub proof fn lemma_parse_items_admit(
        self,
        bytes: Seq<u8>,
        count: nat,
        acc: Seq<Tree>,
        struct_name: &'static str,
        field: &'static str,
    )
        requires
            self is List,
            forall|i: int| 0 <= i < acc.len() ==> self->List_0.admits(#[trigger] acc[i]),
        ensures
            self.parse_items(bytes, count, acc, struct_name, field) matches Parsed::Done(items, _)
                ==> forall|i: int|
                0 <= i < items.len() ==> self->List_0.admits(#[trigger] items[i]),
        decreases self, 1nat, count,
    {
        if count > 0 {
            if let Parsed::Done(t, body) = parse_type(bytes) {
                let k = *self->List_0;
                k.lemma_parse_admits(body, t, struct_name, field);
                if let Parsed::Done(v, rest) = k.parse(body, t, struct_name, field) {
                    self.lemma_parse_items_step(
                        bytes,
                        count,
                        acc,
                        t,
                        body,
                        v,
                        rest,
                        struct_name,
                        field,
                    );
                    self.lemma_parse_items_admit(
                        rest,
                        (count - 1) as nat,
                        acc.push(v),
                        struct_name,
                        field,
                    );
                }
            }
        }
    }

    /// The pairs that are read for a map of this kind hold keys and values
    /// of its kinds, where those read before do.
    pub proof fn lemma_parse_pairs_admit(
        self,
        bytes: Seq<u8>,
        count: nat,
        acc: Seq<(Tree, Tree)>,
        struct_name: &'static str,
        field: &'static str,
    )
        requires
            self is Pairs,
            forall|i: int|
                0 <= i < acc.len() ==> self->Pairs_0.admits((#[trigger] acc[i]).0)
                    && self->Pairs_1.admits(acc[i].1),
        ensures
            self.parse_pairs(bytes, count, acc, struct_name, field) matches Parsed::Done(pairs, _)
                ==> forall|i: int|
                0 <= i < pairs.len() ==> self->Pairs_0.admits((#[trigger] pairs[i]).0)
                    && self->Pairs_1.admits(pairs[i].1),
        decreases self, 1nat, count,
    {
        if count > 0 {
            if let Parsed::Done(kt, body) = parse_type(bytes) {
                let kk = *self->Pairs_0;
                let vk = *self->Pairs_1;
                kk.lemma_parse_admits(body, kt, struct_name, field);
                if let Parsed::Done(k, rest) = kk.parse(body, kt, struct_name, field) {
                    if let Parsed::Done(vt, body2) = parse_type(rest) {
                        vk.lemma_parse_admits(body2, vt, struct_name, field);
                        if let Parsed::Done(v, rest2) = vk.parse(body2, vt, struct_name, field) {
                            self.lemma_parse_pairs_step(
                                bytes,
                                count,
                                acc,
                                (kt, vt),
                                (body, body2),
                                (k, v),
                                (rest, rest2),
                                struct_name,
                                field,
                            );
                            self.lemma_parse_pairs_admit(
                                rest2,
                                (count - 1) as nat,
                                acc.push((k, v)),
                                struct_name,
                                field,
                            );
                        }
                    }
                }
            }
        }
    }
}

impl Schema {
    /// The first `n` blank fields have the tags of the first `n` declared
    /// fields and values of their kinds.
    pub proof fn lemma_blank_fields_admits(self, n: nat)
        requires
            n <= self.fields@.len(),
        ensures
            self.admits_fields(self.blank_fields(n), n),
            n == self.fields@.len() ==> self.admits(self.blank_fields(n)),
        decreases self, 1nat, n,
    {
        self.lemma_blank_fields_len(n);
        if n > 0 {
            let fewer = (n - 1) as nat;
            self.lemma_blank_fields_admits(fewer);
            self.lemma_blank_fields_len(fewer);
            self.fields@[n - 1].kind.lemma_blank_admits();
            lemma_admits_fields(self, self.blank_fields(fewer), fewer);
            lemma_admits_fields(self, self.blank_fields(n), n);
        }
    }

    /// Reading one field into the fields of a structure leaves the fields
    /// of a structure.
    pub proof fn lemma_parse_field_admits(
        self,
        fields: Seq<(u8, Tree)>,
        tag: u8,
        t: u8,
        bytes: Seq<u8>,
    )
        requires
            self.admits(fields),
        ensures
            self.parse_field(fields, tag, t, bytes) matches Parsed::Done(next, _) ==> self.admits(
                next,
            ),
        decreases self, 0nat, 0nat,
    {
        self.lemma_find(tag, 0);
        if let Some(i) = self.index_of(tag) {
            let kind = self.fields@[i].kind;
            kind.lemma_parse_admits(bytes, t, self.name, self.fields@[i].name);
            if let Parsed::Done(v, _) = kind.parse(bytes, t, self.name, self.fields@[i].name) {
                let next = fields.update(i, (tag, v));
                lemma_admits_fields(self, fields, fields.len());
                lemma_admits_fields(self, next, next.len());
            }
        }
    }

    /// What is read as the fields of a structure are the fields of the
    /// structure: as many as are declared, in the order of declaration, each
    /// with its tag and a value of its kind.
    pub proof fn lemma_parse_fields_admit(
        self,
        fields: Seq<(u8, Tree)>,
        bytes: Seq<u8>,
        to_end: bool,
    )
        requires
            self.admits(fields),
        ensures
            self.parse_fields(fields, bytes, to_end) matches Parsed::Done(read, _)
                ==> self.admits(read),
        decreases self, 1nat, bytes.len(),
    {
        if bytes.len() > 0 {
            if let Parsed::Done(header, rest) = parse_header(bytes) {
                if to_end || header.val_type != STRUCT_END {
                    self.lemma_parse_field_admits(fields, header.tag, header.val_type, rest);
                    if let Parsed::Done(next, rest2) = self.parse_field(
                        fields,
                        header.tag,
                        header.val_type,
                        rest,
                    ) {
                        if rest2.len() < bytes.len() {
                            self.lemma_parse_fields_admit(next, rest2, to_end);
                        }
                    }
                }
            }
        }
    }
}

} // verus!
