//! How many bytes a value takes on the wire.

use vstd::prelude::*;
use crate::cursor::lemma_be_bytes_len;
use crate::datum::{lemma_fields_view, lemma_items_view, lemma_pairs_view, Datum, Record};
use crate::ser::{header_bytes, len_bytes, len_prefix, spec_len_bytes};
use crate::tree::{bytes_payload, wire_fields, wire_items, wire_pairs, wire_struct};

verus! {

/// `n`, or the largest `usize` where `n` is above it.
pub open spec fn capped(n: nat) -> usize {
    if n > usize::MAX {
        usize::MAX
    } else {
        n as usize
    }
}

/// The sum of two lengths, or the largest `usize` where the sum is above it.
fn add_capped(a: usize, b: usize) -> (r: usize)
    ensures
        r == capped((a + b) as nat),
{
    if a > usize::MAX - b {
        usize::MAX
    } else {
        a + b
    }
}

/// The length of the header of a value at `tag`.
pub fn header_len(tag: u8) -> (n: usize)
    ensures
        forall|t: u8| n == (#[trigger] header_bytes(tag, t)).len(),
        n == if tag < 0xF {
            1nat
        } else {
            2nat
        },
{
    if tag < 0xF {
        1
    } else {
        2
    }
}

impl Datum {
    /// The length of the payload, capped at the largest `usize`.
    pub fn payload_len(&self) -> (n: usize)
        ensures
            n == capped(self@.payload().len()),
        decreases self, 0nat,
    {
        match self {
            Datum::I8(_) | Datum::U8(_) | Datum::Bool(_) => {
                proof {
                    lemma_be_bytes_len(self@.bits(), 1);
                }
                1
            },
            Datum::I16(_) | Datum::U16(_) => {
                proof {
                    lemma_be_bytes_len(self@.bits(), 2);
                }
                2
            },
            Datum::I32(_) | Datum::U32(_) | Datum::Float(_) => {
                proof {
                    lemma_be_bytes_len(self@.bits(), 4);
                }
                4
            },
            Datum::I64(_) | Datum::U64(_) | Datum::Double(_) => {
                proof {
                    lemma_be_bytes_len(self@.bits(), 8);
                }
                8
            },
            Datum::Bytes(v) => bytes_len(v.as_slice()),
            Datum::Str(v) => bytes_len(v.as_str().as_bytes()),
            Datum::List(items) => {
                let ghost trees = self@->List_0;
                proof {
                    lemma_items_view(items@, items@.len());
                    lemma_be_bytes_len(trees.len(), spec_len_bytes(trees.len()));
                }
                let mut n: usize = 1 + len_bytes(items.len());
                let mut i: usize = 0;
                while i < items.len()
                    invariant
                        i <= items.len(),
                        *self == Datum::List(*items),
                        trees.len() == items@.len(),
                        forall|j: int| 0 <= j < trees.len() ==> #[trigger] trees[j] == items@[j]@,
                        n == capped(
                            (len_prefix(trees.len()) + wire_items(trees, 0, i as int)).len(),
                        ),
                    decreases items.len() - i,
                {
                    proof {
                        assert(decreases_to!(*self => self->List_0));
                        assert(decreases_to!(*items => items[i as int]));
                    }
                    n = add_capped(n, items[i].encoded_len(0));
                    i = i + 1;
                }
                n
            },
            Datum::Pairs(pairs) => {
                let ghost trees = self@->Pairs_0;
                proof {
                    lemma_pairs_view(pairs@, pairs@.len());
                    lemma_be_bytes_len(trees.len(), spec_len_bytes(trees.len()));
                }
                let mut n: usize = 1 + len_bytes(pairs.len());
                let mut i: usize = 0;
                while i < pairs.len()
                    invariant
                        i <= pairs.len(),
                        *self == Datum::Pairs(*pairs),
                        trees.len() == pairs@.len(),
                        forall|j: int|
                            0 <= j < trees.len() ==> #[trigger] trees[j] == (
                                pairs@[j].0@,
                                pairs@[j].1@,
                            ),
                        n == capped(
                            (len_prefix(trees.len()) + wire_pairs(trees, 0, i as int)).len(),
                        ),
                    decreases pairs.len() - i,
                {
                    proof {
                        assert(decreases_to!(*self => self->Pairs_0));
                        assert(decreases_to!(*pairs => pairs[i as int]));
                    }
                    n = add_capped(n, pairs[i].0.encoded_len(0));
                    n = add_capped(n, pairs[i].1.encoded_len(1));
                    i = i + 1;
                }
                n
            },
            Datum::Optional(None) => 0,
            Datum::Optional(Some(v)) => v.payload_len(),
            Datum::Struct(r) => add_capped(r.fields_len(), 1),
        }
    }

    /// The length of the value on the wire at `tag`, header and payload,
    /// capped at the largest `usize`.
    pub fn encoded_len(&self, tag: u8) -> (n: usize)
        ensures
            n == capped(self@.wire(tag).len()),
        decreases self, 1nat,
    {
        add_capped(header_len(tag), self.payload_len())
    }
}

/// The length of a byte sequence behind its length.
fn bytes_len(bytes: &[u8]) -> (n: usize)
    ensures
        n == capped(bytes_payload(bytes@).len()),
{
    let len = bytes.len();
    proof {
        lemma_be_bytes_len(len as nat, 4);
    }
    if len <= 0xFF {
        add_capped(1, len)
    } else {
        add_capped(4, len)
    }
}

impl Record {
    /// The length of the fields on the wire, capped at the largest `usize`.
    pub fn fields_len(&self) -> (n: usize)
        ensures
            n == capped(wire_struct(self@).len()),
        decreases self,
    {
        proof {
            lemma_fields_view(self.fields@, self.fields@.len());
        }
        let mut n: usize = 0;
        let mut i: usize = 0;
        while i < self.fields.len()
            invariant
                i <= self.fields.len(),
                self@.len() == self.fields@.len(),
                forall|j: int|
                    0 <= j < self@.len() ==> #[trigger] self@[j] == (
                        self.fields@[j].0,
                        self.fields@[j].1@,
                    ),
                n == capped(wire_fields(self@, 0, i as int).len()),
            decreases self.fields.len() - i,
        {
            proof {
                assert(decreases_to!(self.fields => self.fields[i as int]));
            }
            n = add_capped(n, self.fields[i].1.encoded_len(self.fields[i].0));
            i = i + 1;
        }
        n
    }
}

} // verus!
