//! What holds between writing and reading.

use vstd::prelude::*;
use crate::cursor::{be_bytes, lemma_be_bytes_len, lemma_be_value_of_bytes, lemma_limits, limit};
use crate::de::{parse_header, parse_len, parse_type, Parsed};
use crate::ser::{header_bytes, len_prefix, spec_len_bytes};
use crate::types::JceHeader;

verus! {

/// A header that was written reads back as itself, for every tag and every
/// type code that fits the low half of a byte, and leaves what follows it.
pub proof fn lemma_header_round_trip(tag: u8, val_type: u8, rest: Seq<u8>)
    requires
        val_type <= 0xF,
    ensures
        parse_header(header_bytes(tag, val_type) + rest) == Parsed::Done(
            JceHeader { val_type, tag },
            rest,
        ),
{
    let bytes = header_bytes(tag, val_type) + rest;
    if tag < 0xF {
        let head = (tag << 4) | val_type;
        assert(head >> 4 == tag && head & 0xF == val_type) by (bit_vector)
            requires
                head == (tag << 4) | val_type,
                tag < 0xF,
                val_type <= 0xF,
        ;
        assert(bytes[0] == head);
        assert(bytes.skip(1) =~= rest);
    } else {
        let head = val_type | 0xF0;
        assert(head >> 4 == 0xF && head & 0xF == val_type) by (bit_vector)
            requires
                head == val_type | 0xF0,
                val_type <= 0xF,
        ;
        assert(bytes[0] == head);
        assert(bytes[1] == tag);
        assert(bytes.skip(2) =~= rest);
    }
}

/// The type code of a header of one byte is what a reader of bare type
/// codes finds in it.
pub proof fn lemma_header_as_type(tag: u8, val_type: u8, rest: Seq<u8>)
    requires
        val_type <= 0xF,
        tag < 0xF,
    ensures
        parse_type(header_bytes(tag, val_type) + rest) == Parsed::Done(val_type, rest),
{
    let bytes = header_bytes(tag, val_type) + rest;
    let head = (tag << 4) | val_type;
    assert(head & 0xF == val_type) by (bit_vector)
        requires
            head == (tag << 4) | val_type,
            tag < 0xF,
            val_type <= 0xF,
    ;
    assert(bytes[0] == head);
    assert(bytes.skip(1) =~= rest);
}

/// A length that was written reads back as itself and leaves what follows it.
pub proof fn lemma_len_round_trip(len: usize, rest: Seq<u8>)
    ensures
        parse_len(len_prefix(len as nat) + rest) == Parsed::Done(len, rest),
{
    let w = spec_len_bytes(len as nat);
    let bytes = len_prefix(len as nat) + rest;
    lemma_limits();
    lemma_be_bytes_len(len as nat, w);
    lemma_be_value_of_bytes(len as nat, w);
    assert(bytes.subrange(1, 1 + w as int) =~= be_bytes(len as nat, w));
    assert(bytes.skip(1 + w as int) =~= rest);
}

/// A length prefix is as narrow as can be: of the four widths, it has the
/// first whose limit is above the length.
pub proof fn lemma_len_prefix_minimal(len: usize, width: nat)
    requires
        width == 1 || width == 2 || width == 4 || width == 8,
        len < limit(width),
    ensures
        len_prefix(len as nat).len() == 1 + spec_len_bytes(len as nat),
        len < limit(spec_len_bytes(len as nat)),
        spec_len_bytes(len as nat) <= width,
{
    lemma_limits();
    lemma_be_bytes_len(len as nat, spec_len_bytes(len as nat));
}

} // verus!
