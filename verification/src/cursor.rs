//! Big-endian numbers at the front of a byte slice and at the end of a byte
//! vector.
//!
//! A decoder holds its input as `&mut &[u8]`: the slice is what is still to
//! be read, and reading shortens it from the front. An encoder appends to a
//! `Vec<u8>`.

use vstd::prelude::*;

verus! {

/// The number of values that `width` bytes can tell apart.
pub open spec fn limit(width: nat) -> nat
    decreases width,
{
    if width == 0 {
        1
    } else {
        256 * limit((width - 1) as nat)
    }
}

/// The number that `bytes` spell, most significant byte first.
pub open spec fn be_value(bytes: Seq<u8>) -> nat
    decreases bytes.len(),
{
    if bytes.len() == 0 {
        0
    } else {
        256 * be_value(bytes.drop_last()) + bytes.last() as nat
    }
}

/// The lowest `width` bytes of `v`, most significant byte first.
pub open spec fn be_bytes(v: nat, width: nat) -> Seq<u8>
    decreases width,
{
    if width == 0 {
        Seq::empty()
    } else {
        be_bytes(v / 256, (width - 1) as nat).push((v % 256) as u8)
    }
}

/// The limits of the widths that the format has.
pub proof fn lemma_limits()
    ensures
        limit(0) == 1,
        limit(1) == 0x100,
        limit(2) == 0x1_0000,
        limit(4) == 0x1_0000_0000,
        limit(8) == 0x1_0000_0000_0000_0000,
{
    reveal_with_fuel(limit, 9);
}

/// More bytes tell more values apart.
pub proof fn lemma_limit_monotone(a: nat, b: nat)
    requires
        a <= b,
    ensures
        limit(a) <= limit(b),
    decreases b,
{
    if a < b {
        lemma_limit_monotone(a, (b - 1) as nat);
    }
}

/// A number spelled in `width` bytes takes `width` bytes.
pub proof fn lemma_be_bytes_len(v: nat, width: nat)
    ensures
        be_bytes(v, width).len() == width,
    decreases width,
{
    if width > 0 {
        lemma_be_bytes_len(v / 256, (width - 1) as nat);
    }
}

/// What `bytes` spell is below the limit of their number.
pub proof fn lemma_be_value_bound(bytes: Seq<u8>)
    ensures
        be_value(bytes) < limit(bytes.len()),
    decreases bytes.len(),
{
    if bytes.len() > 0 {
        lemma_be_value_bound(bytes.drop_last());
    }
}

/// Spelling a number in enough bytes and reading them back gives the number.
pub proof fn lemma_be_value_of_bytes(v: nat, width: nat)
    requires
        v < limit(width),
    ensures
        be_value(be_bytes(v, width)) == v,
    decreases width,
{
    if width > 0 {
        let hi = be_bytes(v / 256, (width - 1) as nat);
        lemma_be_value_of_bytes(v / 256, (width - 1) as nat);
        assert(be_bytes(v, width).drop_last() =~= hi);
    }
}

/// Reading bytes as a number and spelling it in as many bytes gives the bytes.
pub proof fn lemma_be_bytes_of_value(bytes: Seq<u8>)
    ensures
        be_bytes(be_value(bytes), bytes.len()) == bytes,
    decreases bytes.len(),
{
    if bytes.len() > 0 {
        lemma_be_bytes_of_value(bytes.drop_last());
        assert(be_bytes(be_value(bytes), bytes.len()) =~= bytes);
    }
}

/// Drops the first `n` bytes of what is left to read.
pub fn advance(buf: &mut &[u8], n: usize)
    requires
        n <= old(buf)@.len(),
    ensures
        final(buf)@ == old(buf)@.skip(n as int),
{
    let (_, rest) = buf.split_at(n);
    *buf = rest;
}

/// Hands out the first `n` bytes and leaves the rest to read.
pub fn take<'a>(buf: &mut &'a [u8], n: usize) -> (head: &'a [u8])
    requires
        n <= old(buf)@.len(),
    ensures
        head@ == old(buf)@.take(n as int),
        final(buf)@ == old(buf)@.skip(n as int),
{
    let (head, rest) = buf.split_at(n);
    *buf = rest;
    head
}

/// Reads one byte.
pub fn get_u8(buf: &mut &[u8]) -> (v: u8)
    requires
        old(buf)@.len() >= 1,
    ensures
        v == old(buf)@[0],
        final(buf)@ == old(buf)@.skip(1),
{
    let v = buf[0];
    advance(buf, 1);
    v
}

/// Reads a big-endian number of `width` bytes.
pub fn get_be(buf: &mut &[u8], width: usize) -> (v: u64)
    requires
        width <= 8,
        width <= old(buf)@.len(),
    ensures
        v == be_value(old(buf)@.take(width as int)),
        v < limit(width as nat),
        final(buf)@ == old(buf)@.skip(width as int),
{
    let head = take(buf, width);
    let mut v: u64 = 0;
    let mut i: usize = 0;
    while i < width
        invariant
            i <= width <= 8,
            head@.len() == width,
            v == be_value(head@.take(i as int)),
            v < limit(i as nat),
        decreases width - i,
    {
        proof {
            let next = head@.take(i + 1);
            assert(next.drop_last() =~= head@.take(i as int));
            lemma_be_value_bound(next);
            lemma_limit_monotone((i + 1) as nat, 8);
            assert(limit((i + 1) as nat) == 256 * limit(i as nat));
            lemma_limits();
        }
        v = v * 256 + head[i] as u64;
        i = i + 1;
    }
    assert(head@.take(width as int) =~= head@);
    v
}

/// Appends the lowest `width` bytes of `v`, most significant byte first.
pub fn put_be(buf: &mut Vec<u8>, v: u64, width: usize)
    requires
        width <= 8,
    ensures
        final(buf)@ == old(buf)@ + be_bytes(v as nat, width as nat),
    decreases width,
{
    if width > 0 {
        put_be(buf, v / 256, width - 1);
        buf.push((v % 256) as u8);
        assert(buf@ =~= old(buf)@ + be_bytes(v as nat, width as nat));
    } else {
        assert(buf@ =~= old(buf)@ + be_bytes(v as nat, width as nat));
    }
}

/// Appends `bytes` as they are.
pub fn put_slice(buf: &mut Vec<u8>, bytes: &[u8])
    ensures
        final(buf)@ == old(buf)@ + bytes@,
{
    buf.extend_from_slice(bytes);
}

} // verus!
