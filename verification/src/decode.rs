//! Reading values of a kind, and structures of a layout.

use vstd::prelude::*;
use crate::cursor::{get_be, lemma_limits};
use crate::datum::{
    fields_view, items_view, lemma_fields_view, lemma_items_view, lemma_pairs_view, pairs_view,
    Datum, Record,
};
use crate::de::{check_buf, read_header, read_len, read_type, Parsed};
use crate::error::{DecodeError, DecodeResult};
use crate::kind::{Kind, Schema};
use crate::skip::skip_field;
use crate::typed::{check_type, read_bytes_len, read_slice, JceType};
use crate::types::{DOUBLE, EMPTY, FLOAT, LIST, MAP, STRUCT_END, STRUCT_START};

verus! {

impl Kind {
    /// The value that a field of the kind has until one is read.
    pub fn default_value(&self) -> (d: Datum)
        ensures
            d@ == self.blank(),
        decreases self,
    {
        match self {
            Kind::I8 => Datum::I8(0),
            Kind::U8 => Datum::U8(0),
            Kind::I16 => Datum::I16(0),
            Kind::U16 => Datum::U16(0),
            Kind::I32 => Datum::I32(0),
            Kind::U32 => Datum::U32(0),
            Kind::I64 => Datum::I64(0),
            Kind::U64 => Datum::U64(0),
            Kind::Float => Datum::Float(0),
            Kind::Double => Datum::Double(0),
            Kind::Bool => Datum::Bool(false),
            Kind::Bytes => Datum::Bytes(Vec::new()),
            Kind::FixedBytes(n) => {
                let v = vec![0u8; *n];
                assert(v@ =~= Seq::new(*n as nat, |i: int| 0u8));
                Datum::Bytes(v)
            },
            Kind::Str => Datum::Str(String::new()),
            Kind::List(_) => {
                let v: Vec<Datum> = Vec::new();
                assert(items_view(v@, v@.len()) =~= Seq::empty());
                Datum::List(v)
            },
            Kind::Pairs(_, _) => {
                let v: Vec<(Datum, Datum)> = Vec::new();
                assert(pairs_view(v@, v@.len()) =~= Seq::empty());
                Datum::Pairs(v)
            },
            Kind::Optional(_) => Datum::Optional(None),
            Kind::Struct(schema) => Datum::Struct(schema.blank()),
        }
    }
}

impl Schema {
    /// The structure with the blank value of its kind in every field.
    pub fn blank(&self) -> (r: Record)
        ensures
            r@ == self.blank_fields(self.fields@.len()),
        decreases self,
    {
        let mut fields: Vec<(u8, Datum)> = Vec::new();
        let mut i: usize = 0;
        while i < self.fields.len()
            invariant
                i <= self.fields.len(),
                fields@.len() == i,
                fields_view(fields@, i as nat) == self.blank_fields(i as nat),
            decreases self.fields.len() - i,
        {
            proof {
                assert(decreases_to!(self.fields => self.fields[i as int]));
            }
            let d = self.fields[i].kind.default_value();
            let ghost before = fields@;
            fields.push((self.fields[i].tag, d));
            proof {
                lemma_fields_view(before, i as nat);
                lemma_fields_view(fields@, i as nat);
                assert(fields_view(fields@, i as nat) =~= fields_view(before, i as nat));
            }
            i = i + 1;
        }
        Record { fields }
    }

    /// The index of the first declared field with `tag`.
    pub fn lookup(&self, tag: u8) -> (r: Option<usize>)
        ensures
            match self.index_of(tag) {
                Some(i) => r == Some(i as usize) && 0 <= i < self.fields@.len(),
                None => r is None,
            },
    {
        let mut i: usize = 0;
        while i < self.fields.len()
            invariant
                i <= self.fields.len(),
                self.index_of(tag) == self.find(tag, i as int),
            decreases self.fields.len() - i,
        {
            if self.fields[i].tag == tag {
                return Some(i);
            }
            i = i + 1;
        }
        None
    }
}

impl Kind {
    /// Reads a value of the kind that was found under type code `t`. The
    /// two names go into the error of a type code that the kind does not
    /// read.
    pub fn read(
        &self,
        buf: &mut &[u8],
        t: u8,
        struct_name: &'static str,
        field: &'static str,
    ) -> (r: DecodeResult<Datum>)
        ensures
            match self.parse(old(buf)@, t, struct_name, field) {
                Parsed::Done(tree, rest) => r matches Ok(d) && d@ == tree && final(buf)@ == rest,
                Parsed::Fail(f) => r matches Err(e) && e@ == f,
            },
            r matches Ok(d) ==> self.admits(d@),
        decreases self, 2nat,
    {
        proof {
            self.lemma_parse_admits(buf@, t, struct_name, field);
        }
        match self {
            Kind::I8 => Ok(Datum::I8(<i8 as JceType>::read(buf, t, struct_name, field)?)),
            Kind::U8 => Ok(Datum::U8(<u8 as JceType>::read(buf, t, struct_name, field)?)),
            Kind::I16 => Ok(Datum::I16(<i16 as JceType>::read(buf, t, struct_name, field)?)),
            Kind::U16 => Ok(Datum::U16(<u16 as JceType>::read(buf, t, struct_name, field)?)),
            Kind::I32 => Ok(Datum::I32(<i32 as JceType>::read(buf, t, struct_name, field)?)),
            Kind::U32 => Ok(Datum::U32(<u32 as JceType>::read(buf, t, struct_name, field)?)),
            Kind::I64 => Ok(Datum::I64(<i64 as JceType>::read(buf, t, struct_name, field)?)),
            Kind::U64 => Ok(Datum::U64(<u64 as JceType>::read(buf, t, struct_name, field)?)),
            Kind::Float => {
                check_type(t, FLOAT, struct_name, field)?;
                check_buf(buf, 4)?;
                proof {
                    lemma_limits();
                }
                Ok(Datum::Float(get_be(buf, 4) as u32))
            },
            Kind::Double => {
                check_type(t, DOUBLE, struct_name, field)?;
                check_buf(buf, 8)?;
                Ok(Datum::Double(get_be(buf, 8)))
            },
            Kind::Bool => Ok(Datum::Bool(<bool as JceType>::read(buf, t, struct_name, field)?)),
            Kind::Bytes => Ok(
                Datum::Bytes(<Vec<u8> as JceType>::read(buf, t, struct_name, field)?),
            ),
            Kind::FixedBytes(n) => {
                let len = read_bytes_len(buf, t, struct_name, field)?;
                if len != *n {
                    return Err(DecodeError::InvalidLength);
                }
                check_buf(buf, len)?;
                let ghost front = buf@.take(len as int);
                let mut v = vec![0u8; len];
                read_slice(buf, v.as_mut_slice(), len)?;
                assert(v@ =~= front);
                Ok(Datum::Bytes(v))
            },
            Kind::Str => Ok(Datum::Str(<String as JceType>::read(buf, t, struct_name, field)?)),
            Kind::List(_) => {
                check_type(t, LIST, struct_name, field)?;
                let len = read_len(buf)?;
                Ok(Datum::List(self.read_items(buf, len, struct_name, field)?))
            },
            Kind::Pairs(_, _) => {
                check_type(t, MAP, struct_name, field)?;
                let len = read_len(buf)?;
                Ok(Datum::Pairs(self.read_pairs(buf, len, struct_name, field)?))
            },
            Kind::Optional(k) => {
                if t == EMPTY {
                    Ok(Datum::Optional(None))
                } else {
                    Ok(Datum::Optional(Some(Box::new(k.read(buf, t, struct_name, field)?))))
                }
            },
            Kind::Struct(schema) => {
                if t == EMPTY {
                    return Ok(Datum::Struct(schema.blank()));
                }
                check_type(t, STRUCT_START, struct_name, field)?;
                Ok(Datum::Struct(schema.decode_raw(buf, false)?))
            },
        }
    }

    /// Reads the `count` elements of a list of this kind.
    fn read_items(
        &self,
        buf: &mut &[u8],
        count: usize,
        struct_name: &'static str,
        field: &'static str,
    ) -> (r: DecodeResult<Vec<Datum>>)
        requires
            self is List,
        ensures
            match self.parse_items(old(buf)@, count as nat, Seq::empty(), struct_name, field) {
                Parsed::Done(trees, rest) => r matches Ok(v) && items_view(v@, v@.len()) == trees
                    && final(buf)@ == rest,
                Parsed::Fail(f) => r matches Err(e) && e@ == f,
            },
        decreases self, 1nat,
    {
        let mut v: Vec<Datum> = Vec::new();
        let mut i: usize = 0;
        while i < count
            invariant
                i <= count,
                self is List,
                self.parse_items(old(buf)@, count as nat, Seq::empty(), struct_name, field)
                    == self.parse_items(
                    buf@,
                    (count - i) as nat,
                    items_view(v@, v@.len()),
                    struct_name,
                    field,
                ),
            decreases count - i,
        {
            let t = read_type(buf)?;
            let d = match self {
                Kind::List(k) => k.read(buf, t, struct_name, field)?,
                _ => return Err(DecodeError::InvalidType),
            };
            let ghost before = v@;
            v.push(d);
            proof {
                lemma_items_view(before, before.len());
                lemma_items_view(v@, before.len());
                assert(items_view(v@, before.len()) =~= items_view(before, before.len()));
            }
            i = i + 1;
        }
        Ok(v)
    }

    /// Reads the `count` pairs of a map of this kind.
    fn read_pairs(
        &self,
        buf: &mut &[u8],
        count: usize,
        struct_name: &'static str,
        field: &'static str,
    ) -> (r: DecodeResult<Vec<(Datum, Datum)>>)
        requires
            self is Pairs,
        ensures
            match self.parse_pairs(old(buf)@, count as nat, Seq::empty(), struct_name, field) {
                Parsed::Done(trees, rest) => r matches Ok(v) && pairs_view(v@, v@.len()) == trees
                    && final(buf)@ == rest,
                Parsed::Fail(f) => r matches Err(e) && e@ == f,
            },
        decreases self, 1nat,
    {
        let mut v: Vec<(Datum, Datum)> = Vec::new();
        let mut i: usize = 0;
        while i < count
            invariant
                i <= count,
                self is Pairs,
                self.parse_pairs(old(buf)@, count as nat, Seq::empty(), struct_name, field)
                    == self.parse_pairs(
                    buf@,
                    (count - i) as nat,
                    pairs_view(v@, v@.len()),
                    struct_name,
                    field,
                ),
            decreases count - i,
        {
            let kt = read_type(buf)?;
            let key = match self {
                Kind::Pairs(kk, _) => kk.read(buf, kt, struct_name, field)?,
                _ => return Err(DecodeError::InvalidType),
            };
            let vt = read_type(buf)?;
            let value = match self {
                Kind::Pairs(_, vk) => vk.read(buf, vt, struct_name, field)?,
                _ => return Err(DecodeError::InvalidType),
            };
            let ghost before = v@;
            v.push((key, value));
            proof {
                lemma_pairs_view(before, before.len());
                lemma_pairs_view(v@, before.len());
                assert(pairs_view(v@, before.len()) =~= pairs_view(before, before.len()));
            }
            i = i + 1;
        }
        Ok(v)
    }
}

impl Schema {
    /// Reads the value behind a header with `tag` and type code `t`: into
    /// its place where the tag is declared, and over it where it is not.
    fn read_field(&self, val: &mut Record, buf: &mut &[u8], tag: u8, t: u8) -> (r: DecodeResult<()>)
        requires
            old(val).fields@.len() == self.fields@.len(),
        ensures
            match self.parse_field(old(val)@, tag, t, old(buf)@) {
                Parsed::Done(fields, rest) => r is Ok && final(val)@ == fields && final(buf)@
                    == rest && final(val).fields@.len() == self.fields@.len(),
                Parsed::Fail(f) => r matches Err(e) && e@ == f,
            },
        decreases self, 0nat,
    {
        proof {
            self.lemma_find(tag, 0);
        }
        match self.lookup(tag) {
            Some(i) => {
                proof {
                    assert(decreases_to!(self.fields => self.fields[i as int]));
                }
                let d = self.fields[i].kind.read(buf, t, self.name, self.fields[i].name)?;
                let ghost before = val.fields@;
                val.fields[i] = (tag, d);
                proof {
                    lemma_fields_view(before, before.len());
                    lemma_fields_view(val.fields@, before.len());
                    assert(val@ =~= fields_view(before, before.len()).update(i as int, (tag, d@)));
                }
            },
            None => {
                skip_field(buf, t)?;
            },
        }
        Ok(())
    }

    /// Reads fields into a blank structure until the buffer ends or,
    /// unless `to_end`, until the header with the end marker has been
    /// taken. A declared field has its value read and put in its place;
    /// the value of any other tag is stepped over.
    pub fn decode_raw(&self, buf: &mut &[u8], to_end: bool) -> (r: DecodeResult<Record>)
        ensures
            match self.parse_fields(self.blank_fields(self.fields@.len()), old(buf)@, to_end) {
                Parsed::Done(fields, rest) => r matches Ok(v) && v@ == fields && final(buf)@
                    == rest,
                Parsed::Fail(f) => r matches Err(e) && e@ == f,
            },
            r matches Ok(v) ==> self.admits(v@),
        decreases self, 1nat,
    {
        let mut val = self.blank();
        proof {
            self.lemma_blank_fields_admits(self.fields@.len());
            self.lemma_parse_fields_admit(self.blank_fields(self.fields@.len()), buf@, to_end);
            self.lemma_blank_fields_len(self.fields@.len());
            lemma_fields_view(val.fields@, val.fields@.len());
        }
        while buf.len() > 0
            invariant
                val.fields@.len() == self.fields@.len(),
                self.parse_fields(self.blank_fields(self.fields@.len()), old(buf)@, to_end)
                    == self.parse_fields(val@, buf@, to_end),
                self.parse_fields(val@, buf@, to_end) matches Parsed::Done(read, _)
                    ==> self.admits(read),
            decreases buf@.len(),
        {
            let ghost bytes = buf@;
            let ghost fields = val@;
            let header = read_header(buf)?;
            let t = header.value_type();
            if !to_end && t == STRUCT_END {
                return Ok(val);
            }
            proof {
                self.lemma_parse_field_shortens(fields, header.tag, t, buf@);
            }
            self.read_field(&mut val, buf, header.tag(), t)?;
        }
        Ok(val)
    }
}

impl Kind {
    /// Whether every structure within the kind has distinct tags.
    pub fn is_sound(&self) -> (r: bool)
        ensures
            r == self.sound(),
        decreases self, 1nat,
    {
        match self {
            Kind::List(k) => k.is_sound(),
            Kind::Pairs(kk, vk) => kk.is_sound() && vk.is_sound(),
            Kind::Optional(k) => k.is_sound(),
            Kind::Struct(schema) => schema.is_sound(),
            _ => true,
        }
    }
}

impl Schema {
    /// Whether no two declared fields have one tag.
    pub fn has_distinct_tags(&self) -> (r: bool)
        ensures
            r == self.distinct_tags(),
    {
        let mut i: usize = 0;
        while i < self.fields.len()
            invariant
                i <= self.fields.len(),
                forall|a: int, b: int|
                    0 <= a < b < i ==> (#[trigger] self.fields@[a]).tag != (
                    #[trigger] self.fields@[b]).tag,
            decreases self.fields.len() - i,
        {
            proof {
                self.lemma_find(self.fields@[i as int].tag, 0);
            }
            match self.lookup(self.fields[i].tag) {
                Some(first) => {
                    if first != i {
                        return false;
                    }
                },
                None => {
                    return false;
                },
            }
            i = i + 1;
        }
        true
    }

    /// Whether the structure, and every structure within its fields, has
    /// distinct tags.
    pub fn is_sound(&self) -> (r: bool)
        ensures
            r == self.sound(),
        decreases self, 0nat,
    {
        if !self.has_distinct_tags() {
            return false;
        }
        proof {
            self.lemma_sound_fields(self.fields@.len());
        }
        let mut i: usize = 0;
        while i < self.fields.len()
            invariant
                i <= self.fields.len(),
                self.distinct_tags(),
                forall|j: int| 0 <= j < i ==> (#[trigger] self.fields@[j]).kind.sound(),
                self.sound_fields(self.fields@.len()) <==> forall|j: int|
                    0 <= j < self.fields@.len() ==> (#[trigger] self.fields@[j]).kind.sound(),
            decreases self.fields.len() - i,
        {
            proof {
                assert(decreases_to!(self.fields => self.fields[i as int]));
            }
            if !self.fields[i].kind.is_sound() {
                return false;
            }
            i = i + 1;
        }
        true
    }
}

} // verus!
