//! Type codes, headers, and the value kinds that travel behind them.

use vstd::prelude::*;

verus! {

/// An integer of one byte.
pub const BYTE: u8 = 0;

/// An integer of two bytes.
pub const SHORT: u8 = 1;

/// An integer of four bytes.
pub const INT: u8 = 2;

/// An integer of eight bytes.
pub const LONG: u8 = 3;

/// A floating-point number of four bytes.
pub const FLOAT: u8 = 4;

/// A floating-point number of eight bytes.
pub const DOUBLE: u8 = 5;

/// Bytes behind a length of one byte.
pub const SHORT_BYTES: u8 = 6;

/// Bytes behind a length of four bytes.
pub const LONG_BYTES: u8 = 7;

/// Pairs of key and value behind their count.
pub const MAP: u8 = 8;

/// Elements behind their count.
pub const LIST: u8 = 9;

/// The fields of a nested structure follow.
pub const STRUCT_START: u8 = 10;

/// The fields of a nested structure end here.
pub const STRUCT_END: u8 = 11;

/// The value is absent.
pub const EMPTY: u8 = 12;

/// Packed elements of one fixed width behind their type and count.
pub const SINGLE_LIST: u8 = 13;

/// What precedes every value on the wire: the tag of its field and its type code.
#[derive(Debug)]
pub struct JceHeader {
    pub val_type: u8,
    pub tag: u8,
}

impl JceHeader {
    #[inline]
    pub fn value_type(&self) -> (t: u8)
        ensures
            t == self.val_type,
    {
        self.val_type
    }

    #[inline]
    pub fn tag(&self) -> (t: u8)
        ensures
            t == self.tag,
    {
        self.tag
    }
}

/// The families of type codes, as error messages name them.
#[derive(Debug)]
pub enum Type {
    Byte,
    Short,
    Int,
    Long,
    Float,
    Double,
    Bytes,
    Mapping,
    List,
    Struct,
    Empty,
    SingleList,
}

impl Type {
    /// The family of type code `t`, for the codes that have one.
    pub open spec fn spec_from_u8(t: u8) -> Option<Type> {
        if t == BYTE {
            Some(Type::Byte)
        } else if t == SHORT {
            Some(Type::Short)
        } else if t == INT {
            Some(Type::Int)
        } else if t == LONG {
            Some(Type::Long)
        } else if t == FLOAT {
            Some(Type::Float)
        } else if t == DOUBLE {
            Some(Type::Double)
        } else if t == SHORT_BYTES || t == LONG_BYTES {
            Some(Type::Bytes)
        } else if t == MAP {
            Some(Type::Mapping)
        } else if t == LIST {
            Some(Type::List)
        } else if t == STRUCT_START {
            Some(Type::Struct)
        } else if t == EMPTY {
            Some(Type::Empty)
        } else {
            None
        }
    }

    /// The family of type code `t`. The end marker of a structure and the
    /// packed list have none, nor has any number above them.
    pub fn from_u8(t: u8) -> (r: Option<Self>)
        ensures
            r == Self::spec_from_u8(t),
    {
        let t = match t {
            BYTE => Self::Byte,
            SHORT => Self::Short,
            INT => Self::Int,
            LONG => Self::Long,
            FLOAT => Self::Float,
            DOUBLE => Self::Double,
            SHORT_BYTES | LONG_BYTES => Self::Bytes,
            MAP => Self::Mapping,
            LIST => Self::List,
            STRUCT_START => Self::Struct,
            EMPTY => Self::Empty,
            _ => return None,
        };
        Some(t)
    }

    /// The name under which messages show the family.
    pub fn name(&self) -> (s: &'static str)
        ensures
            s@ == self.spec_name(),
    {
        match self {
            Type::Byte => "Byte",
            Type::Short => "Short",
            Type::Int => "Int",
            Type::Long => "Long",
            Type::Float => "Float",
            Type::Double => "Double",
            Type::Bytes => "Bytes",
            Type::Mapping => "Map",
            Type::List => "List",
            Type::Struct => "Struct",
            Type::Empty => "Empty",
            Type::SingleList => "SingleList",
        }
    }

    pub open spec fn spec_name(&self) -> Seq<char> {
        match self {
            Type::Byte => "Byte"@,
            Type::Short => "Short"@,
            Type::Int => "Int"@,
            Type::Long => "Long"@,
            Type::Float => "Float"@,
            Type::Double => "Double"@,
            Type::Bytes => "Bytes"@,
            Type::Mapping => "Map"@,
            Type::List => "List"@,
            Type::Struct => "Struct"@,
            Type::Empty => "Empty"@,
            Type::SingleList => "SingleList"@,
        }
    }
}

} // verus!
