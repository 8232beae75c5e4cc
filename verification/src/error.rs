//! The ways in which decoding and encoding fail.

use vstd::prelude::*;
use vstd::string::StringExecFns;
use crate::types::Type;

verus! {

/// The standard library's report of a byte sequence that is not UTF-8.
/// Nothing is claimed of what it holds.
#[verifier::external_type_specification]
#[verifier::external_body]
pub struct ExUtf8Error(core::str::Utf8Error);

pub type DecodeResult<T> = Result<T, DecodeError>;

pub type EncodeResult<T> = Result<T, EncodeError>;

/// Why a decode call stopped.
#[derive(Debug)]
pub enum DecodeError {
    /// A declared field was found under a type code that its kind does not read.
    IncorrectType { struct_name: &'static str, field: &'static str, val_type: u8 },
    /// A type code, or the selector of a length prefix, is none of the known ones.
    InvalidType,
    /// The buffer ended before the value did.
    Eof,
    /// A byte array of fixed size met a length other than its own.
    InvalidLength,
    /// The bytes of a string are not UTF-8.
    String(core::str::Utf8Error),
}

/// A `DecodeError` as contracts speak of it: the same cases, without the
/// standard library's account of where the UTF-8 went wrong.
pub enum Failure {
    IncorrectType { struct_name: &'static str, field: &'static str, val_type: u8 },
    InvalidType,
    Eof,
    InvalidLength,
    String,
}

impl View for DecodeError {
    type V = Failure;

    open spec fn view(&self) -> Failure {
        match *self {
            DecodeError::IncorrectType { struct_name, field, val_type } => Failure::IncorrectType {
                struct_name,
                field,
                val_type,
            },
            DecodeError::InvalidType => Failure::InvalidType,
            DecodeError::Eof => Failure::Eof,
            DecodeError::InvalidLength => Failure::InvalidLength,
            DecodeError::String(_) => Failure::String,
        }
    }
}

/// The output would not fit into what the sink can still take.
#[derive(Debug)]
pub struct EncodeError;

impl From<core::str::Utf8Error> for DecodeError {
    fn from(err: core::str::Utf8Error) -> (r: Self) {
        DecodeError::String(err)
    }
}

impl vstd::std_specs::convert::FromSpecImpl<core::str::Utf8Error> for DecodeError {
    open spec fn obeys_from_spec() -> bool {
        true
    }

    open spec fn from_spec(err: core::str::Utf8Error) -> Self {
        DecodeError::String(err)
    }
}

/// The decimal digit `d` as text.
pub open spec fn digit_text(d: nat) -> Seq<char> {
    if d == 0 {
        "0"@
    } else if d == 1 {
        "1"@
    } else if d == 2 {
        "2"@
    } else if d == 3 {
        "3"@
    } else if d == 4 {
        "4"@
    } else if d == 5 {
        "5"@
    } else if d == 6 {
        "6"@
    } else if d == 7 {
        "7"@
    } else if d == 8 {
        "8"@
    } else {
        "9"@
    }
}

/// A number below 256 in decimal digits, without leading zeros.
pub open spec fn decimal_text(n: u8) -> Seq<char> {
    if n >= 100 {
        digit_text(n as nat / 100) + digit_text(n as nat / 10 % 10) + digit_text(n as nat % 10)
    } else if n >= 10 {
        digit_text(n as nat / 10) + digit_text(n as nat % 10)
    } else {
        digit_text(n as nat)
    }
}

/// A type code as messages show it: by the name of its family where it
/// has one, by its number where it has none.
pub open spec fn type_text(t: u8) -> Seq<char> {
    match Type::spec_from_u8(t) {
        Some(family) => family.spec_name(),
        None => decimal_text(t),
    }
}

/// The decimal digit `d` as text.
fn digit(d: u8) -> (s: &'static str)
    requires
        d <= 9,
    ensures
        s@ == digit_text(d as nat),
{
    match d {
        0 => "0",
        1 => "1",
        2 => "2",
        3 => "3",
        4 => "4",
        5 => "5",
        6 => "6",
        7 => "7",
        8 => "8",
        _ => "9",
    }
}

/// `n` in decimal digits, without leading zeros.
fn decimal(n: u8) -> (s: String)
    ensures
        s@ == decimal_text(n),
{
    let mut s = String::new();
    if n >= 100 {
        s.append(digit(n / 100));
    }
    if n >= 10 {
        s.append(digit(n / 10 % 10));
    }
    s.append(digit(n % 10));
    proof {
        assert(s@ =~= decimal_text(n));
    }
    s
}

/// `Utf8Error` as it shows itself, through `ToString::to_string`. Nothing
/// is claimed of the text.
#[verifier::external_body]
fn utf8_error_text(err: &core::str::Utf8Error) -> String {
    err.to_string()
}

impl DecodeError {
    /// The text of all messages but that of the standard library for bytes
    /// that are not UTF-8.
    pub open spec fn spec_message(&self) -> Seq<char> {
        match *self {
            DecodeError::IncorrectType { struct_name, field, val_type } => "incorrect type("@
                + type_text(val_type) + ") of field "@ + field@ + " in struct "@ + struct_name@,
            DecodeError::InvalidType => "invalid type"@,
            DecodeError::Eof => "unexpected eof"@,
            DecodeError::InvalidLength => "invalid length"@,
            DecodeError::String(_) => Seq::empty(),
        }
    }

    /// The error in words.
    pub fn message(&self) -> (s: String)
        ensures
            !(self is String) ==> s@ == self.spec_message(),
    {
        match self {
            DecodeError::IncorrectType { struct_name, field, val_type } => {
                let mut s = String::from_str("incorrect type(");
                match Type::from_u8(*val_type) {
                    Some(t) => s.append(t.name()),
                    None => s.append(decimal(*val_type).as_str()),
                }
                s.append(") of field ");
                s.append(field);
                s.append(" in struct ");
                s.append(struct_name);
                proof {
                    assert(s@ =~= self.spec_message());
                }
                s
            },
            DecodeError::InvalidType => String::from_str("invalid type"),
            DecodeError::Eof => String::from_str("unexpected eof"),
            DecodeError::InvalidLength => String::from_str("invalid length"),
            DecodeError::String(e) => utf8_error_text(e),
        }
    }
}

impl EncodeError {
    /// The error in words.
    pub fn message(&self) -> (s: String)
        ensures
            s@ == "encode length exceeds buffer"@,
    {
        String::from_str("encode length exceeds buffer")
    }
}

} // verus!
