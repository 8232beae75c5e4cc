//! A dense, tag-based binary wire format: every value travels behind a small
//! header that names its field tag and its type code, so that a reader can
//! step over the fields it does not know.
//!
//! The functions here are executable Rust; what each returns or writes is
//! stated over byte sequences and proved.
//!
//! - `types`, `error`: type codes, headers, and the ways to fail.
//! - `cursor`, `de`, `ser`: big-endian numbers, headers and length prefixes,
//!   read from the front of a byte slice and appended to a byte vector.
//! - `skip`: stepping over a value of any type without reading it.
//! - `tree`, `kind`, `parse`: values and kinds as contracts speak of them:
//!   the bytes of a value, and the value in bytes.
//! - `typed`: Rust's own types as values: integers, truth values, byte
//!   sequences, strings, lists, maps, optional values.
//! - `datum`, `decode`, `size`, `structure`, `tags`: values of any kind and
//!   structures of any layout, written, measured and read.
//! - `value`: reading without a layout.
//! - `laws`, `round_trip`, `forward`, `failures`: what holds between
//!   writing and reading.

pub mod cursor;
pub mod datum;
pub mod de;
pub mod decode;
pub mod error;
pub mod failures;
pub mod forward;
pub mod kind;
pub mod laws;
pub mod parse;
pub mod round_trip;
pub mod ser;
pub mod size;
pub mod skip;
pub mod structure;
pub mod tags;
pub mod tree;
pub mod typed;
pub mod types;
pub mod value;

pub use crate::structure::JceStruct;
