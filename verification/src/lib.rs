//! Decoding of URL query strings (the bytes after `?`) into typed values.
//!
//! The same raw `key=value&key=value` syntax is read under one of four
//! interpretation modes, because repeated and bracketed keys are ambiguous
//! across web conventions:
//!
//! - [`Config::UrlEncoded`]: one value per key, the last occurrence wins;
//! - [`Config::Duplicate`]: every occurrence of a key is kept, so a key can
//!   decode to a sequence;
//! - [`Config::Delimiter`]: one value per key, read as a sequence by
//!   splitting at a caller-chosen separator byte;
//! - [`Config::Brackets`]: PHP-style `name[]` and `name[sub]` keys group
//!   into one-level sequences and maps.
//!
//! [`from_bytes`] parses the input under a mode and hands back a
//! [`QSDeserializer`]: a single-pass bridge that yields one decoded key and
//! one value [`Group`] at a time. The consumer reads each group as a scalar
//! or as a sequence and coerces the bytes with the helpers in [`coerce`].
//! Keys are percent-decoded up front (so differently encoded spellings of a
//! key are one key); values are decoded when they are read. Every failure
//! is one of the four [`ErrorKind`]s, and the laws the pipeline obeys are
//! stated and proved in [`laws`].

mod brackets;
pub mod coerce;
mod de;
mod delimiter;
mod duplicate;
mod entries;
mod error;
mod group;
pub mod laws;
mod slices;
mod split;
mod urlencoded;

pub use brackets::{BracketEntry, BracketGroup, BracketsQS};
pub use de::{from_bytes, Config, Pair, QSDeserializer};
pub use delimiter::DelimiterQS;
pub use duplicate::{DuplicateQS, GroupEntry};
pub use entries::FlatEntry;
pub use error::{Error, ErrorKind};
pub use group::Group;
pub use slices::{OptSlice, RawSlice};
pub use urlencoded::UrlEncodedQS;
