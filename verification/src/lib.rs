//! A codec for the `cs2` text format: records of named fields, written one
//! field to a line, nested by dots.
//!
//! ```text
//! lokomotive
//!  .name=Lok
//!  .funktionen
//!  ..nr=1
//!  .funktionen
//!  ..nr=2
//!  .blocks=0 0 0 0
//! ```
//!
//! A record begins with a header line that holds its tag. Each field of it
//! stands on a line of its own: a space, one dot for every record around
//! the field that counts as a level, the key, and, for a scalar or a tuple,
//! a `=` and the value. A nested record uses the line of its key as its
//! header. A sequence of records is a run of blocks with one tag at one
//! depth; nothing but the next line tells where it ends. A record whose tag
//! stands in square brackets is the transparent root: it counts as no level.
//!
//! [`to_string`] encodes a [`value::Record`], [`from_str`] decodes one that
//! a [`value::RecordShape`] describes. [`Serializer`] and [`Deserializer`]
//! are the encoder and the decoder step by step, for a caller that walks
//! its own data. The module [`layout`] states what text a record has,
//! [`round_trip`] that a record is read back from its text, and
//! [`missing`] what is read for a field of which a text holds nothing.

pub mod de;
pub mod decode;
pub mod error;
pub mod layout;
pub mod missing;
pub mod round_trip;
pub mod ser;
pub mod text;
pub mod value;

pub use crate::de::Deserializer;
pub use crate::decode::from_str;
pub use crate::error::Error;
pub use crate::ser::{to_string, Serializer};
