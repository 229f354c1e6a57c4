//! The failures that decoding can end in.

use vstd::prelude::*;
use vstd::string::*;

verus! {

/// Why a text could not be decoded.
#[derive(Debug, PartialEq, Eq)]
pub enum Error {
    /// A failure described in words, such as a key that the record does not have.
    Message(String),
    /// The text ended where more was expected.
    Eof,
    /// A truth value was expected: `1` or `0`.
    ExpectedBoolean,
    /// A decimal number was expected, within the range of its width.
    ExpectedInteger,
    /// A string was expected.
    ExpectedString,
    /// A single space was expected between two elements of a tuple.
    ExpectedArraySeperator,
    /// A `=` was expected between a key and its value.
    ExpectedValueSeperator,
    /// A line break was expected.
    ExpectedNewline,
    /// The text does not continue with the tag of the record that was asked for.
    ExpectedStructName,
    /// A line is indented more deeply than its place allows.
    WrongLevel,
}

impl Error {
    /// The description of the failure.
    pub open spec fn text(&self) -> Seq<char> {
        match self {
            Error::Message(msg) => msg@,
            Error::Eof => "unexpected end of input"@,
            Error::ExpectedBoolean => "expected bool"@,
            Error::ExpectedInteger => "expected integer"@,
            Error::ExpectedString => "expected String"@,
            Error::ExpectedArraySeperator => "expected array seperator (Blank)"@,
            Error::ExpectedValueSeperator => "expected value seperator (=)"@,
            Error::ExpectedNewline => "expected newline"@,
            Error::ExpectedStructName => "expected struct name"@,
            Error::WrongLevel => "wrong indention level"@,
        }
    }

    /// Describes the failure in words.
    pub fn to_string(&self) -> (r: String)
        ensures
            r@ == self.text(),
    {
        match self {
            Error::Message(msg) => msg.clone(),
            Error::Eof => String::from_str("unexpected end of input"),
            Error::ExpectedBoolean => String::from_str("expected bool"),
            Error::ExpectedInteger => String::from_str("expected integer"),
            Error::ExpectedString => String::from_str("expected String"),
            Error::ExpectedArraySeperator => String::from_str("expected array seperator (Blank)"),
            Error::ExpectedValueSeperator => String::from_str("expected value seperator (=)"),
            Error::ExpectedNewline => String::from_str("expected newline"),
            Error::ExpectedStructName => String::from_str("expected struct name"),
            Error::WrongLevel => String::from_str("wrong indention level"),
        }
    }
}

} // verus!
