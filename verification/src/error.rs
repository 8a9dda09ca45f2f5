//! The error type shared by the writer, the builder and the reader.

use vstd::prelude::*;

verus! {

/// Why an operation on an index was refused.
#[derive(Clone, Copy, Debug, PartialEq, Eq, Structural)]
pub enum Error {
    /// A read fell outside the index, or the index is malformed.
    Io,
    /// A key arrived that sorts before the key added last.
    Order,
    /// The builder has already produced its index.
    Finished,
    /// An edge label or a staged key is not valid UTF-8.
    Utf8,
    /// A value has bits set above the low 60.
    Range,
    /// A key, or the values stored under one key, do not fit the node layout.
    TooLarge,
}

impl Error {
    /// The text shown to a user for this error.
    pub open spec fn spec_message(self) -> Seq<char> {
        match self {
            Error::Io => "I/O error: the index is truncated or malformed"@,
            Error::Order => "Tried to write keys in non-lexicographic order"@,
            Error::Finished => "Cannot add to a tree that is finished writing"@,
            Error::Utf8 => "String contains invalid UTF-8"@,
            Error::Range => "Values must be smaller than 2**60"@,
            Error::TooLarge => "Key or value list too large for the index format"@,
        }
    }

    /// Renders the error as text.
    pub fn message(&self) -> (text: String)
        ensures
            text@ == self.spec_message(),
    {
        match self {
            Error::Io => "I/O error: the index is truncated or malformed".to_owned(),
            Error::Order => "Tried to write keys in non-lexicographic order".to_owned(),
            Error::Finished => "Cannot add to a tree that is finished writing".to_owned(),
            Error::Utf8 => "String contains invalid UTF-8".to_owned(),
            Error::Range => "Values must be smaller than 2**60".to_owned(),
            Error::TooLarge => "Key or value list too large for the index format".to_owned(),
        }
    }
}

} // verus!
