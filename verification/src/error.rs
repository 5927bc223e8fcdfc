//! The error taxonomy. Every failing operation reports one of these; no
//! partial trees or values are ever returned alongside one.

use vstd::prelude::*;

verus! {

/// What the parser was looking for when the text ran out or surprised it.
#[derive(Debug, Clone, Copy, PartialEq, Eq, Structural)]
pub enum Expected {
    /// A token start: a quote, a brace, or a `#base` marker.
    TokenStart,
    /// The closing quote of a quoted string.
    ClosingQuote,
    /// The quoted path after a `#base` marker.
    ImportPath,
    /// A quoted value or an opening brace after a key.
    ValueOrSection,
    /// A quoted key, an import, or the end of the input.
    KeyOrImport,
    /// A quoted key or the closing brace of a section.
    KeyOrClose,
}

/// A syntax failure: the character position it was noticed at, and what was
/// expected there.
#[derive(Debug, Clone, Copy, PartialEq, Eq, Structural)]
pub struct SyntaxError {
    pub at: usize,
    pub expected: Expected,
}

/// Everything that can go wrong while reading, parsing, decoding or encoding.
#[derive(Debug)]
pub enum Error {
    /// A file could not be read; carries the reader's message.
    ReadFileError(String),
    /// A file's bytes were not valid text; carries the decoder's message.
    ReadUtf8Error(String),
    /// The input text does not follow the grammar.
    ParseKeyValueError(SyntaxError),
    /// A scalar was required but something else was found, or a scalar's
    /// text was not parseable as the requested primitive.
    ExpectedValueError,
    /// A unit value requires an empty scalar.
    ExpectedUnitError,
    /// A character value requires a scalar of exactly one character.
    ExpectedCharError,
    /// A section was required but a scalar was found.
    ExpectedSectionError,
    /// A boolean scalar must be exactly `0` or `1`.
    ParseBoolError,
    /// A section could not be read back as a sequence.
    SectionIsNotSequence,
    /// Any other failure, described in text.
    Custom(String),
}

/// The kind of an error, with payloads dropped: what contracts speak about.
pub enum ErrorKind {
    ReadFileError,
    ReadUtf8Error,
    ParseKeyValueError,
    ExpectedValueError,
    ExpectedUnitError,
    ExpectedCharError,
    ExpectedSectionError,
    ParseBoolError,
    SectionIsNotSequence,
    Custom,
}

impl Error {
    /// The kind of this error.
    pub open spec fn kind(&self) -> ErrorKind {
        match self {
            Error::ReadFileError(_) => ErrorKind::ReadFileError,
            Error::ReadUtf8Error(_) => ErrorKind::ReadUtf8Error,
            Error::ParseKeyValueError(_) => ErrorKind::ParseKeyValueError,
            Error::ExpectedValueError => ErrorKind::ExpectedValueError,
            Error::ExpectedUnitError => ErrorKind::ExpectedUnitError,
            Error::ExpectedCharError => ErrorKind::ExpectedCharError,
            Error::ExpectedSectionError => ErrorKind::ExpectedSectionError,
            Error::ParseBoolError => ErrorKind::ParseBoolError,
            Error::SectionIsNotSequence => ErrorKind::SectionIsNotSequence,
            Error::Custom(_) => ErrorKind::Custom,
        }
    }
}

} // verus!
