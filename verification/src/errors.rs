//! Error types for the parser library.
use vstd::prelude::*;

verus! {

/// Every error that parsing or serializing a YPBank document can produce.
///
/// The strings carry a human-readable explanation; contracts speak of the
/// variant (see [`ParseError::kind`]).
#[derive(Debug)]
pub enum ParseError {
    /// I/O-level error, such as a line of text that is not valid UTF-8.
    Io(String),
    /// CSV parsing or deserialization error.
    Csv(String),
    /// Text format parsing error with line number and message.
    TextFormat { line: usize, message: String },
    /// Binary format error.
    BinaryFormat(String),
    /// Invalid field value error.
    InvalidField { field: String, value: String },
    /// UTF-8 conversion error.
    Utf8(String),
    /// Error while turning the fields of a text record into a record.
    Json(String),
    /// Integer conversion error.
    TryFromInt(String),
}

/// Results of the library's operations.
pub type Result<T> = std::result::Result<T, ParseError>;

/// The variant of a [`ParseError`], without its explanation.
#[derive(Debug, Clone, Copy, PartialEq, Eq, Structural)]
pub enum ErrorKind {
    Io,
    Csv,
    TextFormat,
    BinaryFormat,
    InvalidField,
    Utf8,
    Json,
    TryFromInt,
}

impl ParseError {
    /// The variant of this error.
    pub open spec fn kind(&self) -> ErrorKind {
        match self {
            ParseError::Io(_) => ErrorKind::Io,
            ParseError::Csv(_) => ErrorKind::Csv,
            ParseError::TextFormat { .. } => ErrorKind::TextFormat,
            ParseError::BinaryFormat(_) => ErrorKind::BinaryFormat,
            ParseError::InvalidField { .. } => ErrorKind::InvalidField,
            ParseError::Utf8(_) => ErrorKind::Utf8,
            ParseError::Json(_) => ErrorKind::Json,
            ParseError::TryFromInt(_) => ErrorKind::TryFromInt,
        }
    }

    /// The variant of this error, computed.
    pub fn error_kind(&self) -> (k: ErrorKind)
        ensures
            k == self.kind(),
    {
        match self {
            ParseError::Io(_) => ErrorKind::Io,
            ParseError::Csv(_) => ErrorKind::Csv,
            ParseError::TextFormat { .. } => ErrorKind::TextFormat,
            ParseError::BinaryFormat(_) => ErrorKind::BinaryFormat,
            ParseError::InvalidField { .. } => ErrorKind::InvalidField,
            ParseError::Utf8(_) => ErrorKind::Utf8,
            ParseError::Json(_) => ErrorKind::Json,
            ParseError::TryFromInt(_) => ErrorKind::TryFromInt,
        }
    }
}

} // verus!
