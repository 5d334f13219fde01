//! The closed set of failures a parse or a render can end with.

use vstd::prelude::*;

verus! {

/// Why the underlying byte stream could not deliver.
#[derive(Debug, Clone, Copy, PartialEq, Eq)]
pub enum IoKind {
    /// The bytes ran out while a token still needed some.
    UnexpectedEof,
    /// Any other failure of the stream.
    Other,
}

/// Every failure is fatal to the call that met it: nothing is retried and
/// nothing is recovered.
#[derive(Debug, PartialEq, Eq)]
pub enum Error {
    /// The byte stream failed or ended too early.
    Io(IoKind),
    /// A value that is not a string or a character was used as a map key.
    KeyNotString,
    /// The given delimiter was opened and never closed.
    Unclosed(char),
    /// Captured bytes are not valid UTF-8.
    Utf8,
    /// A token other than the one the grammar asks for.
    Unexpected { found: String, expected: Option<String> },
    /// An escape sequence that is cut short or malformed.
    InvalidEscape,
    /// Integer text that is empty or does not fit the requested width.
    ParseInt,
    /// Number text that is not a floating-point number.
    ParseFloat,
    /// A failure raised by the code that maps values to and from the data model.
    Message(String),
}

/// What an [`Error`] says, with its texts as character sequences.
pub enum ErrorView {
    Io(IoKind),
    KeyNotString,
    Unclosed(char),
    Utf8,
    Unexpected { found: Seq<char>, expected: Option<Seq<char>> },
    InvalidEscape,
    ParseInt,
    ParseFloat,
    Message(Seq<char>),
}

impl View for Error {
    type V = ErrorView;

    open spec fn view(&self) -> ErrorView {
        match *self {
            Error::Io(kind) => ErrorView::Io(kind),
            Error::KeyNotString => ErrorView::KeyNotString,
            Error::Unclosed(delimiter) => ErrorView::Unclosed(delimiter),
            Error::Utf8 => ErrorView::Utf8,
            Error::Unexpected { found, expected } => ErrorView::Unexpected {
                found: found@,
                expected: match expected {
                    Some(text) => Some(text@),
                    None => None,
                },
            },
            Error::InvalidEscape => ErrorView::InvalidEscape,
            Error::ParseInt => ErrorView::ParseInt,
            Error::ParseFloat => ErrorView::ParseFloat,
            Error::Message(text) => ErrorView::Message(text@),
        }
    }
}

/// The end-of-input failure.
pub open spec fn eof() -> ErrorView {
    ErrorView::Io(IoKind::UnexpectedEof)
}

/// The mismatch between the byte `found` and the character `expected`.
pub open spec fn unexpected_byte(found: u8, expected: char) -> ErrorView {
    ErrorView::Unexpected { found: seq![found as char], expected: Some(seq![expected]) }
}

/// A result with its payload and its error both taken by their views.
pub open spec fn view_result<T: View>(r: Result<T, Error>) -> Result<T::V, ErrorView> {
    match r {
        Ok(value) => Ok(value@),
        Err(error) => Err(error@),
    }
}

impl Error {
    /// An error raised outside the codec, carrying only its message.
    pub fn custom(msg: &str) -> (e: Error)
        ensures
            e@ == ErrorView::Message(msg@),
    {
        Error::Message(msg.to_owned())
    }
}

} // verus!
