//! Errors of the two-stage bulk data reader.
use vstd::prelude::*;

verus! {

#[derive(Debug, PartialEq)]
pub enum Error {
    EmbeddedSpace,
    UnexpectedChar(u8),
    TextTooLong(Vec<u8>),
    InvalidField,
    UnparsedChars,
}

/// The model of an [`Error`].
pub enum ErrorView {
    EmbeddedSpace,
    UnexpectedChar(u8),
    TextTooLong(Seq<u8>),
    InvalidField,
    UnparsedChars,
}

impl View for Error {
    type V = ErrorView;

    open spec fn view(&self) -> ErrorView {
        match self {
            Error::EmbeddedSpace => ErrorView::EmbeddedSpace,
            Error::UnexpectedChar(c) => ErrorView::UnexpectedChar(*c),
            Error::TextTooLong(t) => ErrorView::TextTooLong(t@),
            Error::InvalidField => ErrorView::InvalidField,
            Error::UnparsedChars => ErrorView::UnparsedChars,
        }
    }
}

} // verus!
