//! Errors of the bulk data reader.
use vstd::prelude::*;

use super::field::{Field, FieldView};

verus! {

#[derive(Debug, PartialEq)]
pub enum Error {
    EmbeddedSpace,
    UnexpectedChar(u8),
    TextTooLong(Vec<u8>),
    InvalidField,
    UnparsedChars,
    UnmatchedContinuation([u8; 7]),
    UnexpectedCardType([u8; 7], [u8; 7]),
    UnexpectedField(&'static str, Field),
    UnexpectedDOF(Field),
    DuplicateCard,
}

/// The model of an [`Error`].
pub enum ErrorView {
    EmbeddedSpace,
    UnexpectedChar(u8),
    TextTooLong(Seq<u8>),
    InvalidField,
    UnparsedChars,
    UnmatchedContinuation(Seq<u8>),
    UnexpectedCardType(Seq<u8>, Seq<u8>),
    UnexpectedField(FieldView),
    UnexpectedDOF(FieldView),
    DuplicateCard,
}

impl View for Error {
    type V = ErrorView;

    open spec fn view(&self) -> ErrorView {
        match self {
            Error::EmbeddedSpace => ErrorView::EmbeddedSpace,
            Error::UnexpectedChar(c) => ErrorView::UnexpectedChar(*c),
            Error::TextTooLong(t) => ErrorView::TextTooLong(t@),
            Error::InvalidField => ErrorView::InvalidField,
            Error::UnparsedChars => ErrorView::UnparsedChars,
            Error::UnmatchedContinuation(c) => ErrorView::UnmatchedContinuation(c@),
            Error::UnexpectedCardType(a, b) => ErrorView::UnexpectedCardType(a@, b@),
            Error::UnexpectedField(_, f) => ErrorView::UnexpectedField(f@),
            Error::UnexpectedDOF(f) => ErrorView::UnexpectedDOF(f@),
            Error::DuplicateCard => ErrorView::DuplicateCard,
        }
    }
}

} // verus!
