//! Reader for NASTRAN input decks ("dat files"): fields, lines, cards and the
//! deck they make up.
mod card;
mod deck;
mod field;

pub use card::{Card, CardView};
pub use deck::{
    get_long_slice, get_short_slice, option_from_slice, parse_buffer, parse_line, read_comments,
    read_first_field, read_header, split_line, Deck, DeckView, FirstField, WorkingDeck,
    WorkingView,
};
pub use field::{
    maybe_any_field, maybe_any_field_checked, maybe_field, maybe_field_checked, maybe_first_field,
    maybe_number, maybe_number_checked, maybe_string,
    trailing_continuation, Field, FieldView,
};

use vstd::prelude::*;

verus! {

/// What `String::from_utf8_lossy` makes of a byte sequence.
pub uninterp spec fn utf8_lossy(bytes: Seq<u8>) -> Seq<char>;

/// Calls `String::from_utf8_lossy` and takes the owned string. The result is
/// named `utf8_lossy` of the bytes; for bytes that are all ASCII (hence valid
/// UTF-8) std documents that the text is the bytes themselves.
#[verifier::external_body]
fn lossy_string(bytes: &[u8]) -> (r: String)
    ensures
        r@ == utf8_lossy(bytes@),
        (forall|i: int| 0 <= i < bytes@.len() ==> bytes@[i] < 128) ==> r@.len() == bytes@.len()
            && forall|i: int| 0 <= i < bytes@.len() ==> r@[i] as u32 == bytes@[i] as u32,
{
    String::from_utf8_lossy(bytes).into_owned()
}

/// Conversion of raw bytes to text for messages and printing.
pub trait BufferUtil {
    fn to_string_lossy(self) -> String;
}

impl<'a> BufferUtil for &'a [u8] {
    fn to_string_lossy(self) -> (r: String)
        ensures
            r@ == utf8_lossy(self@),
    {
        lossy_string(self)
    }
}

/// Errors of the deck reader.
#[derive(Debug, PartialEq)]
pub enum Error<'a> {
    ParseFailure,
    UnexpectedFieldEnd(&'a [u8]),
    UnexpectedCharInField(&'a [u8]),
    UnexpectedContinuation([u8; 8]),
    LineError(usize, Box<Error<'a>>),
    UnmatchedContinuation([u8; 8]),
    NotPossible(&'static str),
}

/// The model of an [`Error`]: byte contents as sequences.
pub enum ErrorView {
    ParseFailure,
    UnexpectedFieldEnd(Seq<u8>),
    UnexpectedCharInField(Seq<u8>),
    UnexpectedContinuation(Seq<u8>),
    LineError(nat, Box<ErrorView>),
    UnmatchedContinuation(Seq<u8>),
    NotPossible,
}

pub open spec fn error_view(e: &Error) -> ErrorView
    decreases e,
{
    match e {
        Error::ParseFailure => ErrorView::ParseFailure,
        Error::UnexpectedFieldEnd(b) => ErrorView::UnexpectedFieldEnd(b@),
        Error::UnexpectedCharInField(b) => ErrorView::UnexpectedCharInField(b@),
        Error::UnexpectedContinuation(c) => ErrorView::UnexpectedContinuation(c@),
        Error::LineError(n, inner) => ErrorView::LineError(*n as nat, Box::new(error_view(inner))),
        Error::UnmatchedContinuation(c) => ErrorView::UnmatchedContinuation(c@),
        Error::NotPossible(_) => ErrorView::NotPossible,
    }
}

impl View for Error<'_> {
    type V = ErrorView;

    open spec fn view(&self) -> ErrorView {
        error_view(self)
    }
}

} // verus!
