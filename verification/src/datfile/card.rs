//! A card of the deck: a first field, data fields and what the line carried
//! besides.
use vstd::prelude::*;

use super::field::{Field, FieldView};

verus! {

/// A card as read from one line, or several once continuations are merged.
#[derive(Debug, PartialEq)]
pub struct Card<'a> {
    pub first: Option<Field>,
    pub fields: Vec<Field>,
    pub continuation: [u8; 8],
    pub comment: Option<&'a [u8]>,
    pub is_double: bool,
    pub is_comma: bool,
    pub unparsed: Option<&'a [u8]>,
}

/// The model of a [`Card`].
pub struct CardView {
    pub first: Option<FieldView>,
    pub fields: Seq<FieldView>,
    pub continuation: Seq<u8>,
    pub comment: Option<Seq<u8>>,
    pub is_double: bool,
    pub is_comma: bool,
    pub unparsed: Option<Seq<u8>>,
}

pub open spec fn opt_bytes(o: Option<&[u8]>) -> Option<Seq<u8>> {
    match o {
        Some(b) => Some(b@),
        None => None,
    }
}

pub open spec fn opt_field(o: Option<Field>) -> Option<FieldView> {
    match o {
        Some(f) => Some(f@),
        None => None,
    }
}

pub open spec fn fields_view(v: Seq<Field>) -> Seq<FieldView> {
    v.map_values(|f: Field| f@)
}

impl View for Card<'_> {
    type V = CardView;

    open spec fn view(&self) -> CardView {
        CardView {
            first: opt_field(self.first),
            fields: fields_view(self.fields@),
            continuation: self.continuation@,
            comment: opt_bytes(self.comment),
            is_double: self.is_double,
            is_comma: self.is_comma,
            unparsed: opt_bytes(self.unparsed),
        }
    }
}

/// The card that results from appending a continuation card to `c`.
pub open spec fn merged(c: CardView, cont: CardView) -> CardView {
    CardView {
        fields: c.fields + cont.fields,
        is_double: c.is_double || cont.is_double,
        continuation: cont.continuation,
        ..c
    }
}

impl<'a> Card<'a> {
    /// Appends the fields of a continuation card; the card takes over the
    /// continuation's trailing name and becomes large-field if either was.
    pub fn merge(&mut self, card: Card<'a>)
        ensures
            final(self)@ == merged(old(self)@, card@),
    {
        let mut card = card;
        let ghost old_fields = self.fields@;
        let ghost more = card.fields@;
        self.fields.append(&mut card.fields);
        self.is_double = self.is_double || card.is_double;
        self.continuation = card.continuation;
        proof {
            assert(self.fields@ == old_fields + more);
            assert(fields_view(self.fields@) =~= fields_view(old_fields) + fields_view(more));
        }
    }
}

} // verus!
