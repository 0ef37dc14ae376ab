//! The two-stage bulk data reader: lines split into unparsed cards of
//! fixed-width byte fields (fixed-column or comma separated), then each card
//! parsed field by field.
use vstd::prelude::*;

pub use super::error::{Error, ErrorView};
pub use super::field::{
    parse_first_field, parse_inner_field, parse_trailing_field, spec_first_field,
    spec_inner_field, spec_trailing_field, Field, FieldView, FirstField, FirstFieldKind, KindView,
    TrailingField, UnparsedDoubleField, UnparsedFirstField, UnparsedSingleField,
    UnparsedTrailingField,
};
use super::line::{
    lemma_next_field, line_peek, line_rest, line_take, next_field, NastranLineIter,
    LineView,
};
use crate::bdf::lines::{expand, fixed_field, opt_bytes, Comment, comment_bytes};
use crate::scan::{padded, pad8, COMMA, CR, LF, PLUS, SPACE, STAR};

verus! {

// ---------------------------------------------------------------------------
// Unparsed cards

/// The fields of a line as read, before parsing.
#[derive(Debug)]
pub enum UnparsedFieldData {
    Blank,
    Single(UnparsedFirstField, [UnparsedSingleField; 8], UnparsedTrailingField),
    Double(UnparsedFirstField, [UnparsedDoubleField; 4], UnparsedTrailingField),
}

/// The model of [`UnparsedFieldData`]: the first field, the data fields and
/// the trailing field as bytes.
pub enum UnparsedDataView {
    Blank,
    Single(Seq<u8>, Seq<Seq<u8>>, Seq<u8>),
    Double(Seq<u8>, Seq<Seq<u8>>, Seq<u8>),
}

pub open spec fn single_views(s: Seq<UnparsedSingleField>) -> Seq<Seq<u8>> {
    s.map_values(|f: UnparsedSingleField| f.0@)
}

pub open spec fn double_views(s: Seq<UnparsedDoubleField>) -> Seq<Seq<u8>> {
    s.map_values(|f: UnparsedDoubleField| f.0@)
}

impl View for UnparsedFieldData {
    type V = UnparsedDataView;

    open spec fn view(&self) -> UnparsedDataView {
        match self {
            UnparsedFieldData::Blank => UnparsedDataView::Blank,
            UnparsedFieldData::Single(f, fs, t) => UnparsedDataView::Single(
                f.0@,
                single_views(fs@),
                t.0@,
            ),
            UnparsedFieldData::Double(f, fs, t) => UnparsedDataView::Double(
                f.0@,
                double_views(fs@),
                t.0@,
            ),
        }
    }
}

/// A line split into fields, with the bytes it was read from and its
/// comment.
#[derive(Debug)]
pub struct UnparsedBulkCard {
    pub original: Vec<u8>,
    pub comment: Comment,
    pub data: UnparsedFieldData,
}

/// The model of an [`UnparsedBulkCard`].
pub struct UnparsedCardView {
    pub original: Seq<u8>,
    pub comment: Seq<u8>,
    pub data: UnparsedDataView,
}

impl View for UnparsedBulkCard {
    type V = UnparsedCardView;

    open spec fn view(&self) -> UnparsedCardView {
        UnparsedCardView {
            original: self.original@,
            comment: comment_bytes(self.comment),
            data: self.data@,
        }
    }
}

/// The text of an unparsed card: its fields one after another, or a line
/// feed for a blank one.
pub open spec fn card_text(d: UnparsedDataView) -> Seq<u8> {
    match d {
        UnparsedDataView::Blank => seq![LF],
        UnparsedDataView::Single(f, fs, t) => f + fs.flatten_alt() + t,
        UnparsedDataView::Double(f, fs, t) => f + fs.flatten_alt() + t,
    }
}

/// Appends `bytes` to `out`.
fn push_all(out: &mut Vec<u8>, bytes: &[u8])
    ensures
        final(out)@ == old(out)@ + bytes@,
{
    let ghost before = out@;
    let mut j: usize = 0;
    while j < bytes.len()
        invariant
            j <= bytes@.len(),
            out@ == before + bytes@.take(j as int),
        decreases bytes@.len() - j,
    {
        out.push(bytes[j]);
        j += 1;
        assert(out@ =~= before + bytes@.take(j as int));
    }
    assert(bytes@.take(bytes@.len() as int) =~= bytes@);
}

proof fn lemma_flatten_push(s: Seq<Seq<u8>>, k: int)
    requires
        0 <= k < s.len(),
    ensures
        s.take(k + 1).flatten_alt() == s.take(k).flatten_alt() + s[k],
{
    assert(s.take(k + 1).drop_last() =~= s.take(k));
}

impl UnparsedBulkCard {
    /// The card's text, see [`card_text`].
    pub fn to_bytes(&self) -> (r: Vec<u8>)
        ensures
            r@ == card_text(self.data@),
    {
        let mut out: Vec<u8> = Vec::new();
        match &self.data {
            UnparsedFieldData::Blank => {
                out.push(LF);
                assert(out@ =~= seq![LF]);
            },
            UnparsedFieldData::Single(f, fs, t) => {
                push_all(&mut out, vstd::array::array_as_slice(&f.0));
                let ghost head = out@;
                let ghost all = single_views(fs@);
                assert(all.take(0).flatten_alt() =~= Seq::<u8>::empty());
                let mut k: usize = 0;
                while k < 8
                    invariant
                        k <= 8,
                        all == single_views(fs@),
                        out@ == head + all.take(k as int).flatten_alt(),
                    decreases 8 - k,
                {
                    push_all(&mut out, vstd::array::array_as_slice(&fs[k].0));
                    proof {
                        lemma_flatten_push(all, k as int);
                        assert(head + all.take(k + 1).flatten_alt() =~= head + all.take(
                            k as int,
                        ).flatten_alt() + fs@[k as int].0@);
                    }
                    k += 1;
                }
                assert(all.take(8) =~= all);
                push_all(&mut out, vstd::array::array_as_slice(&t.0));
            },
            UnparsedFieldData::Double(f, fs, t) => {
                push_all(&mut out, vstd::array::array_as_slice(&f.0));
                let ghost head = out@;
                let ghost all = double_views(fs@);
                assert(all.take(0).flatten_alt() =~= Seq::<u8>::empty());
                let mut k: usize = 0;
                while k < 4
                    invariant
                        k <= 4,
                        all == double_views(fs@),
                        out@ == head + all.take(k as int).flatten_alt(),
                    decreases 4 - k,
                {
                    push_all(&mut out, vstd::array::array_as_slice(&fs[k].0));
                    proof {
                        lemma_flatten_push(all, k as int);
                        assert(head + all.take(k + 1).flatten_alt() =~= head + all.take(
                            k as int,
                        ).flatten_alt() + fs@[k as int].0@);
                    }
                    k += 1;
                }
                assert(all.take(4) =~= all);
                push_all(&mut out, vstd::array::array_as_slice(&t.0));
            },
        }
        out
    }
}

// ---------------------------------------------------------------------------
// Fixed-column lines

/// The walk at the start of `line`.
pub open spec fn start_view(line: Seq<u8>) -> LineView {
    LineView { data: expand(line, 0), pos: 0, comment: None }
}

/// `count` fixed-column fields of `width` columns each, one after another.
pub open spec fn take_fields(r: LineView, count: nat, width: nat) -> (Seq<Seq<u8>>, LineView)
    decreases count,
{
    if count == 0 {
        (Seq::empty(), r)
    } else {
        let (f, r1) = line_take(r, width);
        let (rest, r2) = take_fields(r1, (count - 1) as nat, width);
        (seq![fixed_field(f, width)] + rest, r2)
    }
}

/// A fixed-column line read from `r` on: an eight column first field; four
/// sixteen column fields if the first field holds a `*`, otherwise eight
/// eight column fields; an eight column trailing field; and whatever data
/// bytes are left as the comment.
pub open spec fn fixed_card_at(r: LineView, original: Seq<u8>) -> UnparsedCardView {
    let (f0, r1) = line_take(r, 8);
    let first = fixed_field(f0, 8);
    if first.contains(STAR) {
        let (fields, r2) = take_fields(r1, 4, 16);
        let (t, r3) = line_take(r2, 8);
        UnparsedCardView {
            original,
            comment: line_rest(r3).0,
            data: UnparsedDataView::Double(first, fields, fixed_field(t, 8)),
        }
    } else {
        let (fields, r2) = take_fields(r1, 8, 8);
        let (t, r3) = line_take(r2, 8);
        UnparsedCardView {
            original,
            comment: line_rest(r3).0,
            data: UnparsedDataView::Single(first, fields, fixed_field(t, 8)),
        }
    }
}

/// A fixed-column line, see [`fixed_card_at`].
pub open spec fn fixed_card(line: Seq<u8>) -> UnparsedCardView {
    fixed_card_at(start_view(line), line)
}

/// A fixed-column line: its bytes and the walk over them.
pub struct NastranLine {
    pub original: Vec<u8>,
    pub iter: NastranLineIter,
}

impl NastranLine {
    pub fn new(line: Vec<u8>) -> (r: NastranLine)
        ensures
            r.iter.wf(),
            r.original@ == line@,
            r.iter@ == start_view(line@),
    {
        let iter = NastranLineIter::new(line.as_slice());
        NastranLine { original: line, iter }
    }
}

fn has_star(f: &[u8; 8]) -> (r: bool)
    ensures
        r == f@.contains(STAR),
{
    let mut k: usize = 0;
    while k < 8
        invariant
            k <= 8,
            forall|j: int| 0 <= j < k ==> f@[j] != STAR,
        decreases 8 - k,
    {
        if f[k] == STAR {
            assert(f@[k as int] == STAR);
            return true;
        }
        k += 1;
    }
    false
}

impl UnparsedBulkCard {
    /// Splits a fixed-column line into fields, see [`fixed_card_at`].
    pub fn from(line: NastranLine) -> (r: UnparsedBulkCard)
        requires
            line.iter.wf(),
        ensures
            r@ == fixed_card_at(line.iter@, line.original@),
    {
        let NastranLine { original, iter } = line;
        let mut iter = iter;
        let ghost r0 = iter@;
        let first = iter.take8();
        let ghost r1 = iter@;
        let double = has_star(&first);
        if double {
            let mut fields = [UnparsedDoubleField([SPACE; 16]); 4];
            let mut k: usize = 0;
            assert(double_views(fields@).take(0) =~= Seq::<Seq<u8>>::empty());
            while k < 4
                invariant
                    iter.wf(),
                    k <= 4,
                    take_fields(r1, 4, 16) == (
                        double_views(fields@).take(k as int) + take_fields(
                            iter@,
                            (4 - k) as nat,
                            16,
                        ).0,
                        take_fields(iter@, (4 - k) as nat, 16).1,
                    ),
                decreases 4 - k,
            {
                let ghost before = iter@;
                let ghost prev = double_views(fields@).take(k as int);
                let f = iter.take16();
                fields[k] = UnparsedDoubleField(f);
                assert(double_views(fields@).take(k + 1) =~= prev + seq![f@]);
                assert(prev + (seq![f@] + take_fields(iter@, (4 - k - 1) as nat, 16).0) =~= prev
                    + seq![f@] + take_fields(iter@, (4 - k - 1) as nat, 16).0);
                k += 1;
            }
            assert(double_views(fields@).take(4) =~= double_views(fields@));
            assert(double_views(fields@) + Seq::<Seq<u8>>::empty() =~= double_views(fields@));
            let trailing = iter.take8();
            let comment = iter.rest();
            UnparsedBulkCard {
                original,
                comment: Comment::from_slice(comment.as_slice()),
                data: UnparsedFieldData::Double(
                    UnparsedFirstField(first),
                    fields,
                    UnparsedTrailingField(trailing),
                ),
            }
        } else {
            let mut fields = [UnparsedSingleField([SPACE; 8]); 8];
            let mut k: usize = 0;
            assert(single_views(fields@).take(0) =~= Seq::<Seq<u8>>::empty());
            while k < 8
                invariant
                    iter.wf(),
                    k <= 8,
                    take_fields(r1, 8, 8) == (
                        single_views(fields@).take(k as int) + take_fields(
                            iter@,
                            (8 - k) as nat,
                            8,
                        ).0,
                        take_fields(iter@, (8 - k) as nat, 8).1,
                    ),
                decreases 8 - k,
            {
                let ghost prev = single_views(fields@).take(k as int);
                let f = iter.take8();
                fields[k] = UnparsedSingleField(f);
                assert(single_views(fields@).take(k + 1) =~= prev + seq![f@]);
                assert(prev + (seq![f@] + take_fields(iter@, (8 - k - 1) as nat, 8).0) =~= prev
                    + seq![f@] + take_fields(iter@, (8 - k - 1) as nat, 8).0);
                k += 1;
            }
            assert(single_views(fields@).take(8) =~= single_views(fields@));
            assert(single_views(fields@) + Seq::<Seq<u8>>::empty() =~= single_views(fields@));
            let trailing = iter.take8();
            let comment = iter.rest();
            UnparsedBulkCard {
                original,
                comment: Comment::from_slice(comment.as_slice()),
                data: UnparsedFieldData::Single(
                    UnparsedFirstField(first),
                    fields,
                    UnparsedTrailingField(trailing),
                ),
            }
        }
    }
}

// ---------------------------------------------------------------------------
// Comma separated lines

/// `n` spaces.
pub open spec fn blank(n: nat) -> Seq<u8> {
    padded(Seq::empty(), n)
}

/// A comma separated field in `w` columns: space padded, refused when
/// longer.
pub open spec fn to_width(f: Seq<u8>, w: nat) -> Result<Seq<u8>, ErrorView> {
    if f.len() > w {
        Err(ErrorView::TextTooLong(f))
    } else {
        Ok(padded(f, w))
    }
}

/// The next data field of a comma separated line in `w` columns; blank when
/// the line has no field left.
pub open spec fn comma_data_field(r: LineView, w: nat) -> (Result<Seq<u8>, ErrorView>, LineView) {
    let (f, r1) = next_field(r);
    match f {
        None => (Ok(blank(w)), r1),
        Some(f) => (to_width(f, w), r1),
    }
}

/// `count` data fields in `w` columns, stopping at the first refused.
pub open spec fn comma_fields(r: LineView, count: nat, w: nat) -> (
    Result<Seq<Seq<u8>>, ErrorView>,
    LineView,
)
    decreases count,
{
    if count == 0 {
        (Ok(Seq::empty()), r)
    } else {
        let (x, r1) = comma_data_field(r, w);
        match x {
            Err(e) => (Err(e), r1),
            Ok(f) => {
                let (rest, r2) = comma_fields(r1, (count - 1) as nat, w);
                match rest {
                    Err(e) => (Err(e), r2),
                    Ok(fs) => (Ok(seq![f] + fs), r2),
                }
            },
        }
    }
}

/// The trailing field of a comma separated line: read only where the next
/// raw byte is a `+`, a CR or an LF; blank otherwise.
pub open spec fn comma_trailing(r: LineView) -> (Result<Seq<u8>, ErrorView>, LineView) {
    match line_peek(r) {
        Some(c) => if c == PLUS || c == CR || c == LF {
            comma_data_field(r, 8)
        } else {
            (Ok(blank(8)), r)
        },
        None => (Ok(blank(8)), r),
    }
}

/// A comma separated line being read: the walk and the bytes not yet handed
/// out with a card.
pub struct CommaView {
    pub line: LineView,
    pub original: Seq<u8>,
}

/// The next card of a comma separated line. Where no field is left, the
/// comment (if the data has ended) makes a blank card, and otherwise there
/// is none. A card gets the line's bytes and comment once the data has
/// ended; the comment is then taken out of the walk.
pub open spec fn comma_next(c: CommaView) -> (
    Option<Result<UnparsedCardView, ErrorView>>,
    CommaView,
) {
    let (first, r1) = next_field(c.line);
    match first {
        None => match r1.comment {
            Some(com) => (
                Some(
                    Ok(
                        UnparsedCardView {
                            original: c.original,
                            comment: com,
                            data: UnparsedDataView::Blank,
                        },
                    ),
                ),
                CommaView { line: LineView { comment: None, ..r1 }, original: Seq::empty() },
            ),
            None => (None, CommaView { line: r1, original: c.original }),
        },
        Some(f) => match to_width(f, 8) {
            Err(e) => (Some(Err(e)), CommaView { line: r1, original: c.original }),
            Ok(first) => {
                let double = first.contains(STAR);
                let (fields, r2) = if double {
                    comma_fields(r1, 4, 16)
                } else {
                    comma_fields(r1, 8, 8)
                };
                match fields {
                    Err(e) => (Some(Err(e)), CommaView { line: r2, original: c.original }),
                    Ok(fs) => {
                        let (t, r3) = comma_trailing(r2);
                        match t {
                            Err(e) => (Some(Err(e)), CommaView { line: r3, original: c.original }),
                            Ok(t) => {
                                let data = if double {
                                    UnparsedDataView::Double(first, fs, t)
                                } else {
                                    UnparsedDataView::Single(first, fs, t)
                                };
                                let r4 = LineView { comment: None, ..r3 };
                                match r3.comment {
                                    Some(com) => (
                                        Some(
                                            Ok(
                                                UnparsedCardView {
                                                    original: c.original,
                                                    comment: com,
                                                    data,
                                                },
                                            ),
                                        ),
                                        CommaView { line: r4, original: Seq::empty() },
                                    ),
                                    None => (
                                        Some(
                                            Ok(
                                                UnparsedCardView {
                                                    original: Seq::empty(),
                                                    comment: Seq::empty(),
                                                    data,
                                                },
                                            ),
                                        ),
                                        CommaView { line: r4, original: c.original },
                                    ),
                                }
                            },
                        }
                    },
                }
            },
        },
    }
}

pub proof fn lemma_comma_fields(r: LineView, count: nat, w: nat)
    ensures
        super::line::moved_on(r, comma_fields(r, count, w).1),
    decreases count,
{
    lemma_next_field(r);
    if count > 0 {
        let (x, r1) = comma_data_field(r, w);
        if x is Ok {
            lemma_comma_fields(r1, (count - 1) as nat, w);
        }
    }
}

/// The measure that each card of a comma separated line brings down.
pub open spec fn comma_measure(c: CommaView) -> nat {
    (2 * (c.line.data.len() - c.line.pos) + if c.line.comment is Some {
        1int
    } else {
        0int
    }) as nat
}

/// Each card read from a comma separated line leaves less of it to read.
pub proof fn lemma_comma_next(c: CommaView)
    requires
        c.line.pos <= c.line.data.len(),
    ensures
        comma_next(c).1.line.pos <= comma_next(c).1.line.data.len(),
        comma_next(c).1.line.data == c.line.data,
        comma_next(c).0 is Some ==> comma_measure(comma_next(c).1) < comma_measure(c),
{
    lemma_next_field(c.line);
    let (first, r1) = next_field(c.line);
    if let Some(f) = first {
        if f.len() <= 8 {
            let first = padded(f, 8);
            let double = first.contains(STAR);
            let (fields, r2) = if double {
                comma_fields(r1, 4, 16)
            } else {
                comma_fields(r1, 8, 8)
            };
            if double {
                lemma_comma_fields(r1, 4, 16);
            } else {
                lemma_comma_fields(r1, 8, 8);
            }
            if fields is Ok {
                lemma_next_field(r2);
            }
        }
    }
}

/// Converts a comma separated field to eight columns, see [`to_width`].
fn to8(field: Vec<u8>) -> (r: Result<[u8; 8], Error>)
    ensures
        match r {
            Ok(a) => to_width(field@, 8) == Ok::<Seq<u8>, ErrorView>(a@),
            Err(e) => to_width(field@, 8) == Err::<Seq<u8>, ErrorView>(e@),
        },
{
    if field.len() > 8 {
        Err(Error::TextTooLong(field))
    } else {
        let r = pad8(field.as_slice(), 0, field.len());
        assert(field@.subrange(0, field@.len() as int) =~= field@);
        Ok(r)
    }
}

/// Converts a comma separated field to sixteen columns, see [`to_width`].
fn to16(field: Vec<u8>) -> (r: Result<[u8; 16], Error>)
    ensures
        match r {
            Ok(a) => to_width(field@, 16) == Ok::<Seq<u8>, ErrorView>(a@),
            Err(e) => to_width(field@, 16) == Err::<Seq<u8>, ErrorView>(e@),
        },
{
    if field.len() > 16 {
        Err(Error::TextTooLong(field))
    } else {
        let mut dst = [SPACE; 16];
        let mut j: usize = 0;
        while j < field.len()
            invariant
                j <= field@.len() <= 16,
                forall|i: int| 0 <= i < j ==> dst@[i] == field@[i],
                forall|i: int| j <= i < 16 ==> dst@[i] == SPACE,
            decreases field@.len() - j,
        {
            dst[j] = field[j];
            j += 1;
        }
        assert(dst@ =~= padded(field@, 16));
        Ok(dst)
    }
}

/// A comma separated line: the bytes not yet handed out with a card and the
/// walk over the line.
pub struct NastranCommaLine {
    pub original: Vec<u8>,
    pub iter: NastranLineIter,
}

impl View for NastranCommaLine {
    type V = CommaView;

    open spec fn view(&self) -> CommaView {
        CommaView { line: self.iter@, original: self.original@ }
    }
}

impl NastranCommaLine {
    pub fn new(line: Vec<u8>) -> (r: NastranCommaLine)
        ensures
            r.iter.wf(),
            r@ == (CommaView { line: start_view(line@), original: line@ }),
    {
        let iter = NastranLineIter::new(line.as_slice());
        NastranCommaLine { original: line, iter }
    }

    fn next_single_field(&mut self) -> (r: Result<UnparsedSingleField, Error>)
        requires
            old(self).iter.wf(),
        ensures
            final(self).iter.wf(),
            final(self).original == old(self).original,
            final(self).iter@ == comma_data_field(old(self).iter@, 8).1,
            match r {
                Ok(f) => comma_data_field(old(self).iter@, 8).0 == Ok::<Seq<u8>, ErrorView>(f.0@),
                Err(e) => comma_data_field(old(self).iter@, 8).0 == Err::<Seq<u8>, ErrorView>(e@),
            },
    {
        match self.iter.next_field() {
            Some(f) => match to8(f) {
                Ok(a) => Ok(UnparsedSingleField(a)),
                Err(e) => Err(e),
            },
            None => {
                let a = [SPACE; 8];
                assert(a@ =~= blank(8));
                Ok(UnparsedSingleField(a))
            },
        }
    }

    fn next_double_field(&mut self) -> (r: Result<UnparsedDoubleField, Error>)
        requires
            old(self).iter.wf(),
        ensures
            final(self).iter.wf(),
            final(self).original == old(self).original,
            final(self).iter@ == comma_data_field(old(self).iter@, 16).1,
            match r {
                Ok(f) => comma_data_field(old(self).iter@, 16).0 == Ok::<Seq<u8>, ErrorView>(
                    f.0@,
                ),
                Err(e) => comma_data_field(old(self).iter@, 16).0 == Err::<Seq<u8>, ErrorView>(
                    e@,
                ),
            },
    {
        match self.iter.next_field() {
            Some(f) => match to16(f) {
                Ok(a) => Ok(UnparsedDoubleField(a)),
                Err(e) => Err(e),
            },
            None => {
                let a = [SPACE; 16];
                assert(a@ =~= blank(16));
                Ok(UnparsedDoubleField(a))
            },
        }
    }

    fn next_trailing_field(&mut self) -> (r: Result<UnparsedTrailingField, Error>)
        requires
            old(self).iter.wf(),
        ensures
            final(self).iter.wf(),
            final(self).original == old(self).original,
            final(self).iter@ == comma_trailing(old(self).iter@).1,
            match r {
                Ok(f) => comma_trailing(old(self).iter@).0 == Ok::<Seq<u8>, ErrorView>(f.0@),
                Err(e) => comma_trailing(old(self).iter@).0 == Err::<Seq<u8>, ErrorView>(e@),
            },
    {
        let p = self.iter.peek();
        let read = match p {
            Some(c) => c == PLUS || c == CR || c == LF,
            None => false,
        };
        if read {
            match self.next_single_field() {
                Ok(f) => Ok(UnparsedTrailingField(f.0)),
                Err(e) => Err(e),
            }
        } else {
            let a = [SPACE; 8];
            assert(a@ =~= blank(8));
            Ok(UnparsedTrailingField(a))
        }
    }

    /// Takes the comment out of the walk.
    fn next_comment(&mut self) -> (r: Option<Vec<u8>>)
        requires
            old(self).iter.wf(),
        ensures
            final(self).iter.wf(),
            final(self).original == old(self).original,
            opt_bytes(r) == old(self).iter@.comment,
            final(self).iter@ == (LineView { comment: None, ..old(self).iter@ }),
    {
        self.iter.take_comment()
    }

    /// The next card of the line, see [`comma_next`].
    pub fn next(&mut self) -> (r: Option<Result<UnparsedBulkCard, Error>>)
        requires
            old(self).iter.wf(),
        ensures
            final(self).iter.wf(),
            (card_result(r), final(self)@) == comma_next(old(self)@),
    {
        let ghost c0 = self@;
        let first = self.iter.next_field();
        let first = match first {
            None => {
                match self.next_comment() {
                    Some(comment) => {
                        let mut original: Vec<u8> = Vec::new();
                        std::mem::swap(&mut original, &mut self.original);
                        return Some(
                            Ok(
                                UnparsedBulkCard {
                                    original,
                                    comment: Comment::from_slice(comment.as_slice()),
                                    data: UnparsedFieldData::Blank,
                                },
                            ),
                        );
                    },
                    None => {
                        return None;
                    },
                }
            },
            Some(f) => f,
        };
        let ghost fseq = first@;
        let first = match to8(first) {
            Ok(a) => a,
            Err(e) => {
                return Some(Err(e));
            },
        };
        let double = has_star(&first);
        let ghost r1 = self.iter@;
        if double {
            let mut fields = [UnparsedDoubleField([SPACE; 16]); 4];
            let mut k: usize = 0;
            assert(double_views(fields@).take(0) =~= Seq::<Seq<u8>>::empty());
            while k < 4
                invariant
                    self.iter.wf(),
                    self.original@ == c0.original,
                    c0 == old(self)@,
                    next_field(c0.line) == (Some(fseq), r1),
                    to_width(fseq, 8) == Ok::<Seq<u8>, ErrorView>(first@),
                    first@.contains(STAR),
                    k <= 4,
                    comma_fields(r1, 4, 16) == match comma_fields(self.iter@, (4 - k) as nat, 16).0 {
                        Ok(fs) => (
                            Ok(double_views(fields@).take(k as int) + fs),
                            comma_fields(self.iter@, (4 - k) as nat, 16).1,
                        ),
                        Err(e) => (Err(e), comma_fields(self.iter@, (4 - k) as nat, 16).1),
                    },
                decreases 4 - k,
            {
                let ghost prev = double_views(fields@).take(k as int);
                let f = match self.next_double_field() {
                    Ok(f) => f,
                    Err(e) => {
                        return Some(Err(e));
                    },
                };
                fields[k] = f;
                assert(double_views(fields@).take(k + 1) =~= prev + seq![f.0@]);
                proof {
                    let rest = comma_fields(self.iter@, (4 - k - 1) as nat, 16).0;
                    if let Ok(fs) = rest {
                        assert(prev + (seq![f.0@] + fs) =~= prev + seq![f.0@] + fs);
                    }
                }
                k += 1;
            }
            assert(double_views(fields@).take(4) =~= double_views(fields@));
            assert(double_views(fields@) + Seq::<Seq<u8>>::empty() =~= double_views(fields@));
            let trailing = match self.next_trailing_field() {
                Ok(t) => t,
                Err(e) => {
                    return Some(Err(e));
                },
            };
            let comment = self.next_comment();
            let data = UnparsedFieldData::Double(UnparsedFirstField(first), fields, trailing);
            Some(Ok(self.finish(comment, data)))
        } else {
            let mut fields = [UnparsedSingleField([SPACE; 8]); 8];
            let mut k: usize = 0;
            assert(single_views(fields@).take(0) =~= Seq::<Seq<u8>>::empty());
            while k < 8
                invariant
                    self.iter.wf(),
                    self.original@ == c0.original,
                    c0 == old(self)@,
                    next_field(c0.line) == (Some(fseq), r1),
                    to_width(fseq, 8) == Ok::<Seq<u8>, ErrorView>(first@),
                    !first@.contains(STAR),
                    k <= 8,
                    comma_fields(r1, 8, 8) == match comma_fields(self.iter@, (8 - k) as nat, 8).0 {
                        Ok(fs) => (
                            Ok(single_views(fields@).take(k as int) + fs),
                            comma_fields(self.iter@, (8 - k) as nat, 8).1,
                        ),
                        Err(e) => (Err(e), comma_fields(self.iter@, (8 - k) as nat, 8).1),
                    },
                decreases 8 - k,
            {
                let ghost prev = single_views(fields@).take(k as int);
                let f = match self.next_single_field() {
                    Ok(f) => f,
                    Err(e) => {
                        return Some(Err(e));
                    },
                };
                fields[k] = f;
                assert(single_views(fields@).take(k + 1) =~= prev + seq![f.0@]);
                proof {
                    let rest = comma_fields(self.iter@, (8 - k - 1) as nat, 8).0;
                    if let Ok(fs) = rest {
                        assert(prev + (seq![f.0@] + fs) =~= prev + seq![f.0@] + fs);
                    }
                }
                k += 1;
            }
            assert(single_views(fields@).take(8) =~= single_views(fields@));
            assert(single_views(fields@) + Seq::<Seq<u8>>::empty() =~= single_views(fields@));
            let trailing = match self.next_trailing_field() {
                Ok(t) => t,
                Err(e) => {
                    return Some(Err(e));
                },
            };
            let comment = self.next_comment();
            let data = UnparsedFieldData::Single(UnparsedFirstField(first), fields, trailing);
            Some(Ok(self.finish(comment, data)))
        }
    }

    /// A card with `data`: it gets the line's bytes and `comment` where
    /// there is one.
    fn finish(&mut self, comment: Option<Vec<u8>>, data: UnparsedFieldData) -> (r:
        UnparsedBulkCard)
        ensures
            final(self).iter == old(self).iter,
            r.data == data,
            match comment {
                Some(c) => r@.original == old(self).original@ && r@.comment == c@
                    && final(self).original@ == Seq::<u8>::empty(),
                None => r@.original == Seq::<u8>::empty() && r@.comment == Seq::<u8>::empty()
                    && final(self).original == old(self).original,
            },
    {
        match comment {
            Some(c) => {
                let mut original: Vec<u8> = Vec::new();
                std::mem::swap(&mut original, &mut self.original);
                UnparsedBulkCard { original, comment: Comment::from_slice(c.as_slice()), data }
            },
            None => {
                let empty: Vec<u8> = Vec::new();
                UnparsedBulkCard {
                    original: Vec::new(),
                    comment: Comment::from_slice(empty.as_slice()),
                    data,
                }
            },
        }
    }
}

pub open spec fn card_result(r: Option<Result<UnparsedBulkCard, Error>>) -> Option<
    Result<UnparsedCardView, ErrorView>,
> {
    match r {
        None => None,
        Some(Ok(c)) => Some(Ok(c@)),
        Some(Err(e)) => Some(Err(e@)),
    }
}

// ---------------------------------------------------------------------------
// Reading lines into unparsed cards

/// The end of the line that starts at `at`: just after its LF, or the end of
/// the bytes.
pub open spec fn line_end_at(data: Seq<u8>, at: nat) -> nat
    decreases data.len() - at,
{
    if at >= data.len() {
        data.len()
    } else if data[at as int] == LF {
        at + 1
    } else {
        line_end_at(data, at + 1)
    }
}

proof fn lemma_line_end_at(data: Seq<u8>, at: nat)
    requires
        at <= data.len(),
    ensures
        line_end_at(data, at) <= data.len(),
        at < data.len() ==> at < line_end_at(data, at),
    decreases data.len() - at,
{
    if at < data.len() && data[at as int] != LF {
        lemma_line_end_at(data, at + 1);
    }
}

/// A line is comma separated when a comma is among its first ten bytes.
pub open spec fn comma_line(line: Seq<u8>) -> bool {
    line.take(if line.len() < 10 {
        line.len() as int
    } else {
        10
    }).contains(COMMA)
}

/// The reader's state: the bytes, where the next line starts, and the comma
/// separated line being read, if any.
pub struct IterView {
    pub data: Seq<u8>,
    pub at: nat,
    pub comma: Option<CommaView>,
}

pub open spec fn iter_wf(s: IterView) -> bool {
    &&& s.at <= s.data.len()
    &&& (s.comma matches Some(c) ==> c.line.pos <= c.line.data.len())
}

/// Reads the next line: nothing at the end of the bytes; the first card of
/// a comma separated line; or the card of a fixed-column line.
pub open spec fn iter_read(s: IterView) -> (Option<Result<UnparsedCardView, ErrorView>>, IterView) {
    if s.at >= s.data.len() {
        (None, IterView { comma: None, ..s })
    } else {
        let e = line_end_at(s.data, s.at);
        let line = s.data.subrange(s.at as int, e as int);
        if comma_line(line) {
            let (x, c1) = comma_next(CommaView { line: start_view(line), original: line });
            (x, IterView { at: e, comma: Some(c1), ..s })
        } else {
            (Some(Ok(fixed_card(line))), IterView { at: e, comma: None, ..s })
        }
    }
}

/// The next unparsed card: the next one of the comma separated line being
/// read, else from the next line.
pub open spec fn iter_next(s: IterView) -> (Option<Result<UnparsedCardView, ErrorView>>, IterView) {
    match s.comma {
        Some(c) => {
            let (x, c1) = comma_next(c);
            match x {
                Some(r) => (Some(r), IterView { comma: Some(c1), ..s }),
                None => iter_read(IterView { comma: None, ..s }),
            }
        },
        None => iter_read(s),
    }
}

/// What is left of the comma separated line being read.
pub open spec fn iter_measure(c: Option<CommaView>) -> nat {
    match c {
        Some(c) => 1 + comma_measure(c),
        None => 0,
    }
}

/// Each card the reader hands out moves it to a later line or leaves less
/// of the current one.
pub proof fn lemma_iter_next(s: IterView)
    requires
        iter_wf(s),
    ensures
        iter_wf(iter_next(s).1),
        iter_next(s).1.data == s.data,
        iter_next(s).1.at >= s.at,
        iter_next(s).0 is Some ==> iter_next(s).1.at > s.at || iter_measure(iter_next(s).1.comma)
            < iter_measure(s.comma),
{
    if let Some(c) = s.comma {
        lemma_comma_next(c);
    }
    if s.at < s.data.len() {
        let e = line_end_at(s.data, s.at);
        lemma_line_end_at(s.data, s.at);
        let line = s.data.subrange(s.at as int, e as int);
        lemma_comma_next(CommaView { line: start_view(line), original: line });
    }
}

/// Reads unparsed cards from bytes, see [`iter_next`].
pub struct BulkCardIter {
    pub data: Vec<u8>,
    pub at: usize,
    pub comma_line: Option<NastranCommaLine>,
}

impl View for BulkCardIter {
    type V = IterView;

    open spec fn view(&self) -> IterView {
        IterView {
            data: self.data@,
            at: self.at as nat,
            comma: match self.comma_line {
                Some(c) => Some(c@),
                None => None,
            },
        }
    }
}

/// The end of the line that starts at `at`, see [`line_end_at`].
fn find_line_end(data: &Vec<u8>, at: usize) -> (r: usize)
    requires
        at <= data@.len(),
    ensures
        r == line_end_at(data@, at as nat),
{
    let mut j = at;
    while j < data.len() && data[j] != LF
        invariant
            at <= j <= data@.len(),
            line_end_at(data@, at as nat) == line_end_at(data@, j as nat),
        decreases data@.len() - j,
    {
        j += 1;
    }
    if j < data.len() {
        j + 1
    } else {
        j
    }
}

/// Whether a comma is among the first ten bytes, see [`comma_line`].
fn has_comma(line: &Vec<u8>) -> (r: bool)
    ensures
        r == comma_line(line@),
{
    let n = if line.len() < 10 {
        line.len()
    } else {
        10
    };
    let ghost head = line@.take(n as int);
    let mut k: usize = 0;
    while k < n
        invariant
            k <= n <= line@.len(),
            n as int == (if line@.len() < 10 {
                line@.len() as int
            } else {
                10
            }),
            head == line@.take(n as int),
            forall|j: int| 0 <= j < k ==> head[j] != COMMA,
        decreases n - k,
    {
        if line[k] == COMMA {
            assert(head[k as int] == COMMA);
            assert(head.contains(COMMA));
            assert(head == line@.take(if line@.len() < 10 {
                line@.len() as int
            } else {
                10
            }));
            return true;
        }
        k += 1;
    }
    false
}

impl BulkCardIter {
    pub open spec fn wf(&self) -> bool {
        &&& self.at <= self.data@.len()
        &&& (self.comma_line matches Some(c) ==> c.iter.wf())
    }

    /// A reader at the start of `data`.
    pub fn new(data: &[u8]) -> (r: BulkCardIter)
        ensures
            r.wf(),
            r@ == (IterView { data: data@, at: 0, comma: None }),
    {
        BulkCardIter { data: vstd::slice::slice_to_vec(data), at: 0, comma_line: None }
    }

    /// The next unparsed card, see [`iter_next`].
    pub fn next(&mut self) -> (r: Option<Result<UnparsedBulkCard, Error>>)
        requires
            old(self).wf(),
        ensures
            final(self).wf(),
            (card_result(r), final(self)@) == iter_next(old(self)@),
    {
        match self.comma_line.take() {
            Some(comma_line) => {
                let mut comma_line = comma_line;
                match comma_line.next() {
                    Some(r) => {
                        self.comma_line = Some(comma_line);
                        return Some(r);
                    },
                    None => {},
                }
            },
            None => {},
        }
        if self.at >= self.data.len() {
            return None;
        }
        let e = find_line_end(&self.data, self.at);
        proof {
            lemma_line_end_at(self.data@, self.at as nat);
        }
        let line = vstd::slice::slice_to_vec(
            vstd::slice::slice_subrange(self.data.as_slice(), self.at, e),
        );
        self.at = e;
        if has_comma(&line) {
            let mut comma_line = NastranCommaLine::new(line);
            let r = comma_line.next();
            self.comma_line = Some(comma_line);
            r
        } else {
            Some(Ok(UnparsedBulkCard::from(NastranLine::new(line))))
        }
    }
}

// ---------------------------------------------------------------------------
// Parsed cards

/// The fields of a card, parsed.
#[derive(Debug)]
pub enum FieldData {
    Blank,
    Single(FirstField, [Field; 8], UnparsedTrailingField),
    Double(FirstField, [Field; 4], UnparsedTrailingField),
}

/// The model of [`FieldData`].
pub enum FieldDataView {
    Blank,
    Single((KindView, bool), Seq<FieldView>, Seq<u8>),
    Double((KindView, bool), Seq<FieldView>, Seq<u8>),
}

pub open spec fn field_views(s: Seq<Field>) -> Seq<FieldView> {
    s.map_values(|f: Field| f@)
}

impl View for FieldData {
    type V = FieldDataView;

    open spec fn view(&self) -> FieldDataView {
        match self {
            FieldData::Blank => FieldDataView::Blank,
            FieldData::Single(f, fs, t) => FieldDataView::Single(f@, field_views(fs@), t.0@),
            FieldData::Double(f, fs, t) => FieldDataView::Double(f@, field_views(fs@), t.0@),
        }
    }
}

/// A card with its fields parsed, the bytes it was read from and its
/// comment.
#[derive(Debug)]
pub struct BulkCard {
    pub original: Vec<u8>,
    pub comment: Comment,
    pub data: FieldData,
}

/// The model of a [`BulkCard`].
pub struct BulkCardView {
    pub original: Seq<u8>,
    pub comment: Seq<u8>,
    pub data: FieldDataView,
}

impl View for BulkCard {
    type V = BulkCardView;

    open spec fn view(&self) -> BulkCardView {
        BulkCardView {
            original: self.original@,
            comment: comment_bytes(self.comment),
            data: self.data@,
        }
    }
}

/// `p` in front of a successful result; anything else unchanged.
pub open spec fn prepend<T>(p: Seq<T>, x: Option<Result<Seq<T>, ErrorView>>) -> Option<
    Result<Seq<T>, ErrorView>,
> {
    match x {
        Some(Ok(rest)) => Some(Ok(p + rest)),
        other => other,
    }
}

/// The data fields parsed in order; the first error or overflow stops it.
pub open spec fn parse_fields(fs: Seq<Seq<u8>>) -> Option<Result<Seq<FieldView>, ErrorView>>
    decreases fs.len(),
{
    if fs.len() == 0 {
        Some(Ok(Seq::empty()))
    } else {
        match spec_inner_field(fs[0]) {
            None => None,
            Some(Err(e)) => Some(Err(e)),
            Some(Ok(f)) => prepend(seq![f], parse_fields(fs.drop_first())),
        }
    }
}

/// The fields of an unparsed card parsed: the first field, then the data
/// fields in order; the trailing field is kept as read.
pub open spec fn spec_data(d: UnparsedDataView) -> Option<Result<FieldDataView, ErrorView>> {
    match d {
        UnparsedDataView::Blank => Some(Ok(FieldDataView::Blank)),
        UnparsedDataView::Single(first, fs, t) => match spec_first_field(first) {
            Err(e) => Some(Err(e)),
            Ok(ff) => match parse_fields(fs) {
                None => None,
                Some(Err(e)) => Some(Err(e)),
                Some(Ok(vs)) => Some(Ok(FieldDataView::Single(ff, vs, t))),
            },
        },
        UnparsedDataView::Double(first, fs, t) => match spec_first_field(first) {
            Err(e) => Some(Err(e)),
            Ok(ff) => match parse_fields(fs) {
                None => None,
                Some(Err(e)) => Some(Err(e)),
                Some(Ok(vs)) => Some(Ok(FieldDataView::Double(ff, vs, t))),
            },
        },
    }
}

/// An unparsed card parsed, see [`spec_data`].
pub open spec fn spec_card(u: UnparsedCardView) -> Option<Result<BulkCardView, ErrorView>> {
    match spec_data(u.data) {
        None => None,
        Some(Err(e)) => Some(Err(e)),
        Some(Ok(d)) => Some(Ok(BulkCardView { original: u.original, comment: u.comment, data: d })),
    }
}

pub open spec fn bulk_result(r: Option<Result<BulkCard, Error>>) -> Option<
    Result<BulkCardView, ErrorView>,
> {
    match r {
        None => None,
        Some(Ok(c)) => Some(Ok(c@)),
        Some(Err(e)) => Some(Err(e@)),
    }
}

proof fn lemma_parse_fields_step(all: Seq<Seq<u8>>, k: int)
    requires
        0 <= k < all.len(),
    ensures
        parse_fields(all.skip(k)) == match spec_inner_field(all[k]) {
            None => None,
            Some(Err(e)) => Some(Err(e)),
            Some(Ok(f)) => prepend(seq![f], parse_fields(all.skip(k + 1))),
        },
{
    assert(all.skip(k).drop_first() =~= all.skip(k + 1));
    assert(all.skip(k)[0] == all[k]);
}

proof fn lemma_prepend_assoc(p: Seq<FieldView>, f: FieldView, x: Option<Result<Seq<FieldView>, ErrorView>>)
    ensures
        prepend(p, prepend(seq![f], x)) == prepend(p.push(f), x),
{
    if let Some(Ok(rest)) = x {
        assert(p + (seq![f] + rest) =~= p.push(f) + rest);
    }
}

/// Parses eight data fields, see [`parse_fields`].
fn parse_single_fields(fs: &[UnparsedSingleField; 8]) -> (r: Option<Result<[Field; 8], Error>>)
    ensures
        match r {
            None => parse_fields(single_views(fs@)) is None,
            Some(Ok(a)) => parse_fields(single_views(fs@)) == Some(
                Ok::<Seq<FieldView>, ErrorView>(field_views(a@)),
            ),
            Some(Err(e)) => parse_fields(single_views(fs@)) == Some(
                Err::<Seq<FieldView>, ErrorView>(e@),
            ),
        },
{
    let ghost all = single_views(fs@);
    let mut out = [Field::Blank; 8];
    let mut k: usize = 0;
    assert(all.skip(0) =~= all);
    assert(field_views(out@).take(0) + Seq::<FieldView>::empty() =~= Seq::<FieldView>::empty());
    while k < 8
        invariant
            k <= 8,
            all == single_views(fs@),
            parse_fields(all) == prepend(field_views(out@).take(k as int), parse_fields(all.skip(k as int))),
        decreases 8 - k,
    {
        proof {
            lemma_parse_fields_step(all, k as int);
        }
        let ghost prev = field_views(out@).take(k as int);
        match parse_inner_field(vstd::array::array_as_slice(&fs[k].0)) {
            None => return None,
            Some(Err(e)) => return Some(Err(e)),
            Some(Ok(f)) => {
                out[k] = f;
                proof {
                    lemma_prepend_assoc(prev, f@, parse_fields(all.skip(k + 1)));
                    assert(field_views(out@).take(k + 1) =~= prev.push(f@));
                }
            },
        }
        k += 1;
    }
    assert(all.skip(8) =~= Seq::<Seq<u8>>::empty());
    assert(field_views(out@).take(8) + Seq::<FieldView>::empty() =~= field_views(out@));
    Some(Ok(out))
}

/// Parses four data fields, see [`parse_fields`].
fn parse_double_fields(fs: &[UnparsedDoubleField; 4]) -> (r: Option<Result<[Field; 4], Error>>)
    ensures
        match r {
            None => parse_fields(double_views(fs@)) is None,
            Some(Ok(a)) => parse_fields(double_views(fs@)) == Some(
                Ok::<Seq<FieldView>, ErrorView>(field_views(a@)),
            ),
            Some(Err(e)) => parse_fields(double_views(fs@)) == Some(
                Err::<Seq<FieldView>, ErrorView>(e@),
            ),
        },
{
    let ghost all = double_views(fs@);
    let mut out = [Field::Blank; 4];
    let mut k: usize = 0;
    assert(all.skip(0) =~= all);
    assert(field_views(out@).take(0) + Seq::<FieldView>::empty() =~= Seq::<FieldView>::empty());
    while k < 4
        invariant
            k <= 4,
            all == double_views(fs@),
            parse_fields(all) == prepend(field_views(out@).take(k as int), parse_fields(all.skip(k as int))),
        decreases 4 - k,
    {
        proof {
            lemma_parse_fields_step(all, k as int);
        }
        let ghost prev = field_views(out@).take(k as int);
        match parse_inner_field(vstd::array::array_as_slice(&fs[k].0)) {
            None => return None,
            Some(Err(e)) => return Some(Err(e)),
            Some(Ok(f)) => {
                out[k] = f;
                proof {
                    lemma_prepend_assoc(prev, f@, parse_fields(all.skip(k + 1)));
                    assert(field_views(out@).take(k + 1) =~= prev.push(f@));
                }
            },
        }
        k += 1;
    }
    assert(all.skip(4) =~= Seq::<Seq<u8>>::empty());
    assert(field_views(out@).take(4) + Seq::<FieldView>::empty() =~= field_views(out@));
    Some(Ok(out))
}

impl BulkCard {
    /// Parses the fields of an unparsed card, see [`spec_card`]. `None`
    /// where a field overflows the data-field reader's scratch buffer.
    pub fn try_from(unparsed: UnparsedBulkCard) -> (r: Option<Result<BulkCard, Error>>)
        ensures
            bulk_result(r) == spec_card(unparsed@),
    {
        let UnparsedBulkCard { original, comment, data } = unparsed;
        let data = match data {
            UnparsedFieldData::Blank => FieldData::Blank,
            UnparsedFieldData::Single(first, fields, trailing) => {
                let first = match parse_first_field(&first) {
                    Ok(f) => f,
                    Err(e) => return Some(Err(e)),
                };
                let fields = match parse_single_fields(&fields) {
                    None => return None,
                    Some(Err(e)) => return Some(Err(e)),
                    Some(Ok(a)) => a,
                };
                FieldData::Single(first, fields, trailing)
            },
            UnparsedFieldData::Double(first, fields, trailing) => {
                let first = match parse_first_field(&first) {
                    Ok(f) => f,
                    Err(e) => return Some(Err(e)),
                };
                let fields = match parse_double_fields(&fields) {
                    None => return None,
                    Some(Err(e)) => return Some(Err(e)),
                    Some(Ok(a)) => a,
                };
                FieldData::Double(first, fields, trailing)
            },
        };
        Some(Ok(BulkCard { original, comment, data }))
    }
}

// ---------------------------------------------------------------------------
// Reading a whole buffer

/// The cards read from `s` on, each parsed as it comes: all of them, or the
/// first error, whether from splitting a line or from parsing a field.
/// `None` where a field overflows the data-field reader's scratch buffer
/// before either.
pub open spec fn parse_run(s: IterView) -> Option<Result<Seq<BulkCardView>, ErrorView>>
    decreases s.data.len() - s.at, iter_measure(s.comma) when iter_wf(s)
{
    proof {
        lemma_iter_next(s);
    }
    let (x, s2) = iter_next(s);
    match x {
        None => Some(Ok(Seq::empty())),
        Some(Err(e)) => Some(Err(e)),
        Some(Ok(u)) => match spec_card(u) {
            None => None,
            Some(Err(e)) => Some(Err(e)),
            Some(Ok(c)) => prepend(seq![c], parse_run(s2)),
        },
    }
}

/// The cards of a buffer, see [`parse_run`].
pub open spec fn spec_parse_bytes(data: Seq<u8>) -> Option<Result<Seq<BulkCardView>, ErrorView>> {
    parse_run(IterView { data, at: 0, comma: None })
}

pub open spec fn card_views(s: Seq<BulkCard>) -> Seq<BulkCardView> {
    s.map_values(|c: BulkCard| c@)
}

pub open spec fn cards_result(r: &Result<Vec<BulkCard>, Error>) -> Result<Seq<BulkCardView>, ErrorView> {
    match r {
        Ok(v) => Ok(card_views(v@)),
        Err(e) => Err(e@),
    }
}

proof fn lemma_prepend_cards(p: Seq<BulkCardView>, c: BulkCardView, x: Option<Result<Seq<BulkCardView>, ErrorView>>)
    ensures
        prepend(p, prepend(seq![c], x)) == prepend(p.push(c), x),
{
    if let Some(Ok(rest)) = x {
        assert(p + (seq![c] + rest) =~= p.push(c) + rest);
    }
}

/// Reads and parses the cards of a buffer, see [`spec_parse_bytes`]. `None`
/// where a field overflows the data-field reader's scratch buffer.
pub fn parse_bytes_checked(data: &[u8]) -> (r: Option<Result<Vec<BulkCard>, Error>>)
    ensures
        match r {
            None => spec_parse_bytes(data@) is None,
            Some(x) => spec_parse_bytes(data@) == Some(cards_result(&x)),
        },
{
    let mut iter = BulkCardIter::new(data);
    let mut out: Vec<BulkCard> = Vec::new();
    assert(card_views(out@) + Seq::<BulkCardView>::empty() =~= Seq::<BulkCardView>::empty());
    proof {
        if let Some(Ok(rest)) = parse_run(iter@) {
            assert(card_views(out@) + rest =~= rest);
        }
    }
    loop
        invariant
            iter.wf(),
            iter@.data == data@,
            spec_parse_bytes(data@) == prepend(card_views(out@), parse_run(iter@)),
        decreases iter@.data.len() - iter@.at, iter_measure(iter@.comma),
    {
        let ghost before = iter@;
        proof {
            lemma_iter_next(before);
        }
        match iter.next() {
            None => {
                assert(card_views(out@) + Seq::<BulkCardView>::empty() =~= card_views(out@));
                return Some(Ok(out));
            },
            Some(Err(e)) => return Some(Err(e)),
            Some(Ok(u)) => match BulkCard::try_from(u) {
                None => return None,
                Some(Err(e)) => return Some(Err(e)),
                Some(Ok(c)) => {
                    let ghost prev = card_views(out@);
                    out.push(c);
                    proof {
                        lemma_prepend_cards(prev, c@, parse_run(iter@));
                        assert(card_views(out@) =~= prev.push(c@));
                    }
                },
            },
        }
    }
}

/// Reads and parses the cards of a buffer, see [`spec_parse_bytes`].
pub fn parse_bytes(data: &[u8]) -> (r: Result<Vec<BulkCard>, Error>)
    requires
        spec_parse_bytes(data@) is Some,
    ensures
        spec_parse_bytes(data@) == Some(cards_result(&r)),
{
    match parse_bytes_checked(data) {
        Some(r) => r,
        None => Err(Error::InvalidField),
    }
}

} // verus!
