//! Lines of bulk data: a fixed-column line, or one of the lines that a comma
//! separated line stands for, first as raw fields and then as parsed ones.
use vstd::prelude::*;

use super::error::{Error, ErrorView};
use super::field::{
    first_view, parse_first_field, parse_inner_field, parse_trailing_field, spec_first_field,
    spec_inner_field, spec_trailing_field, ContinuationField, Field, FieldView, FirstField,
    FirstFieldKind,
};
use super::lines::{
    comma_field, comment_bytes, expand, fixed_field, opt_bytes, reader_peek, reader_take, Comment,
    LineReader, ReaderView, EOL,
};
use crate::scan::{padded, PLUS, CR, LF, SPACE};

verus! {

/// An eight column field as read, before it is parsed.
#[derive(Debug, Clone, Copy, PartialEq)]
pub struct UnparsedSingleField(pub [u8; 8]);

/// A sixteen column field as read, before it is parsed.
#[derive(Debug, Clone, Copy, PartialEq)]
pub struct UnparsedDoubleField(pub [u8; 16]);

/// The fields of a line as read: eight small or four large data fields
/// between the first field and the trailing continuation field.
#[derive(Debug)]
pub enum UnparsedFieldData {
    Single(FirstField, [UnparsedSingleField; 8], ContinuationField),
    Double(FirstField, [UnparsedDoubleField; 4], ContinuationField),
}

/// A line as read: its bytes, the comment and line ending that end it, and
/// its fields unless it holds none.
#[derive(Debug)]
pub struct UnparsedBulkLine {
    pub original: Vec<u8>,
    pub comment: Comment,
    pub eol: Option<EOL>,
    pub data: Option<UnparsedFieldData>,
}

/// The fields of a line: the first field as `(is_text, name, double)`, the
/// data fields, and the trailing continuation name.
pub struct DataView<F> {
    pub first: (bool, Seq<u8>, bool),
    pub fields: Seq<F>,
    pub trailing: Seq<u8>,
}

/// The model of a line, with raw (`Seq<u8>`) or parsed (`FieldView`) fields.
pub struct LineView<F> {
    pub original: Seq<u8>,
    pub comment: Seq<u8>,
    pub eol: Option<EOL>,
    pub data: Option<DataView<F>>,
}

pub open spec fn single_raw(a: [UnparsedSingleField; 8]) -> Seq<Seq<u8>> {
    a@.map_values(|f: UnparsedSingleField| f.0@)
}

pub open spec fn double_raw(a: [UnparsedDoubleField; 4]) -> Seq<Seq<u8>> {
    a@.map_values(|f: UnparsedDoubleField| f.0@)
}

pub open spec fn unparsed_data_view(d: UnparsedFieldData) -> DataView<Seq<u8>> {
    match d {
        UnparsedFieldData::Single(f, a, t) => DataView {
            first: first_view(f),
            fields: single_raw(a),
            trailing: t.0@,
        },
        UnparsedFieldData::Double(f, a, t) => DataView {
            first: first_view(f),
            fields: double_raw(a),
            trailing: t.0@,
        },
    }
}

impl View for UnparsedBulkLine {
    type V = LineView<Seq<u8>>;

    open spec fn view(&self) -> LineView<Seq<u8>> {
        LineView {
            original: self.original@,
            comment: comment_bytes(self.comment),
            eol: self.eol,
            data: match self.data {
                Some(d) => Some(unparsed_data_view(d)),
                None => None,
            },
        }
    }
}

pub open spec fn line_result(r: &Result<UnparsedBulkLine, Error>) -> Result<
    LineView<Seq<u8>>,
    ErrorView,
> {
    match r {
        Ok(l) => Ok(l@),
        Err(e) => Err(e@),
    }
}

/// `n` spaces.
pub open spec fn spaces(n: nat) -> Seq<u8> {
    Seq::new(n, |_i: int| SPACE)
}

/// The first field of a line whose first field is blank: a blank
/// continuation marker.
pub open spec fn default_first() -> (bool, Seq<u8>, bool) {
    (false, spaces(7), false)
}

fn blank_first() -> (r: FirstField)
    ensures
        first_view(r) == default_first(),
{
    let r = FirstField {
        kind: FirstFieldKind::Continuation(ContinuationField([SPACE; 7])),
        double: false,
    };
    assert(first_view(r).1 =~= spaces(7));
    r
}

/// `count` fixed-column fields of `width` columns.
pub open spec fn take_fields(r: ReaderView, count: nat, width: nat) -> (Seq<Seq<u8>>, ReaderView)
    decreases count,
{
    if count == 0 {
        (Seq::empty(), r)
    } else {
        let (items, r1) = reader_take(r, width);
        let (rest, r2) = take_fields(r1, (count - 1) as nat, width);
        (seq![fixed_field(items, width)] + rest, r2)
    }
}

/// A fixed-column line after its first field: four large or eight small data
/// fields, the trailing field, and the comment, which must have been
/// reached.
pub open spec fn fixed_tail(r: ReaderView, first: (bool, Seq<u8>, bool), original: Seq<u8>) -> Result<
    LineView<Seq<u8>>,
    ErrorView,
> {
    let (count, width) = if first.2 {
        (4nat, 16nat)
    } else {
        (8nat, 8nat)
    };
    let (fields, r1) = take_fields(r, count, width);
    let (t, r2) = reader_take(r1, 8);
    match spec_trailing_field(fixed_field(t, 8)) {
        Err(e) => Err(e),
        Ok(trailing) => match r2.comment {
            None => Err(ErrorView::UnparsedChars),
            Some(c) => Ok(
                LineView {
                    original,
                    comment: c,
                    eol: r2.eol,
                    data: Some(DataView { first, fields, trailing }),
                },
            ),
        },
    }
}

/// A fixed-column line. A line whose first field is blank and that ends
/// there holds no fields; one that goes on is a continuation line with a
/// blank marker.
pub open spec fn spec_fixed_line(line: Seq<u8>) -> Result<LineView<Seq<u8>>, ErrorView> {
    let r0 = ReaderView { data: expand(line, 0), pos: 0, comment: None, eol: None };
    let (f, r1) = reader_take(r0, 8);
    match spec_first_field(fixed_field(f, 8)) {
        Err(e) => Err(e),
        Ok(Some(first)) => fixed_tail(r1, first, line),
        Ok(None) => if r1.comment is Some || reader_peek(r1) is None {
            match r1.comment {
                None => Err(ErrorView::UnparsedChars),
                Some(c) => Ok(LineView { original: line, comment: c, eol: r1.eol, data: None }),
            }
        } else {
            fixed_tail(r1, default_first(), line)
        },
    }
}

fn take_singles(r: &mut LineReader) -> (f: [UnparsedSingleField; 8])
    requires
        old(r).wf(),
    ensures
        final(r).wf(),
        (single_raw(f), final(r)@) == take_fields(old(r)@, 8, 8),
{
    let mut v: Vec<UnparsedSingleField> = Vec::new();
    let ghost start = r@;
    let mut k: usize = 0;
    assert(v@.map_values(|f: UnparsedSingleField| f.0@) + take_fields(r@, 8, 8).0 =~= take_fields(
        r@,
        8,
        8,
    ).0);
    while k < 8
        invariant
            r.wf(),
            k <= 8,
            v@.len() == k,
            take_fields(start, 8, 8) == (
                v@.map_values(|f: UnparsedSingleField| f.0@) + take_fields(r@, (8 - k) as nat, 8).0,
                take_fields(r@, (8 - k) as nat, 8).1,
            ),
        decreases 8 - k,
    {
        let ghost before = r@;
        let ghost prev = v@.map_values(|f: UnparsedSingleField| f.0@);
        let a = r.take8();
        v.push(UnparsedSingleField(a));
        k += 1;
        assert(v@.map_values(|f: UnparsedSingleField| f.0@) =~= prev.push(a@));
        assert(prev + (seq![a@] + take_fields(r@, (8 - k) as nat, 8).0) =~= v@.map_values(
            |f: UnparsedSingleField| f.0@,
        ) + take_fields(r@, (8 - k) as nat, 8).0);
    }
    let f = [v[0], v[1], v[2], v[3], v[4], v[5], v[6], v[7]];
    assert(single_raw(f) =~= v@.map_values(|f: UnparsedSingleField| f.0@));
    assert(single_raw(f) + Seq::<Seq<u8>>::empty() =~= single_raw(f));
    f
}

fn take_doubles(r: &mut LineReader) -> (f: [UnparsedDoubleField; 4])
    requires
        old(r).wf(),
    ensures
        final(r).wf(),
        (double_raw(f), final(r)@) == take_fields(old(r)@, 4, 16),
{
    let mut v: Vec<UnparsedDoubleField> = Vec::new();
    let ghost start = r@;
    let mut k: usize = 0;
    assert(v@.map_values(|f: UnparsedDoubleField| f.0@) + take_fields(r@, 4, 16).0 =~= take_fields(
        r@,
        4,
        16,
    ).0);
    while k < 4
        invariant
            r.wf(),
            k <= 4,
            v@.len() == k,
            take_fields(start, 4, 16) == (
                v@.map_values(|f: UnparsedDoubleField| f.0@) + take_fields(r@, (4 - k) as nat, 16).0,
                take_fields(r@, (4 - k) as nat, 16).1,
            ),
        decreases 4 - k,
    {
        let ghost prev = v@.map_values(|f: UnparsedDoubleField| f.0@);
        let a = r.take16();
        v.push(UnparsedDoubleField(a));
        k += 1;
        assert(v@.map_values(|f: UnparsedDoubleField| f.0@) =~= prev.push(a@));
        assert(prev + (seq![a@] + take_fields(r@, (4 - k) as nat, 16).0) =~= v@.map_values(
            |f: UnparsedDoubleField| f.0@,
        ) + take_fields(r@, (4 - k) as nat, 16).0);
    }
    let f = [v[0], v[1], v[2], v[3]];
    assert(double_raw(f) =~= v@.map_values(|f: UnparsedDoubleField| f.0@));
    assert(double_raw(f) + Seq::<Seq<u8>>::empty() =~= double_raw(f));
    f
}

fn comment_of(v: &Vec<u8>) -> (c: Comment)
    ensures
        comment_bytes(c) == v@,
{
    Comment::from_slice(v.as_slice())
}

fn fixed_tail_exec(r: &mut LineReader, first: FirstField, original: Vec<u8>) -> (res: Result<
    UnparsedBulkLine,
    Error,
>)
    requires
        old(r).wf(),
    ensures
        line_result(&res) == fixed_tail(old(r)@, first_view(first), original@),
{
    if first.double {
        let fields = take_doubles(r);
        let t = r.take8();
        let trailing = match parse_trailing_field(t) {
            Ok(t) => t,
            Err(e) => return Err(e),
        };
        let eol = r.eol;
        match r.take_comment() {
            None => Err(Error::UnparsedChars),
            Some(c) => Ok(
                UnparsedBulkLine {
                    original,
                    comment: comment_of(&c),
                    eol,
                    data: Some(UnparsedFieldData::Double(first, fields, trailing)),
                },
            ),
        }
    } else {
        let fields = take_singles(r);
        let t = r.take8();
        let trailing = match parse_trailing_field(t) {
            Ok(t) => t,
            Err(e) => return Err(e),
        };
        let eol = r.eol;
        match r.take_comment() {
            None => Err(Error::UnparsedChars),
            Some(c) => Ok(
                UnparsedBulkLine {
                    original,
                    comment: comment_of(&c),
                    eol,
                    data: Some(UnparsedFieldData::Single(first, fields, trailing)),
                },
            ),
        }
    }
}

/// Reads a fixed-column line, see [`spec_fixed_line`].
pub fn parse_fixed_line(line: &[u8]) -> (res: Result<UnparsedBulkLine, Error>)
    ensures
        line_result(&res) == spec_fixed_line(line@),
{
    let original = vstd::slice::slice_to_vec(line);
    let mut r = LineReader::new(line);
    let f = r.take8();
    match parse_first_field(f) {
        Err(e) => Err(e),
        Ok(Some(first)) => fixed_tail_exec(&mut r, first, original),
        Ok(None) => {
            if r.comment.is_some() || r.peek().is_none() {
                let eol = r.eol;
                match r.take_comment() {
                    None => Err(Error::UnparsedChars),
                    Some(c) => Ok(
                        UnparsedBulkLine { original, comment: comment_of(&c), eol, data: None },
                    ),
                }
            } else {
                fixed_tail_exec(&mut r, blank_first(), original)
            }
        },
    }
}


/// A comma separated field fitted into `width` columns; a missing field is
/// blank.
pub open spec fn comma_width_field(r: ReaderView, width: nat) -> (Result<Seq<u8>, ErrorView>, ReaderView) {
    let (f, r1) = comma_field(r);
    match f {
        None => (Ok(spaces(width)), r1),
        Some(x) => if x.len() > width {
            (Err(ErrorView::TextTooLong(x)), r1)
        } else {
            (Ok(padded(x, width)), r1)
        },
    }
}

/// `count` comma separated fields of `width` columns; the first that does not
/// fit is the error.
pub open spec fn comma_fields(r: ReaderView, count: nat, width: nat) -> (Result<Seq<Seq<u8>>, ErrorView>, ReaderView)
    decreases count,
{
    if count == 0 {
        (Ok(Seq::empty()), r)
    } else {
        let (f, r1) = comma_width_field(r, width);
        match f {
            Err(e) => (Err(e), r1),
            Ok(x) => {
                let (rest, r2) = comma_fields(r1, (count - 1) as nat, width);
                match rest {
                    Err(e) => (Err(e), r2),
                    Ok(xs) => (Ok(seq![x] + xs), r2),
                }
            },
        }
    }
}

/// The trailing continuation field of a comma separated line. It is only
/// read where the next byte is `+`, CR or LF; otherwise it is blank.
pub open spec fn comma_trailing(r: ReaderView) -> (Result<Seq<u8>, ErrorView>, ReaderView) {
    match reader_peek(r) {
        Some(c) => if c == PLUS || c == CR || c == LF {
            let (f, r1) = comma_field(r);
            match f {
                None => (Ok(spaces(7)), r1),
                Some(x) => if x.len() > 8 {
                    (Err(ErrorView::TextTooLong(x)), r1)
                } else {
                    (spec_trailing_field(padded(x, 8)), r1)
                },
            }
        } else {
            (Ok(spaces(7)), r)
        },
        None => (Ok(spaces(7)), r),
    }
}

/// A comma separated line being read: the reader, whether its first line has
/// been read, and its bytes until a line that reaches the comment takes them.
pub struct CommaView {
    pub reader: ReaderView,
    pub second: bool,
    pub original: Seq<u8>,
}

/// The end of one line of a comma separated line: the trailing field, then
/// the comment if it was reached (blank otherwise). The line that takes the
/// comment takes the bytes of the physical line too.
pub open spec fn comma_finish(s: CommaView, r: ReaderView, first: (bool, Seq<u8>, bool), fields: Seq<Seq<u8>>) -> (
    Result<LineView<Seq<u8>>, ErrorView>,
    CommaView,
) {
    let (t, r1) = comma_trailing(r);
    match t {
        Err(e) => (Err(e), CommaView { reader: r1, ..s }),
        Ok(trailing) => {
            let reached = r1.comment is Some;
            (
                Ok(
                    LineView {
                        original: if reached {
                            s.original
                        } else {
                            Seq::empty()
                        },
                        comment: match r1.comment {
                            Some(c) => c,
                            None => Seq::empty(),
                        },
                        eol: r1.eol,
                        data: Some(DataView { first, fields, trailing }),
                    },
                ),
                CommaView {
                    reader: ReaderView { comment: None, ..r1 },
                    second: s.second,
                    original: if reached {
                        Seq::empty()
                    } else {
                        s.original
                    },
                },
            )
        },
    }
}

/// The next line that a comma separated line stands for: `None` once nothing
/// is left. The first line has a first field (card name or continuation
/// marker) and eight small or four large fields; each later line is a
/// continuation with a blank marker and eight small fields. Nine fields and a
/// trailing field make one line. Where no field is left but a comment is,
/// the comment makes a line without fields.
pub open spec fn comma_next(s: CommaView) -> Option<(Result<LineView<Seq<u8>>, ErrorView>, CommaView)> {
    let (f, r1) = comma_field(s.reader);
    match f {
        None => match r1.comment {
            Some(c) => Some(
                (
                    Ok(LineView { original: s.original, comment: c, eol: r1.eol, data: None }),
                    CommaView {
                        reader: ReaderView { comment: None, ..r1 },
                        second: s.second,
                        original: Seq::empty(),
                    },
                ),
            ),
            None => None,
        },
        Some(x) => if x.len() > 8 {
            Some((Err(ErrorView::TextTooLong(x)), CommaView { reader: r1, second: true, ..s }))
        } else if s.second {
            let (rest, r2) = comma_fields(r1, 7, 8);
            match rest {
                Err(e) => Some((Err(e), CommaView { reader: r2, ..s })),
                Ok(fs) => Some(comma_finish(s, r2, default_first(), seq![padded(x, 8)] + fs)),
            }
        } else {
            match spec_first_field(padded(x, 8)) {
                Err(e) => Some((Err(e), CommaView { reader: r1, second: true, ..s })),
                Ok(o) => {
                    let first = match o {
                        Some(f) => f,
                        None => default_first(),
                    };
                    let (count, width) = if first.2 {
                        (4nat, 16nat)
                    } else {
                        (8nat, 8nat)
                    };
                    let (fs, r2) = comma_fields(r1, count, width);
                    match fs {
                        Err(e) => Some((Err(e), CommaView { reader: r2, second: true, ..s })),
                        Ok(fs) => Some(
                            comma_finish(CommaView { second: true, ..s }, r2, first, fs),
                        ),
                    }
                },
            }
        },
    }
}

fn pad_to8(x: &Vec<u8>) -> (r: [u8; 8])
    requires
        x@.len() <= 8,
    ensures
        r@ == padded(x@, 8),
{
    let r = crate::scan::pad8(x.as_slice(), 0, x.len());
    assert(x@.subrange(0, x@.len() as int) =~= x@);
    r
}

fn pad_to16(x: &Vec<u8>) -> (r: [u8; 16])
    requires
        x@.len() <= 16,
    ensures
        r@ == padded(x@, 16),
{
    let mut dst = [SPACE; 16];
    let mut j: usize = 0;
    while j < x.len()
        invariant
            j <= x@.len() <= 16,
            forall|i: int| 0 <= i < j ==> dst@[i] == x@[i],
            forall|i: int| j <= i < 16 ==> dst@[i] == SPACE,
        decreases x@.len() - j,
    {
        dst[j] = x[j];
        j += 1;
    }
    assert(dst@ =~= padded(x@, 16));
    dst
}



fn comma_single(r: &mut LineReader) -> (res: Result<[u8; 8], Error>)
    requires
        old(r).wf(),
    ensures
        final(r).wf(),
        final(r)@ == comma_width_field(old(r)@, 8).1,
        match res {
            Ok(a) => comma_width_field(old(r)@, 8).0 == Ok::<Seq<u8>, ErrorView>(a@),
            Err(e) => comma_width_field(old(r)@, 8).0 == Err::<Seq<u8>, ErrorView>(e@),
        },
{
    match r.comma_field() {
        None => {
            let a = [SPACE; 8];
            assert(a@ =~= spaces(8));
            Ok(a)
        },
        Some(x) => if x.len() > 8 {
            Err(Error::TextTooLong(x))
        } else {
            Ok(pad_to8(&x))
        },
    }
}

fn comma_double(r: &mut LineReader) -> (res: Result<[u8; 16], Error>)
    requires
        old(r).wf(),
    ensures
        final(r).wf(),
        final(r)@ == comma_width_field(old(r)@, 16).1,
        match res {
            Ok(a) => comma_width_field(old(r)@, 16).0 == Ok::<Seq<u8>, ErrorView>(a@),
            Err(e) => comma_width_field(old(r)@, 16).0 == Err::<Seq<u8>, ErrorView>(e@),
        },
{
    match r.comma_field() {
        None => {
            let a = [SPACE; 16];
            assert(a@ =~= spaces(16));
            Ok(a)
        },
        Some(x) => if x.len() > 16 {
            Err(Error::TextTooLong(x))
        } else {
            Ok(pad_to16(&x))
        },
    }
}

/// `acc` put before the fields of `res`.
pub open spec fn prefixed(acc: Seq<Seq<u8>>, res: (Result<Seq<Seq<u8>>, ErrorView>, ReaderView)) -> (
    Result<Seq<Seq<u8>>, ErrorView>,
    ReaderView,
) {
    match res.0 {
        Ok(xs) => (Ok(acc + xs), res.1),
        Err(e) => (Err(e), res.1),
    }
}

fn comma_singles(r: &mut LineReader, count: usize) -> (res: Result<Vec<UnparsedSingleField>, Error>)
    requires
        old(r).wf(),
    ensures
        final(r).wf(),
        match res {
            Ok(v) => v@.len() == count && comma_fields(old(r)@, count as nat, 8) == (
                Ok::<Seq<Seq<u8>>, ErrorView>(v@.map_values(|f: UnparsedSingleField| f.0@)),
                final(r)@,
            ),
            Err(e) => comma_fields(old(r)@, count as nat, 8) == (
                Err::<Seq<Seq<u8>>, ErrorView>(e@),
                final(r)@,
            ),
        },
{
    let mut v: Vec<UnparsedSingleField> = Vec::new();
    let ghost start = r@;
    let mut k: usize = 0;
    assert(v@.map_values(|f: UnparsedSingleField| f.0@) =~= Seq::<Seq<u8>>::empty());
    assert(prefixed(Seq::empty(), comma_fields(r@, count as nat, 8)) =~~= comma_fields(
        r@,
        count as nat,
        8,
    ));
    while k < count
        invariant
            r.wf(),
            start == old(r)@,
            k <= count,
            v@.len() == k,
            comma_fields(start, count as nat, 8) == prefixed(
                v@.map_values(|f: UnparsedSingleField| f.0@),
                comma_fields(r@, (count - k) as nat, 8),
            ),
        decreases count - k,
    {
        let ghost prev = v@.map_values(|f: UnparsedSingleField| f.0@);
        let a = match comma_single(r) {
            Ok(a) => a,
            Err(e) => return Err(e),
        };
        v.push(UnparsedSingleField(a));
        k += 1;
        assert(v@.map_values(|f: UnparsedSingleField| f.0@) =~= prev.push(a@));
        proof {
            let rest = comma_fields(r@, (count - k) as nat, 8);
            if let Ok(xs) = rest.0 {
                assert(prev + (seq![a@] + xs) =~= v@.map_values(|f: UnparsedSingleField| f.0@)
                    + xs);
            }
        }
    }
    assert(v@.map_values(|f: UnparsedSingleField| f.0@) + Seq::<Seq<u8>>::empty() =~= v@.map_values(
        |f: UnparsedSingleField| f.0@,
    ));
    Ok(v)
}

fn comma_doubles(r: &mut LineReader) -> (res: Result<[UnparsedDoubleField; 4], Error>)
    requires
        old(r).wf(),
    ensures
        final(r).wf(),
        match res {
            Ok(a) => comma_fields(old(r)@, 4, 16) == (
                Ok::<Seq<Seq<u8>>, ErrorView>(double_raw(a)),
                final(r)@,
            ),
            Err(e) => comma_fields(old(r)@, 4, 16) == (
                Err::<Seq<Seq<u8>>, ErrorView>(e@),
                final(r)@,
            ),
        },
{
    let mut v: Vec<UnparsedDoubleField> = Vec::new();
    let ghost start = r@;
    let mut k: usize = 0;
    assert(v@.map_values(|f: UnparsedDoubleField| f.0@) =~= Seq::<Seq<u8>>::empty());
    assert(prefixed(Seq::empty(), comma_fields(r@, 4, 16)) =~~= comma_fields(r@, 4, 16));
    while k < 4
        invariant
            r.wf(),
            start == old(r)@,
            k <= 4,
            v@.len() == k,
            comma_fields(start, 4, 16) == prefixed(
                v@.map_values(|f: UnparsedDoubleField| f.0@),
                comma_fields(r@, (4 - k) as nat, 16),
            ),
        decreases 4 - k,
    {
        let ghost prev = v@.map_values(|f: UnparsedDoubleField| f.0@);
        let a = match comma_double(r) {
            Ok(a) => a,
            Err(e) => return Err(e),
        };
        v.push(UnparsedDoubleField(a));
        k += 1;
        assert(v@.map_values(|f: UnparsedDoubleField| f.0@) =~= prev.push(a@));
        proof {
            let rest = comma_fields(r@, (4 - k) as nat, 16);
            if let Ok(xs) = rest.0 {
                assert(prev + (seq![a@] + xs) =~= v@.map_values(|f: UnparsedDoubleField| f.0@)
                    + xs);
            }
        }
    }
    let f = [v[0], v[1], v[2], v[3]];
    assert(double_raw(f) =~= v@.map_values(|f: UnparsedDoubleField| f.0@));
    assert(double_raw(f) + Seq::<Seq<u8>>::empty() =~= double_raw(f));
    Ok(f)
}

fn comma_trailing_exec(r: &mut LineReader) -> (res: Result<ContinuationField, Error>)
    requires
        old(r).wf(),
    ensures
        final(r).wf(),
        final(r)@ == comma_trailing(old(r)@).1,
        match res {
            Ok(c) => comma_trailing(old(r)@).0 == Ok::<Seq<u8>, ErrorView>(c.0@),
            Err(e) => comma_trailing(old(r)@).0 == Err::<Seq<u8>, ErrorView>(e@),
        },
{
    let blank = ContinuationField([SPACE; 7]);
    assert(blank.0@ =~= spaces(7));
    match r.peek() {
        Some(c) => {
            if c == PLUS || c == CR || c == LF {
                match r.comma_field() {
                    None => Ok(blank),
                    Some(x) => if x.len() > 8 {
                        Err(Error::TextTooLong(x))
                    } else {
                        parse_trailing_field(pad_to8(&x))
                    },
                }
            } else {
                Ok(blank)
            }
        },
        None => Ok(blank),
    }
}

/// A comma separated line being read, see [`CommaView`].
pub struct CommaLine {
    pub reader: LineReader,
    pub second: bool,
    pub original: Vec<u8>,
}

impl View for CommaLine {
    type V = CommaView;

    open spec fn view(&self) -> CommaView {
        CommaView { reader: self.reader@, second: self.second, original: self.original@ }
    }
}

impl CommaLine {
    pub open spec fn wf(&self) -> bool {
        self.reader.wf()
    }

    /// Starts reading `line`.
    pub fn new(line: &[u8]) -> (c: CommaLine)
        ensures
            c.wf(),
            c@ == (CommaView {
                reader: ReaderView { data: expand(line@, 0), pos: 0, comment: None, eol: None },
                second: false,
                original: line@,
            }),
    {
        CommaLine {
            reader: LineReader::new(line),
            second: false,
            original: vstd::slice::slice_to_vec(line),
        }
    }

    fn finish(&mut self, data_first: FirstField, fields: UnparsedFieldData) -> (res: Result<
        UnparsedBulkLine,
        Error,
    >)
        requires
            old(self).wf(),
            match fields {
                UnparsedFieldData::Single(f, _, _) => f == data_first,
                UnparsedFieldData::Double(f, _, _) => f == data_first,
            },
        ensures
            final(self).wf(),
            ({
                let (exp, s2) = comma_finish(
                    old(self)@,
                    old(self)@.reader,
                    first_view(data_first),
                    unparsed_data_view(fields).fields,
                );
                &&& line_result(&res) == exp
                &&& final(self)@ == s2
            }),
    {
        let trailing = match comma_trailing_exec(&mut self.reader) {
            Ok(t) => t,
            Err(e) => return Err(e),
        };
        let eol = self.reader.eol;
        let comment = self.reader.take_comment();
        let mut original: Vec<u8> = Vec::new();
        let reached = comment.is_some();
        if reached {
            std::mem::swap(&mut original, &mut self.original);
        }
        let comment = match comment {
            Some(c) => comment_of(&c),
            None => comment_of(&Vec::new()),
        };
        let data = match fields {
            UnparsedFieldData::Single(f, a, _) => UnparsedFieldData::Single(f, a, trailing),
            UnparsedFieldData::Double(f, a, _) => UnparsedFieldData::Double(f, a, trailing),
        };
        Ok(UnparsedBulkLine { original, comment, eol, data: Some(data) })
    }

    /// The next line, see [`comma_next`].
    pub fn next_line(&mut self) -> (r: Option<Result<UnparsedBulkLine, Error>>)
        requires
            old(self).wf(),
        ensures
            final(self).wf(),
            match comma_next(old(self)@) {
                None => r is None,
                Some((exp, s2)) => r matches Some(x) && line_result(&x) == exp && final(self)@
                    == s2,
            },
    {
        let f = self.reader.comma_field();
        let x = match f {
            None => {
                let eol = self.reader.eol;
                return match self.reader.take_comment() {
                    Some(c) => {
                        let mut original: Vec<u8> = Vec::new();
                        std::mem::swap(&mut original, &mut self.original);
                        Some(
                            Ok(
                                UnparsedBulkLine {
                                    original,
                                    comment: comment_of(&c),
                                    eol,
                                    data: None,
                                },
                            ),
                        )
                    },
                    None => None,
                };
            },
            Some(x) => x,
        };
        if x.len() > 8 {
            self.second = true;
            return Some(Err(Error::TextTooLong(x)));
        }
        let field1 = pad_to8(&x);
        if self.second {
            let rest = match comma_singles(&mut self.reader, 7) {
                Ok(v) => v,
                Err(e) => return Some(Err(e)),
            };
            let a = [
                UnparsedSingleField(field1),
                rest[0],
                rest[1],
                rest[2],
                rest[3],
                rest[4],
                rest[5],
                rest[6],
            ];
            let first = blank_first();
            proof {
                assert(single_raw(a) =~= seq![field1@] + rest@.map_values(
                    |f: UnparsedSingleField| f.0@,
                ));
            }
            let blank = ContinuationField([SPACE; 7]);
            Some(self.finish(first, UnparsedFieldData::Single(first, a, blank)))
        } else {
            self.second = true;
            let first = match parse_first_field(field1) {
                Err(e) => return Some(Err(e)),
                Ok(Some(f)) => f,
                Ok(None) => blank_first(),
            };
            let blank = ContinuationField([SPACE; 7]);
            if first.double {
                let a = match comma_doubles(&mut self.reader) {
                    Ok(a) => a,
                    Err(e) => return Some(Err(e)),
                };
                Some(self.finish(first, UnparsedFieldData::Double(first, a, blank)))
            } else {
                let v = match comma_singles(&mut self.reader, 8) {
                    Ok(v) => v,
                    Err(e) => return Some(Err(e)),
                };
                let a = [v[0], v[1], v[2], v[3], v[4], v[5], v[6], v[7]];
                proof {
                    assert(single_raw(a) =~= v@.map_values(|f: UnparsedSingleField| f.0@));
                }
                Some(self.finish(first, UnparsedFieldData::Single(first, a, blank)))
            }
        }
    }
}


/// The fields of a line, parsed.
#[derive(Debug)]
pub enum FieldData {
    Single(FirstField, [Field; 8], ContinuationField),
    Double(FirstField, [Field; 4], ContinuationField),
}

/// A line with its fields parsed.
#[derive(Debug)]
pub struct BulkLine {
    pub original: Vec<u8>,
    pub comment: Comment,
    pub eol: Option<EOL>,
    pub data: Option<FieldData>,
}

pub open spec fn data_view(d: FieldData) -> DataView<FieldView> {
    match d {
        FieldData::Single(f, a, t) => DataView {
            first: first_view(f),
            fields: a@.map_values(|x: Field| x@),
            trailing: t.0@,
        },
        FieldData::Double(f, a, t) => DataView {
            first: first_view(f),
            fields: a@.map_values(|x: Field| x@),
            trailing: t.0@,
        },
    }
}

impl View for BulkLine {
    type V = LineView<FieldView>;

    open spec fn view(&self) -> LineView<FieldView> {
        LineView {
            original: self.original@,
            comment: comment_bytes(self.comment),
            eol: self.eol,
            data: match self.data {
                Some(d) => Some(data_view(d)),
                None => None,
            },
        }
    }
}

/// Parsing raw fields in order: the first error, or `None` where a field
/// overflows the field reader before any error.
pub open spec fn spec_fields(raw: Seq<Seq<u8>>) -> Option<Result<Seq<FieldView>, ErrorView>>
    decreases raw.len(),
{
    if raw.len() == 0 {
        Some(Ok(Seq::empty()))
    } else {
        match spec_inner_field(raw[0]) {
            None => None,
            Some(Err(e)) => Some(Err(e)),
            Some(Ok(f)) => match spec_fields(raw.drop_first()) {
                Some(Ok(fs)) => Some(Ok(seq![f] + fs)),
                other => other,
            },
        }
    }
}

/// A line with its fields parsed, see [`spec_fields`].
pub open spec fn spec_bulk_line(l: LineView<Seq<u8>>) -> Option<Result<LineView<FieldView>, ErrorView>> {
    match l.data {
        None => Some(Ok(LineView { original: l.original, comment: l.comment, eol: l.eol, data: None })),
        Some(d) => match spec_fields(d.fields) {
            None => None,
            Some(Err(e)) => Some(Err(e)),
            Some(Ok(fs)) => Some(
                Ok(
                    LineView {
                        original: l.original,
                        comment: l.comment,
                        eol: l.eol,
                        data: Some(DataView { first: d.first, fields: fs, trailing: d.trailing }),
                    },
                ),
            ),
        },
    }
}

pub open spec fn bulk_result(r: &Result<BulkLine, Error>) -> Result<LineView<FieldView>, ErrorView> {
    match r {
        Ok(l) => Ok(l@),
        Err(e) => Err(e@),
    }
}

/// `acc` put before the parsed fields of `o`.
pub open spec fn prefix_parsed(acc: Seq<FieldView>, o: Option<Result<Seq<FieldView>, ErrorView>>) -> Option<
    Result<Seq<FieldView>, ErrorView>,
> {
    match o {
        Some(Ok(xs)) => Some(Ok(acc + xs)),
        other => other,
    }
}

fn parse_raw_fields(raw: &Vec<Vec<u8>>) -> (r: Option<Result<Vec<Field>, Error>>)
    ensures
        match r {
            None => spec_fields(raw@.map_values(|v: Vec<u8>| v@)) is None,
            Some(Ok(v)) => v@.len() == raw@.len() && spec_fields(raw@.map_values(|v: Vec<u8>| v@))
                == Some(Ok::<Seq<FieldView>, ErrorView>(v@.map_values(|f: Field| f@))),
            Some(Err(e)) => spec_fields(raw@.map_values(|v: Vec<u8>| v@)) == Some(
                Err::<Seq<FieldView>, ErrorView>(e@),
            ),
        },
{
    let ghost all = raw@.map_values(|v: Vec<u8>| v@);
    let mut out: Vec<Field> = Vec::new();
    let mut i: usize = 0;
    assert(all.skip(0) =~= all);
    assert(out@.map_values(|f: Field| f@) =~= Seq::<FieldView>::empty());
    assert(prefix_parsed(Seq::empty(), spec_fields(all)) =~~= spec_fields(all));
    while i < raw.len()
        invariant
            i <= raw@.len(),
            all == raw@.map_values(|v: Vec<u8>| v@),
            out@.len() == i,
            spec_fields(all) == prefix_parsed(
                out@.map_values(|f: Field| f@),
                spec_fields(all.skip(i as int)),
            ),
        decreases raw@.len() - i,
    {
        let ghost prev = out@.map_values(|f: Field| f@);
        assert(all.skip(i as int)[0] == raw@[i as int]@);
        assert(all.skip(i as int).drop_first() =~= all.skip(i + 1));
        let f = match parse_inner_field(raw[i].as_slice()) {
            None => return None,
            Some(Err(e)) => return Some(Err(e)),
            Some(Ok(f)) => f,
        };
        out.push(f);
        i += 1;
        assert(out@.map_values(|f: Field| f@) =~= prev.push(f@));
        proof {
            if let Some(Ok(xs)) = spec_fields(all.skip(i as int)) {
                assert(prev + (seq![f@] + xs) =~= out@.map_values(|f: Field| f@) + xs);
            }
        }
    }
    assert(all.skip(i as int) =~= Seq::<Seq<u8>>::empty());
    assert(out@.map_values(|f: Field| f@) + Seq::<FieldView>::empty() =~= out@.map_values(
        |f: Field| f@,
    ));
    Some(Ok(out))
}

fn singles_raw(a: &[UnparsedSingleField; 8]) -> (r: Vec<Vec<u8>>)
    ensures
        r@.map_values(|v: Vec<u8>| v@) == single_raw(*a),
{
    let mut r: Vec<Vec<u8>> = Vec::new();
    let mut i: usize = 0;
    while i < 8
        invariant
            i <= 8,
            r@.len() == i,
            forall|j: int| 0 <= j < i ==> #[trigger] r@[j]@ == a@[j].0@,
        decreases 8 - i,
    {
        r.push(vstd::slice::slice_to_vec(vstd::array::array_as_slice(&a[i].0)));
        i += 1;
    }
    assert(r@.map_values(|v: Vec<u8>| v@) =~= single_raw(*a));
    r
}

fn doubles_raw(a: &[UnparsedDoubleField; 4]) -> (r: Vec<Vec<u8>>)
    ensures
        r@.map_values(|v: Vec<u8>| v@) == double_raw(*a),
{
    let mut r: Vec<Vec<u8>> = Vec::new();
    let mut i: usize = 0;
    while i < 4
        invariant
            i <= 4,
            r@.len() == i,
            forall|j: int| 0 <= j < i ==> #[trigger] r@[j]@ == a@[j].0@,
        decreases 4 - i,
    {
        r.push(vstd::slice::slice_to_vec(vstd::array::array_as_slice(&a[i].0)));
        i += 1;
    }
    assert(r@.map_values(|v: Vec<u8>| v@) =~= double_raw(*a));
    r
}

/// Parses the fields of a line, see [`spec_bulk_line`]; `None` where a field
/// overflows the field reader.
pub fn to_bulk_line(line: UnparsedBulkLine) -> (r: Option<Result<BulkLine, Error>>)
    ensures
        match r {
            None => spec_bulk_line(line@) is None,
            Some(x) => spec_bulk_line(line@) == Some(bulk_result(&x)),
        },
{
    let UnparsedBulkLine { original, comment, eol, data } = line;
    match data {
        None => Some(Ok(BulkLine { original, comment, eol, data: None })),
        Some(UnparsedFieldData::Single(first, a, trailing)) => {
            let raw = singles_raw(&a);
            match parse_raw_fields(&raw) {
                None => None,
                Some(Err(e)) => Some(Err(e)),
                Some(Ok(v)) => {
                    let f = [v[0], v[1], v[2], v[3], v[4], v[5], v[6], v[7]];
                    assert(f@.map_values(|x: Field| x@) =~= v@.map_values(|x: Field| x@));
                    Some(
                        Ok(
                            BulkLine {
                                original,
                                comment,
                                eol,
                                data: Some(FieldData::Single(first, f, trailing)),
                            },
                        ),
                    )
                },
            }
        },
        Some(UnparsedFieldData::Double(first, a, trailing)) => {
            let raw = doubles_raw(&a);
            match parse_raw_fields(&raw) {
                None => None,
                Some(Err(e)) => Some(Err(e)),
                Some(Ok(v)) => {
                    let f = [v[0], v[1], v[2], v[3]];
                    assert(f@.map_values(|x: Field| x@) =~= v@.map_values(|x: Field| x@));
                    Some(
                        Ok(
                            BulkLine {
                                original,
                                comment,
                                eol,
                                data: Some(FieldData::Double(first, f, trailing)),
                            },
                        ),
                    )
                },
            }
        },
    }
}

} // verus!
