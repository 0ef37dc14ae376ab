//! The fields of an unparsed card and the automata that read them: the
//! first field, the data fields and the trailing field.
use vstd::prelude::*;

use super::error::{Error, ErrorView};
use crate::bdf::field::{blanks, card_name, all_digits, is_digit, is_upper, kept, prefix_vec, signed_value, upper, upper_or_digit, Keep};
use crate::scan::{digit, digits_to_i32, padded, pad8, MINUS, PERIOD, PLUS, SPACE, STAR, UPPER_D, UPPER_E};

verus! {

/// The first eight columns of a line, as read.
#[derive(Debug, Clone, Copy, PartialEq)]
pub struct UnparsedFirstField(pub [u8; 8]);

/// An eight column data field, as read.
#[derive(Debug, Clone, Copy, PartialEq)]
pub struct UnparsedSingleField(pub [u8; 8]);

/// A sixteen column data field, as read.
#[derive(Debug, Clone, Copy, PartialEq)]
pub struct UnparsedDoubleField(pub [u8; 16]);

/// The last eight columns of a line, as read.
#[derive(Debug, Clone, Copy, PartialEq)]
pub struct UnparsedTrailingField(pub [u8; 8]);

#[derive(Debug, Clone, Copy, PartialEq)]
pub enum FirstFieldKind {
    Blank,
    Text([u8; 8]),
    Continuation([u8; 8]),
}

/// The first field of a line: blank, a card name or a continuation marker,
/// and whether the line has sixteen column fields.
#[derive(Debug, Clone, Copy, PartialEq)]
pub struct FirstField {
    pub kind: FirstFieldKind,
    pub double: bool,
}

/// A continuation name read from the last eight columns.
#[derive(Debug, Clone, Copy, PartialEq)]
pub struct TrailingField(pub [u8; 8]);

/// A data field. Real numbers are kept as the text that Rust's float parser
/// reads (exponent marked `E`), left-justified in sixteen bytes.
#[derive(Debug, Clone, Copy, PartialEq)]
pub enum Field {
    Blank,
    Int(i32),
    Float([u8; 16]),
    Double([u8; 16]),
    Text([u8; 8]),
}

/// The model of a [`FirstFieldKind`].
pub enum KindView {
    Blank,
    Text(Seq<u8>),
    Continuation(Seq<u8>),
}

/// The model of a [`Field`].
pub enum FieldView {
    Blank,
    Int(int),
    Float(Seq<u8>),
    Double(Seq<u8>),
    Text(Seq<u8>),
}

impl View for Field {
    type V = FieldView;

    open spec fn view(&self) -> FieldView {
        match self {
            Field::Blank => FieldView::Blank,
            Field::Int(i) => FieldView::Int(*i as int),
            Field::Float(t) => FieldView::Float(t@),
            Field::Double(t) => FieldView::Double(t@),
            Field::Text(t) => FieldView::Text(t@),
        }
    }
}

impl View for FirstField {
    type V = (KindView, bool);

    open spec fn view(&self) -> (KindView, bool) {
        (
            match self.kind {
                FirstFieldKind::Blank => KindView::Blank,
                FirstFieldKind::Text(t) => KindView::Text(t@),
                FirstFieldKind::Continuation(t) => KindView::Continuation(t@),
            },
            self.double,
        )
    }
}

// ---------------------------------------------------------------------------
// First field

#[derive(Clone, Copy)]
pub enum FirstState {
    Start,
    Blank,
    Alpha,
    Continuation,
    EndAlpha,
}

/// One step of the first-field automaton at output length `i`: the next
/// state, the bytes kept, and whether a `*` marks large fields. A leading `*`
/// is kept as a `+`. `None` for a byte that is not allowed there.
pub open spec fn first_step(s: FirstState, c: u8, i: nat) -> Option<(FirstState, Seq<u8>, bool)> {
    match s {
        FirstState::Start => if c == SPACE {
            Some((FirstState::Blank, Seq::empty(), false))
        } else if upper(c) {
            Some((FirstState::Alpha, seq![c], false))
        } else if c == PLUS {
            Some((FirstState::Continuation, seq![PLUS], false))
        } else if c == STAR {
            Some((FirstState::Continuation, seq![PLUS], true))
        } else {
            None
        },
        FirstState::Blank => if c == SPACE {
            Some((FirstState::Blank, Seq::empty(), false))
        } else {
            None
        },
        FirstState::Alpha => if upper_or_digit(c) {
            Some((FirstState::Alpha, seq![c], false))
        } else if c == SPACE {
            Some((FirstState::EndAlpha, seq![c], false))
        } else if c == STAR {
            Some((FirstState::EndAlpha, Seq::empty(), true))
        } else {
            None
        },
        FirstState::Continuation => if upper_or_digit(c) {
            Some((FirstState::Continuation, seq![c], false))
        } else if c == SPACE && i <= 7 {
            Some((FirstState::Continuation, seq![c], false))
        } else if c == SPACE {
            Some((FirstState::Continuation, Seq::empty(), false))
        } else {
            None
        },
        FirstState::EndAlpha => if c == SPACE {
            Some((FirstState::EndAlpha, Seq::empty(), false))
        } else if c == STAR {
            Some((FirstState::EndAlpha, Seq::empty(), true))
        } else {
            None
        },
    }
}

/// Running the first-field automaton over `f`: the state, the bytes kept and
/// whether a `*` was seen; or the first byte refused.
pub open spec fn first_run(f: Seq<u8>) -> Result<(FirstState, Seq<u8>, bool), u8>
    decreases f.len(),
{
    if f.len() == 0 {
        Ok((FirstState::Start, Seq::empty(), false))
    } else {
        match first_run(f.drop_last()) {
            Ok((s, out, d)) => match first_step(s, f.last(), out.len()) {
                Some((s2, e, star)) => Ok((s2, out + e, d || star)),
                None => Err(f.last()),
            },
            Err(c) => Err(c),
        }
    }
}

/// The first field of a line: blank, a card name, or a continuation marker
/// that starts with `+`, at most eight characters, space padded.
pub open spec fn spec_first_field(f: Seq<u8>) -> Result<(KindView, bool), ErrorView> {
    match first_run(f) {
        Err(c) => Err(ErrorView::UnexpectedChar(c)),
        Ok((s, out, double)) => if out.len() > 8 {
            Err(ErrorView::TextTooLong(out))
        } else {
            match s {
                FirstState::Start | FirstState::Blank => Ok((KindView::Blank, double)),
                FirstState::Alpha | FirstState::EndAlpha => Ok(
                    (KindView::Text(padded(out, 8)), double),
                ),
                FirstState::Continuation => Ok((KindView::Continuation(padded(out, 8)), double)),
            }
        },
    }
}

proof fn lemma_first_run_name(n: Seq<u8>)
    requires
        card_name(n),
    ensures
        first_run(n) == Ok::<(FirstState, Seq<u8>, bool), u8>((FirstState::Alpha, n, false)),
    decreases n.len(),
{
    if n.len() > 1 {
        let p = n.drop_last();
        assert forall|i: int| 1 <= i < p.len() implies upper_or_digit(#[trigger] p[i]) by {
            assert(p[i] == n[i]);
        }
        lemma_first_run_name(p);
        assert(n.last() == n[n.len() - 1]);
        assert(p + seq![n.last()] =~= n);
    } else {
        assert(n.drop_last() =~= Seq::<u8>::empty());
        assert(first_run(Seq::<u8>::empty()) == Ok::<(FirstState, Seq<u8>, bool), u8>(
            (FirstState::Start, Seq::<u8>::empty(), false),
        ));
        assert(n.last() == n[0]);
        assert(Seq::<u8>::empty() + seq![n.last()] =~= n);
    }
}

proof fn lemma_first_run_name_blanks(n: Seq<u8>, k: nat)
    requires
        card_name(n),
        k >= 1,
    ensures
        first_run(n + blanks(k)) == Ok::<(FirstState, Seq<u8>, bool), u8>(
            (FirstState::EndAlpha, n.push(SPACE), false),
        ),
    decreases k,
{
    let f = n + blanks(k);
    assert(f.last() == SPACE);
    if k == 1 {
        lemma_first_run_name(n);
        assert(f.drop_last() =~= n);
        assert(n + seq![SPACE] =~= n.push(SPACE));
    } else {
        lemma_first_run_name_blanks(n, (k - 1) as nat);
        assert(f.drop_last() =~= n + blanks((k - 1) as nat));
        assert(n.push(SPACE) + Seq::<u8>::empty() =~= n.push(SPACE));
    }
}

/// A first field holding a card name of up to eight characters,
/// left-justified in its eight columns, reads as that card name, space
/// padded, with small fields.
pub proof fn law_card_name_first_field(n: Seq<u8>)
    requires
        card_name(n),
        n.len() <= 8,
    ensures
        spec_first_field(padded(n, 8)) == Ok::<(KindView, bool), ErrorView>(
            (KindView::Text(padded(n, 8)), false),
        ),
{
    if n.len() < 8 {
        let k = (8 - n.len()) as nat;
        assert(padded(n, 8) =~= n + blanks(k));
        lemma_first_run_name_blanks(n, k);
        assert(padded(n.push(SPACE), 8) =~= padded(n, 8));
    } else {
        assert(padded(n, 8) =~= n);
        lemma_first_run_name(n);
    }
}

proof fn lemma_first_run_err(f: Seq<u8>, k: int)
    requires
        0 <= k <= f.len(),
    ensures
        first_run(f.take(k)) is Err ==> first_run(f) == first_run(f.take(k)),
    decreases f.len(),
{
    if k < f.len() {
        assert(f.drop_last().take(k) =~= f.take(k));
        lemma_first_run_err(f.drop_last(), k);
    } else {
        assert(f.take(k) =~= f);
    }
}

/// Reads the first field of a line, see [`spec_first_field`].
pub fn parse_first_field(unparsed: &UnparsedFirstField) -> (r: Result<FirstField, Error>)
    ensures
        match r {
            Ok(f) => spec_first_field(unparsed.0@) == Ok::<(KindView, bool), ErrorView>(f@),
            Err(e) => spec_first_field(unparsed.0@) == Err::<(KindView, bool), ErrorView>(e@),
        },
{
    let field = unparsed.0;
    let mut state = FirstState::Start;
    let mut contents = [SPACE; 16];
    let mut i: usize = 0;
    let mut double = false;
    let mut k: usize = 0;
    assert(field@.take(0) =~= Seq::<u8>::empty());
    assert(contents@.take(0) =~= Seq::<u8>::empty());
    while k < 8
        invariant
            field == unparsed.0,
            k <= 8,
            i <= k,
            first_run(field@.take(k as int)) == Ok::<(FirstState, Seq<u8>, bool), u8>(
                (state, contents@.take(i as int), double),
            ),
        decreases 8 - k,
    {
        let c = field[k];
        proof {
            assert(field@.take(k + 1).drop_last() =~= field@.take(k as int));
            assert(field@.take(k + 1).last() == c);
            assert(field@.take(8) =~= field@);
            lemma_first_run_err(field@, k + 1);
        }
        let alnum = is_upper(c) || is_digit(c);
        let (s, keep, star): (FirstState, Option<u8>, bool) = match state {
            FirstState::Start => if c == SPACE {
                (FirstState::Blank, None, false)
            } else if is_upper(c) {
                (FirstState::Alpha, Some(c), false)
            } else if c == PLUS {
                (FirstState::Continuation, Some(PLUS), false)
            } else if c == STAR {
                (FirstState::Continuation, Some(PLUS), true)
            } else {
                return Err(Error::UnexpectedChar(c));
            },
            FirstState::Blank => if c == SPACE {
                (FirstState::Blank, None, false)
            } else {
                return Err(Error::UnexpectedChar(c));
            },
            FirstState::Alpha => if alnum {
                (FirstState::Alpha, Some(c), false)
            } else if c == SPACE {
                (FirstState::EndAlpha, Some(c), false)
            } else if c == STAR {
                (FirstState::EndAlpha, None, true)
            } else {
                return Err(Error::UnexpectedChar(c));
            },
            FirstState::Continuation => if alnum {
                (FirstState::Continuation, Some(c), false)
            } else if c == SPACE && i <= 7 {
                (FirstState::Continuation, Some(c), false)
            } else if c == SPACE {
                (FirstState::Continuation, None, false)
            } else {
                return Err(Error::UnexpectedChar(c));
            },
            FirstState::EndAlpha => if c == SPACE {
                (FirstState::EndAlpha, None, false)
            } else if c == STAR {
                (FirstState::EndAlpha, None, true)
            } else {
                return Err(Error::UnexpectedChar(c));
            },
        };
        let ghost prev = contents@.take(i as int);
        state = s;
        double = double || star;
        match keep {
            Some(b) => {
                contents[i] = b;
                i += 1;
                assert(contents@.take(i as int) =~= prev + seq![b]);
            },
            None => {
                assert(prev + Seq::<u8>::empty() =~= prev);
            },
        }
        k += 1;
    }
    assert(field@.take(8) =~= field@);
    if i > 8 {
        return Err(Error::TextTooLong(prefix_vec(&contents, i)));
    }
    let result = pad8(vstd::array::array_as_slice(&contents), 0, i);
    assert(contents@.subrange(0, i as int) =~= contents@.take(i as int));
    let kind = match state {
        FirstState::Start | FirstState::Blank => FirstFieldKind::Blank,
        FirstState::Alpha | FirstState::EndAlpha => FirstFieldKind::Text(result),
        FirstState::Continuation => FirstFieldKind::Continuation(result),
    };
    Ok(FirstField { kind, double })
}

// ---------------------------------------------------------------------------
// Trailing field

#[derive(Clone, Copy)]
pub enum TrailState {
    Start,
    Middle,
    Blank,
}

/// One step of the trailing-field automaton: a name gets a `+` put in front
/// of its first character; after a name, a space is refused.
pub open spec fn trail_step(s: TrailState, c: u8) -> Option<(TrailState, Seq<u8>)> {
    match s {
        TrailState::Start => if c == SPACE {
            Some((TrailState::Blank, Seq::empty()))
        } else if upper_or_digit(c) {
            Some((TrailState::Middle, seq![PLUS, c]))
        } else {
            None
        },
        TrailState::Middle => if upper_or_digit(c) {
            Some((TrailState::Middle, seq![c]))
        } else {
            None
        },
        TrailState::Blank => if c == SPACE {
            Some((TrailState::Blank, Seq::empty()))
        } else {
            None
        },
    }
}

pub open spec fn trail_run(f: Seq<u8>) -> Result<(TrailState, Seq<u8>), u8>
    decreases f.len(),
{
    if f.len() == 0 {
        Ok((TrailState::Start, Seq::empty()))
    } else {
        match trail_run(f.drop_last()) {
            Ok((s, out)) => match trail_step(s, f.last()) {
                Some((s2, e)) => Ok((s2, out + e)),
                None => Err(f.last()),
            },
            Err(c) => Err(c),
        }
    }
}

/// The trailing field: blank, or `+` and a name of letters and digits, at
/// most eight characters in all, space padded.
pub open spec fn spec_trailing_field(f: Seq<u8>) -> Result<Seq<u8>, ErrorView> {
    match trail_run(f) {
        Err(c) => Err(ErrorView::UnexpectedChar(c)),
        Ok((_s, out)) => if out.len() > 8 {
            Err(ErrorView::TextTooLong(out))
        } else {
            Ok(padded(out, 8))
        },
    }
}

proof fn lemma_trail_run_err(f: Seq<u8>, k: int)
    requires
        0 <= k <= f.len(),
    ensures
        trail_run(f.take(k)) is Err ==> trail_run(f) == trail_run(f.take(k)),
    decreases f.len(),
{
    if k < f.len() {
        assert(f.drop_last().take(k) =~= f.take(k));
        lemma_trail_run_err(f.drop_last(), k);
    } else {
        assert(f.take(k) =~= f);
    }
}

/// Reads the trailing field of a line, see [`spec_trailing_field`].
pub fn parse_trailing_field(unparsed: &UnparsedTrailingField) -> (r: Result<TrailingField, Error>)
    ensures
        match r {
            Ok(t) => spec_trailing_field(unparsed.0@) == Ok::<Seq<u8>, ErrorView>(t.0@),
            Err(e) => spec_trailing_field(unparsed.0@) == Err::<Seq<u8>, ErrorView>(e@),
        },
{
    let field = unparsed.0;
    let mut state = TrailState::Start;
    let mut contents = [SPACE; 16];
    let mut i: usize = 0;
    let mut k: usize = 0;
    assert(field@.take(0) =~= Seq::<u8>::empty());
    assert(contents@.take(0) =~= Seq::<u8>::empty());
    while k < 8
        invariant
            field == unparsed.0,
            k <= 8,
            i <= k + 1,
            i <= 9,
            trail_run(field@.take(k as int)) == Ok::<(TrailState, Seq<u8>), u8>(
                (state, contents@.take(i as int)),
            ),
            i > 0 ==> state is Middle,
        decreases 8 - k,
    {
        let c = field[k];
        proof {
            assert(field@.take(k + 1).drop_last() =~= field@.take(k as int));
            assert(field@.take(k + 1).last() == c);
            assert(field@.take(8) =~= field@);
            lemma_trail_run_err(field@, k + 1);
        }
        let alnum = is_upper(c) || is_digit(c);
        let ghost prev = contents@.take(i as int);
        match state {
            TrailState::Start => if c == SPACE {
                state = TrailState::Blank;
                assert(prev + Seq::<u8>::empty() =~= prev);
            } else if alnum {
                state = TrailState::Middle;
                contents[i] = PLUS;
                contents[i + 1] = c;
                i += 2;
                assert(contents@.take(i as int) =~= prev + seq![PLUS, c]);
            } else {
                return Err(Error::UnexpectedChar(c));
            },
            TrailState::Middle => if alnum {
                contents[i] = c;
                i += 1;
                assert(contents@.take(i as int) =~= prev + seq![c]);
            } else {
                return Err(Error::UnexpectedChar(c));
            },
            TrailState::Blank => if c == SPACE {
                assert(prev + Seq::<u8>::empty() =~= prev);
            } else {
                return Err(Error::UnexpectedChar(c));
            },
        }
        k += 1;
    }
    assert(field@.take(8) =~= field@);
    if i > 8 {
        return Err(Error::TextTooLong(prefix_vec(&contents, i)));
    }
    let result = pad8(vstd::array::array_as_slice(&contents), 0, i);
    assert(contents@.subrange(0, i as int) =~= contents@.take(i as int));
    Ok(TrailingField(result))
}

// ---------------------------------------------------------------------------
// Data fields

#[derive(Clone, Copy)]
pub enum InnerState {
    Start,
    PlusMinus,
    Period,
    PlusMinusPeriod,
    FloatPeriod,
    Digits,
    Alpha,
    FloatExponent,
    DoubleExponent,
    FloatSignedExponent,
    DoubleSignedExponent,
    FloatSignedExponentValue,
    DoubleSignedExponentValue,
    EndText,
    EndInt,
    EndFloat,
    EndDouble,
}

/// What one byte does to the data-field automaton.
pub enum InnerStep {
    Go(InnerState, Seq<u8>),
    EmbeddedSpace,
    Unexpected,
}

/// One step of the data-field automaton at output length `i`. A sign
/// directly after the digits of a real number starts an exponent (an `E` is
/// put in); a leading `+` is dropped; a `D` exponent is refused.
pub open spec fn inner_step(s: InnerState, c: u8, i: nat) -> InnerStep {
    let go = |t: InnerState, e: Seq<u8>| InnerStep::Go(t, e);
    let sign = c == PLUS || c == MINUS;
    match s {
        InnerState::Start => if c == SPACE {
            go(InnerState::Start, Seq::empty())
        } else if upper(c) {
            go(InnerState::Alpha, seq![c])
        } else if c == PLUS {
            go(InnerState::PlusMinus, Seq::empty())
        } else if c == MINUS {
            go(InnerState::PlusMinus, seq![c])
        } else if c == PERIOD {
            go(InnerState::Period, seq![c])
        } else if digit(c) {
            go(InnerState::Digits, seq![c])
        } else {
            InnerStep::Unexpected
        },
        InnerState::Digits => if digit(c) {
            go(InnerState::Digits, seq![c])
        } else if c == PERIOD {
            go(InnerState::FloatPeriod, seq![c])
        } else if c == SPACE {
            go(InnerState::EndInt, Seq::empty())
        } else if c == UPPER_E {
            go(InnerState::FloatExponent, seq![c])
        } else {
            InnerStep::Unexpected
        },
        InnerState::PlusMinus => if digit(c) {
            go(InnerState::Digits, seq![c])
        } else if c == PERIOD {
            go(InnerState::PlusMinusPeriod, seq![c])
        } else {
            InnerStep::Unexpected
        },
        InnerState::PlusMinusPeriod => if digit(c) {
            go(InnerState::FloatPeriod, seq![c])
        } else {
            InnerStep::Unexpected
        },
        InnerState::Period => if digit(c) {
            go(InnerState::FloatPeriod, seq![c])
        } else {
            InnerStep::Unexpected
        },
        InnerState::FloatPeriod => if digit(c) {
            go(InnerState::FloatPeriod, seq![c])
        } else if c == UPPER_D {
            go(InnerState::DoubleExponent, seq![UPPER_E])
        } else if c == UPPER_E {
            go(InnerState::FloatExponent, seq![c])
        } else if sign {
            go(InnerState::FloatSignedExponent, seq![UPPER_E, c])
        } else if c == SPACE {
            go(InnerState::EndFloat, Seq::empty())
        } else {
            InnerStep::Unexpected
        },
        InnerState::FloatExponent => if sign {
            go(InnerState::FloatSignedExponent, seq![c])
        } else if digit(c) {
            go(InnerState::FloatSignedExponentValue, seq![c])
        } else {
            InnerStep::Unexpected
        },
        InnerState::FloatSignedExponent => if digit(c) {
            go(InnerState::FloatSignedExponentValue, seq![c])
        } else {
            InnerStep::Unexpected
        },
        InnerState::DoubleSignedExponent => if digit(c) {
            go(InnerState::DoubleSignedExponentValue, seq![c])
        } else {
            InnerStep::Unexpected
        },
        InnerState::FloatSignedExponentValue => if digit(c) {
            go(InnerState::FloatSignedExponentValue, seq![c])
        } else if c == SPACE {
            go(InnerState::EndFloat, Seq::empty())
        } else {
            InnerStep::Unexpected
        },
        InnerState::DoubleSignedExponentValue => if digit(c) {
            go(InnerState::DoubleSignedExponentValue, seq![c])
        } else if c == SPACE {
            go(InnerState::EndDouble, Seq::empty())
        } else {
            InnerStep::Unexpected
        },
        InnerState::Alpha => if upper_or_digit(c) && i <= 7 {
            go(InnerState::Alpha, seq![c])
        } else if c == SPACE {
            go(InnerState::EndText, Seq::empty())
        } else {
            InnerStep::Unexpected
        },
        InnerState::EndInt => if c == SPACE {
            go(InnerState::EndInt, Seq::empty())
        } else {
            InnerStep::EmbeddedSpace
        },
        InnerState::EndFloat => if c == SPACE {
            go(InnerState::EndFloat, Seq::empty())
        } else {
            InnerStep::EmbeddedSpace
        },
        InnerState::EndDouble => if c == SPACE {
            go(InnerState::EndDouble, Seq::empty())
        } else {
            InnerStep::EmbeddedSpace
        },
        InnerState::EndText => if c == SPACE {
            go(InnerState::EndText, Seq::empty())
        } else {
            InnerStep::EmbeddedSpace
        },
        InnerState::DoubleExponent => InnerStep::Unexpected,
    }
}

/// Running the data-field automaton: the state and the bytes kept, an error,
/// or `Overflow` where the kept bytes would not fit the sixteen byte scratch
/// buffer.
pub enum InnerRun {
    Done(InnerState, Seq<u8>),
    Fail(ErrorView),
    Overflow,
}

pub open spec fn inner_run(f: Seq<u8>) -> InnerRun
    decreases f.len(),
{
    if f.len() == 0 {
        InnerRun::Done(InnerState::Start, Seq::empty())
    } else {
        match inner_run(f.drop_last()) {
            InnerRun::Done(s, out) => match inner_step(s, f.last(), out.len()) {
                InnerStep::Go(s2, e) => if out.len() + e.len() > 16 {
                    InnerRun::Overflow
                } else {
                    InnerRun::Done(s2, out + e)
                },
                InnerStep::EmbeddedSpace => InnerRun::Fail(ErrorView::EmbeddedSpace),
                InnerStep::Unexpected => InnerRun::Fail(ErrorView::UnexpectedChar(f.last())),
            },
            other => other,
        }
    }
}

/// A data field (eight or sixteen columns): blank, an integer of at most
/// eight characters, a real number, or text of up to eight characters.
/// `None` where the kept bytes overflow the scratch buffer.
pub open spec fn spec_inner_field(f: Seq<u8>) -> Option<Result<FieldView, ErrorView>> {
    match inner_run(f) {
        InnerRun::Overflow => None,
        InnerRun::Fail(e) => Some(Err(e)),
        InnerRun::Done(s, out) => Some(
            match s {
                InnerState::Start => Ok(FieldView::Blank),
                InnerState::Digits | InnerState::EndInt => if out.len() <= 8 {
                    Ok(FieldView::Int(signed_value(out)))
                } else {
                    Err(ErrorView::InvalidField)
                },
                InnerState::FloatPeriod | InnerState::EndFloat
                | InnerState::FloatSignedExponentValue => Ok(FieldView::Float(padded(out, 16))),
                InnerState::EndDouble | InnerState::DoubleSignedExponentValue => Ok(
                    FieldView::Double(padded(out, 16)),
                ),
                InnerState::Alpha | InnerState::EndText => if out.len() > 8 {
                    Err(ErrorView::TextTooLong(out))
                } else {
                    Ok(FieldView::Text(padded(out, 8)))
                },
                _ => Err(ErrorView::InvalidField),
            },
        ),
    }
}

proof fn lemma_inner_run_stop(f: Seq<u8>, k: int)
    requires
        0 <= k <= f.len(),
    ensures
        !(inner_run(f.take(k)) is Done) ==> inner_run(f) == inner_run(f.take(k)),
    decreases f.len(),
{
    if k < f.len() {
        assert(f.drop_last().take(k) =~= f.take(k));
        lemma_inner_run_stop(f.drop_last(), k);
    } else {
        assert(f.take(k) =~= f);
    }
}

/// In the integer states the kept bytes are an optional minus sign and
/// digits.
pub open spec fn inner_inv(s: InnerState, out: Seq<u8>) -> bool {
    match s {
        InnerState::Start => out.len() == 0,
        InnerState::PlusMinus => out.len() == 0 || out == seq![MINUS],
        InnerState::Digits | InnerState::EndInt => out.len() >= 1 && if out[0] == MINUS {
            all_digits(out.drop_first())
        } else {
            all_digits(out)
        },
        _ => true,
    }
}

proof fn lemma_inner_inv(f: Seq<u8>)
    ensures
        inner_run(f) matches InnerRun::Done(s, out) ==> inner_inv(s, out),
    decreases f.len(),
{
    if f.len() > 0 {
        lemma_inner_inv(f.drop_last());
        match inner_run(f.drop_last()) {
            InnerRun::Done(s, out) => {
                let c = f.last();
                match inner_step(s, c, out.len()) {
                    InnerStep::Go(s2, e) => {
                        let o2 = out + e;
                        if out.len() > 0 && o2[0] == MINUS {
                            assert(o2.drop_first() =~= out.drop_first() + e);
                        }
                    },
                    _ => {},
                }
            },
            _ => {},
        }
    }
}

/// One step of the data-field automaton, see [`inner_step`].
fn inner_step_exec(s: InnerState, c: u8, i: usize) -> (r: Result<(InnerState, Keep), Error>)
    ensures
        match r {
            Ok((t, k)) => inner_step(s, c, i as nat) == InnerStep::Go(t, kept(k, c)),
            Err(Error::EmbeddedSpace) => inner_step(s, c, i as nat) is EmbeddedSpace,
            Err(e) => inner_step(s, c, i as nat) is Unexpected && e == Error::UnexpectedChar(c),
        },
{
    let digit = is_digit(c);
    let sign = c == PLUS || c == MINUS;
    let unexpected = Err(Error::UnexpectedChar(c));
    match s {
        InnerState::Start => if c == SPACE {
            Ok((InnerState::Start, Keep::Nothing))
        } else if is_upper(c) {
            Ok((InnerState::Alpha, Keep::Byte))
        } else if c == PLUS {
            Ok((InnerState::PlusMinus, Keep::Nothing))
        } else if c == MINUS {
            Ok((InnerState::PlusMinus, Keep::Byte))
        } else if c == PERIOD {
            Ok((InnerState::Period, Keep::Byte))
        } else if digit {
            Ok((InnerState::Digits, Keep::Byte))
        } else {
            unexpected
        },
        InnerState::Digits => if digit {
            Ok((InnerState::Digits, Keep::Byte))
        } else if c == PERIOD {
            Ok((InnerState::FloatPeriod, Keep::Byte))
        } else if c == SPACE {
            Ok((InnerState::EndInt, Keep::Nothing))
        } else if c == UPPER_E {
            Ok((InnerState::FloatExponent, Keep::Byte))
        } else {
            unexpected
        },
        InnerState::PlusMinus => if digit {
            Ok((InnerState::Digits, Keep::Byte))
        } else if c == PERIOD {
            Ok((InnerState::PlusMinusPeriod, Keep::Byte))
        } else {
            unexpected
        },
        InnerState::PlusMinusPeriod => if digit {
            Ok((InnerState::FloatPeriod, Keep::Byte))
        } else {
            unexpected
        },
        InnerState::Period => if digit {
            Ok((InnerState::FloatPeriod, Keep::Byte))
        } else {
            unexpected
        },
        InnerState::FloatPeriod => if digit {
            Ok((InnerState::FloatPeriod, Keep::Byte))
        } else if c == UPPER_D {
            Ok((InnerState::DoubleExponent, Keep::E))
        } else if c == UPPER_E {
            Ok((InnerState::FloatExponent, Keep::Byte))
        } else if sign {
            Ok((InnerState::FloatSignedExponent, Keep::EAndByte))
        } else if c == SPACE {
            Ok((InnerState::EndFloat, Keep::Nothing))
        } else {
            unexpected
        },
        InnerState::FloatExponent => if sign {
            Ok((InnerState::FloatSignedExponent, Keep::Byte))
        } else if digit {
            Ok((InnerState::FloatSignedExponentValue, Keep::Byte))
        } else {
            unexpected
        },
        InnerState::FloatSignedExponent => if digit {
            Ok((InnerState::FloatSignedExponentValue, Keep::Byte))
        } else {
            unexpected
        },
        InnerState::DoubleSignedExponent => if digit {
            Ok((InnerState::DoubleSignedExponentValue, Keep::Byte))
        } else {
            unexpected
        },
        InnerState::FloatSignedExponentValue => if digit {
            Ok((InnerState::FloatSignedExponentValue, Keep::Byte))
        } else if c == SPACE {
            Ok((InnerState::EndFloat, Keep::Nothing))
        } else {
            unexpected
        },
        InnerState::DoubleSignedExponentValue => if digit {
            Ok((InnerState::DoubleSignedExponentValue, Keep::Byte))
        } else if c == SPACE {
            Ok((InnerState::EndDouble, Keep::Nothing))
        } else {
            unexpected
        },
        InnerState::Alpha => if (is_upper(c) || digit) && i <= 7 {
            Ok((InnerState::Alpha, Keep::Byte))
        } else if c == SPACE {
            Ok((InnerState::EndText, Keep::Nothing))
        } else {
            unexpected
        },
        InnerState::EndInt => if c == SPACE {
            Ok((InnerState::EndInt, Keep::Nothing))
        } else {
            Err(Error::EmbeddedSpace)
        },
        InnerState::EndFloat => if c == SPACE {
            Ok((InnerState::EndFloat, Keep::Nothing))
        } else {
            Err(Error::EmbeddedSpace)
        },
        InnerState::EndDouble => if c == SPACE {
            Ok((InnerState::EndDouble, Keep::Nothing))
        } else {
            Err(Error::EmbeddedSpace)
        },
        InnerState::EndText => if c == SPACE {
            Ok((InnerState::EndText, Keep::Nothing))
        } else {
            Err(Error::EmbeddedSpace)
        },
        InnerState::DoubleExponent => unexpected,
    }
}

pub open spec fn field_result(r: &Result<Field, Error>) -> Result<FieldView, ErrorView> {
    match r {
        Ok(f) => Ok(f@),
        Err(e) => Err(e@),
    }
}

/// Reads a data field, see [`spec_inner_field`].
/// `None` where the bytes it keeps overflow its sixteen byte scratch buffer.
pub fn parse_inner_field(field: &[u8]) -> (r: Option<Result<Field, Error>>)
    ensures
        r is None <==> spec_inner_field(field@) is None,
        r matches Some(x) ==> field_result(&x) == spec_inner_field(field@).unwrap(),
{
    let n = field.len();
    let mut state = InnerState::Start;
    let mut contents = [SPACE; 16];
    let mut i: usize = 0;
    let mut k: usize = 0;
    assert(field@.take(0) =~= Seq::<u8>::empty());
    assert(contents@.take(0) =~= Seq::<u8>::empty());
    while k < n
        invariant
            k <= n == field@.len(),
            i <= 16,
            inner_run(field@.take(k as int)) == InnerRun::Done(state, contents@.take(i as int)),
            forall|j: int| i <= j < 16 ==> contents@[j] == SPACE,
        decreases n - k,
    {
        let c = field[k];
        proof {
            assert(field@.take(k + 1).drop_last() =~= field@.take(k as int));
            assert(field@.take(k + 1).last() == c);
            assert(field@.take(n as int) =~= field@);
            lemma_inner_run_stop(field@, k + 1);
        }
        let (s, keep) = match inner_step_exec(state, c, i) {
            Ok(x) => x,
            Err(e) => return Some(Err(e)),
        };
        let need: usize = match keep {
            Keep::Nothing => 0,
            Keep::Byte => 1,
            Keep::E => 1,
            Keep::EAndByte => 2,
        };
        if i + need > 16 {
            assert(inner_run(field@.take(k + 1)) == InnerRun::Overflow);
            return None;
        }
        let ghost prev = contents@.take(i as int);
        state = s;
        match keep {
            Keep::Nothing => {
                assert(prev + Seq::<u8>::empty() =~= prev);
            },
            Keep::Byte => {
                contents[i] = c;
                i += 1;
                assert(contents@.take(i as int) =~= prev + seq![c]);
            },
            Keep::E => {
                contents[i] = UPPER_E;
                i += 1;
                assert(contents@.take(i as int) =~= prev + seq![UPPER_E]);
            },
            Keep::EAndByte => {
                contents[i] = UPPER_E;
                contents[i + 1] = c;
                i += 2;
                assert(contents@.take(i as int) =~= prev + seq![UPPER_E, c]);
            },
        }
        k += 1;
    }
    assert(field@.take(n as int) =~= field@);
    let ghost out = contents@.take(i as int);
    assert(contents@ =~= padded(out, 16));
    proof {
        lemma_inner_inv(field@);
    }
    let digits = vstd::array::array_as_slice(&contents);
    match state {
        InnerState::Start => Some(Ok(Field::Blank)),
        InnerState::Digits | InnerState::EndInt => {
            if i <= 8 {
                if contents[0] == MINUS {
                    proof {
                        assert(out.drop_first() =~= contents@.subrange(1, i as int));
                        assert forall|j: int| 1 <= j < i implies digit(#[trigger] digits@[j]) by {
                            assert(digits@[j] == out.drop_first()[j - 1]);
                        }
                    }
                    let v = digits_to_i32(digits, 1, i);
                    Some(Ok(Field::Int(-v)))
                } else {
                    proof {
                        assert(out =~= contents@.subrange(0, i as int));
                        assert forall|j: int| 0 <= j < i implies digit(#[trigger] digits@[j]) by {
                            assert(digits@[j] == out[j]);
                        }
                    }
                    let v = digits_to_i32(digits, 0, i);
                    Some(Ok(Field::Int(v)))
                }
            } else {
                Some(Err(Error::InvalidField))
            }
        },
        InnerState::FloatPeriod | InnerState::EndFloat | InnerState::FloatSignedExponentValue => Some(
            Ok(Field::Float(contents)),
        ),
        InnerState::EndDouble | InnerState::DoubleSignedExponentValue => Some(
            Ok(Field::Double(contents)),
        ),
        InnerState::Alpha | InnerState::EndText => {
            if i > 8 {
                Some(Err(Error::TextTooLong(prefix_vec(&contents, i))))
            } else {
                let text = pad8(digits, 0, 8);
                assert(contents@.subrange(0, 8) =~= padded(out, 8));
                assert(padded(padded(out, 8), 8) =~= padded(out, 8));
                Some(Ok(Field::Text(text)))
            }
        },
        _ => Some(Err(Error::InvalidField)),
    }
}

} // verus!
