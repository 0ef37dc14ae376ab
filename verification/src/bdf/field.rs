//! Fields of a bulk data line and the three small automata that read them:
//! the first field (card name or continuation marker), the data fields, and
//! the trailing continuation field.
use vstd::prelude::*;

use super::error::{Error, ErrorView};
use crate::scan::{digit, digits_to_i32, digits_value, padded, DIGIT_0, DIGIT_9, MINUS, PERIOD, PLUS, SPACE, STAR, UPPER_A, UPPER_D, UPPER_E, UPPER_Z};

verus! {

/// A card name of up to seven characters, space padded.
#[derive(Debug, Clone, Copy, PartialEq)]
pub struct CardType(pub [u8; 7]);

/// A continuation name of up to seven characters, space padded.
#[derive(Debug, Clone, Copy, PartialEq, Eq, Hash)]
pub struct ContinuationField(pub [u8; 7]);

#[derive(Debug, Clone, Copy)]
pub enum FirstFieldKind {
    Text(CardType),
    Continuation(ContinuationField),
}

/// The first field of a line: a card name or a continuation marker, and
/// whether the line uses large (sixteen column) fields.
#[derive(Debug, Clone, Copy)]
pub struct FirstField {
    pub kind: FirstFieldKind,
    pub double: bool,
}

/// A data field. Real numbers are kept as the text that Rust's float parser
/// reads (exponent marked `E`), left-justified in sixteen bytes.
#[derive(Debug, Clone, Copy, PartialEq)]
pub enum Field {
    Blank,
    Int(i32),
    IntOrId(u32),
    Float([u8; 16]),
    Double([u8; 16]),
    Text([u8; 8]),
}

/// The model of a [`Field`].
pub enum FieldView {
    Blank,
    Int(int),
    IntOrId(int),
    Float(Seq<u8>),
    Double(Seq<u8>),
    Text(Seq<u8>),
}

impl View for Field {
    type V = FieldView;

    open spec fn view(&self) -> FieldView {
        match self {
            Field::Blank => FieldView::Blank,
            Field::Int(i) => FieldView::Int(*i as int),
            Field::IntOrId(i) => FieldView::IntOrId(*i as int),
            Field::Float(t) => FieldView::Float(t@),
            Field::Double(t) => FieldView::Double(t@),
            Field::Text(t) => FieldView::Text(t@),
        }
    }
}

/// The model of a [`FirstField`]: `(is_text, name, double)`.
pub open spec fn first_view(f: FirstField) -> (bool, Seq<u8>, bool) {
    match f.kind {
        FirstFieldKind::Text(t) => (true, t.0@, f.double),
        FirstFieldKind::Continuation(c) => (false, c.0@, f.double),
    }
}

pub open spec fn upper(c: u8) -> bool {
    UPPER_A <= c && c <= UPPER_Z
}

pub open spec fn upper_or_digit(c: u8) -> bool {
    upper(c) || digit(c)
}

pub(crate) fn is_upper(c: u8) -> (r: bool)
    ensures
        r == upper(c),
{
    c >= UPPER_A && c <= UPPER_Z
}

pub(crate) fn is_digit(c: u8) -> (r: bool)
    ensures
        r == digit(c),
{
    c >= DIGIT_0 && c <= DIGIT_9
}

// ---------------------------------------------------------------------------
// First field

#[derive(Clone, Copy)]
pub enum FirstState {
    Start,
    Blank,
    Alpha,
    Continuation,
    EndAlpha,
}

/// One step of the first-field automaton at output length `i`: the next
/// state, the bytes kept, and whether a `*` marks large fields. `None` for a
/// byte that is not allowed there.
pub open spec fn first_step(s: FirstState, c: u8, i: nat) -> Option<(FirstState, Seq<u8>, bool)> {
    match s {
        FirstState::Start => if c == SPACE {
            Some((FirstState::Blank, Seq::empty(), false))
        } else if upper(c) {
            Some((FirstState::Alpha, seq![c], false))
        } else if c == PLUS {
            Some((FirstState::Continuation, Seq::empty(), false))
        } else if c == STAR {
            Some((FirstState::Continuation, Seq::empty(), true))
        } else {
            None
        },
        FirstState::Blank => if c == SPACE {
            Some((FirstState::Blank, Seq::empty(), false))
        } else {
            None
        },
        FirstState::Alpha => if upper_or_digit(c) {
            Some((FirstState::Alpha, seq![c], false))
        } else if c == SPACE {
            Some((FirstState::EndAlpha, seq![c], false))
        } else if c == STAR {
            Some((FirstState::EndAlpha, Seq::empty(), true))
        } else {
            None
        },
        FirstState::Continuation => if upper_or_digit(c) {
            Some((FirstState::Continuation, seq![c], false))
        } else if c == SPACE && i <= 6 {
            Some((FirstState::Continuation, seq![c], false))
        } else if c == SPACE {
            Some((FirstState::Continuation, Seq::empty(), false))
        } else {
            None
        },
        FirstState::EndAlpha => if c == SPACE {
            Some((FirstState::EndAlpha, Seq::empty(), false))
        } else if c == STAR {
            Some((FirstState::EndAlpha, Seq::empty(), true))
        } else {
            None
        },
    }
}

/// Running the first-field automaton over `f`: the state, the bytes kept and
/// whether a `*` was seen; or the first byte refused.
pub open spec fn first_run(f: Seq<u8>) -> Result<(FirstState, Seq<u8>, bool), u8>
    decreases f.len(),
{
    if f.len() == 0 {
        Ok((FirstState::Start, Seq::empty(), false))
    } else {
        match first_run(f.drop_last()) {
            Ok((s, out, d)) => match first_step(s, f.last(), out.len()) {
                Some((s2, e, star)) => Ok((s2, out + e, d || star)),
                None => Err(f.last()),
            },
            Err(c) => Err(c),
        }
    }
}

/// The first field of a line: `None` when blank, otherwise a card name or a
/// continuation marker of at most seven characters, space padded.
pub open spec fn spec_first_field(f: Seq<u8>) -> Result<Option<(bool, Seq<u8>, bool)>, ErrorView> {
    match first_run(f) {
        Err(c) => Err(ErrorView::UnexpectedChar(c)),
        Ok((s, out, double)) => if out.len() > 7 {
            Err(ErrorView::TextTooLong(out))
        } else {
            match s {
                FirstState::Start | FirstState::Blank => Ok(None),
                FirstState::Alpha | FirstState::EndAlpha => Ok(Some((true, padded(out, 7), double))),
                FirstState::Continuation => Ok(Some((false, padded(out, 7), double))),
            }
        },
    }
}



/// A card name: an upper-case letter, then upper-case letters and digits.
pub open spec fn card_name(n: Seq<u8>) -> bool {
    &&& n.len() >= 1
    &&& upper(n[0])
    &&& forall|i: int| 1 <= i < n.len() ==> upper_or_digit(#[trigger] n[i])
}

/// `k` spaces.
pub open spec fn blanks(k: nat) -> Seq<u8> {
    Seq::new(k, |_i: int| SPACE)
}

proof fn lemma_first_run_name(n: Seq<u8>)
    requires
        card_name(n),
    ensures
        first_run(n) == Ok::<(FirstState, Seq<u8>, bool), u8>((FirstState::Alpha, n, false)),
    decreases n.len(),
{
    if n.len() > 1 {
        let p = n.drop_last();
        assert forall|i: int| 1 <= i < p.len() implies upper_or_digit(#[trigger] p[i]) by {
            assert(p[i] == n[i]);
        }
        lemma_first_run_name(p);
        assert(n.last() == n[n.len() - 1]);
        assert(p + seq![n.last()] =~= n);
    } else {
        assert(n.drop_last() =~= Seq::<u8>::empty());
        assert(first_run(Seq::<u8>::empty()) == Ok::<(FirstState, Seq<u8>, bool), u8>(
            (FirstState::Start, Seq::<u8>::empty(), false),
        ));
        assert(n.last() == n[0]);
        assert(Seq::<u8>::empty() + seq![n.last()] =~= n);
    }
}

proof fn lemma_first_run_name_blanks(n: Seq<u8>, k: nat)
    requires
        card_name(n),
        k >= 1,
    ensures
        first_run(n + blanks(k)) == Ok::<(FirstState, Seq<u8>, bool), u8>(
            (FirstState::EndAlpha, n.push(SPACE), false),
        ),
    decreases k,
{
    let f = n + blanks(k);
    assert(f.last() == SPACE);
    if k == 1 {
        lemma_first_run_name(n);
        assert(f.drop_last() =~= n);
        assert(n + seq![SPACE] =~= n.push(SPACE));
    } else {
        lemma_first_run_name_blanks(n, (k - 1) as nat);
        assert(f.drop_last() =~= n + blanks((k - 1) as nat));
        assert(n.push(SPACE) + Seq::<u8>::empty() =~= n.push(SPACE));
    }
}

/// A first field holding a card name, left-justified in its eight columns:
/// a name of up to six characters reads as that name (space padded to
/// seven) with small fields; a name of seven or eight characters is refused
/// as too long, the space that follows a seven-character name counted in.
pub proof fn law_card_name_first_field(n: Seq<u8>)
    requires
        card_name(n),
        n.len() <= 8,
    ensures
        n.len() <= 6 ==> spec_first_field(padded(n, 8)) == Ok::<
            Option<(bool, Seq<u8>, bool)>,
            ErrorView,
        >(Some((true, padded(n, 7), false))),
        n.len() == 7 ==> spec_first_field(padded(n, 8)) == Err::<
            Option<(bool, Seq<u8>, bool)>,
            ErrorView,
        >(ErrorView::TextTooLong(n.push(SPACE))),
        n.len() == 8 ==> spec_first_field(padded(n, 8)) == Err::<
            Option<(bool, Seq<u8>, bool)>,
            ErrorView,
        >(ErrorView::TextTooLong(n)),
{
    if n.len() < 8 {
        let k = (8 - n.len()) as nat;
        assert(padded(n, 8) =~= n + blanks(k));
        lemma_first_run_name_blanks(n, k);
        if n.len() <= 6 {
            assert(padded(n.push(SPACE), 7) =~= padded(n, 7));
        }
    } else {
        assert(padded(n, 8) =~= n);
        lemma_first_run_name(n);
    }
}

proof fn lemma_first_run_len(f: Seq<u8>)
    ensures
        first_run(f) matches Ok((_s, out, _d)) ==> out.len() <= f.len(),
    decreases f.len(),
{
    if f.len() > 0 {
        lemma_first_run_len(f.drop_last());
    }
}

/// Once the automaton refuses a byte, the refusal stands whatever follows.
proof fn lemma_first_run_err(f: Seq<u8>, k: int)
    requires
        0 <= k <= f.len(),
    ensures
        first_run(f.take(k)) is Err ==> first_run(f) == first_run(f.take(k)),
    decreases f.len(),
{
    if k < f.len() {
        assert(f.drop_last().take(k) =~= f.take(k));
        lemma_first_run_err(f.drop_last(), k);
    } else {
        assert(f.take(k) =~= f);
    }
}

/// Copies `src[..n]` into a space padded array of seven.
fn pad7(src: &[u8; 16], n: usize) -> (r: [u8; 7])
    requires
        n <= 7,
    ensures
        r@ == padded(src@.take(n as int), 7),
{
    let mut dst = [SPACE; 7];
    let mut k: usize = 0;
    while k < n
        invariant
            k <= n <= 7,
            forall|j: int| 0 <= j < k ==> dst@[j] == src@[j],
            forall|j: int| k <= j < 7 ==> dst@[j] == SPACE,
        decreases n - k,
    {
        dst[k] = src[k];
        k += 1;
    }
    assert(dst@ =~= padded(src@.take(n as int), 7));
    dst
}

/// The bytes `src[..n]` as a vector.
pub(crate) fn prefix_vec(src: &[u8; 16], n: usize) -> (r: Vec<u8>)
    requires
        n <= 16,
    ensures
        r@ == src@.take(n as int),
{
    let mut v: Vec<u8> = Vec::new();
    let mut k: usize = 0;
    while k < n
        invariant
            k <= n <= 16,
            v@ == src@.take(k as int),
        decreases n - k,
    {
        v.push(src[k]);
        k += 1;
        assert(v@ =~= src@.take(k as int));
    }
    v
}

/// Reads the first field of a line, see [`spec_first_field`].
pub fn parse_first_field(field: [u8; 8]) -> (r: Result<Option<FirstField>, Error>)
    ensures
        match r {
            Ok(Some(f)) => spec_first_field(field@) == Ok::<
                Option<(bool, Seq<u8>, bool)>,
                ErrorView,
            >(Some(first_view(f))),
            Ok(None) => spec_first_field(field@) == Ok::<Option<(bool, Seq<u8>, bool)>, ErrorView>(
                None,
            ),
            Err(e) => spec_first_field(field@) == Err::<Option<(bool, Seq<u8>, bool)>, ErrorView>(
                e@,
            ),
        },
{
    let mut state = FirstState::Start;
    let mut contents = [SPACE; 16];
    let mut i: usize = 0;
    let mut double = false;
    let mut k: usize = 0;
    assert(field@.take(0) =~= Seq::<u8>::empty());
    assert(contents@.take(0) =~= Seq::<u8>::empty());
    while k < 8
        invariant
            k <= 8,
            i <= k,
            first_run(field@.take(k as int)) == Ok::<(FirstState, Seq<u8>, bool), u8>(
                (state, contents@.take(i as int), double),
            ),
        decreases 8 - k,
    {
        let c = field[k];
        proof {
            assert(field@.take(k + 1).drop_last() =~= field@.take(k as int));
            assert(field@.take(k + 1).last() == c);
            assert(field@.take(8) =~= field@);
            lemma_first_run_err(field@, k + 1);
        }
        let (s, keep, star) = match state {
            FirstState::Start => if c == SPACE {
                (FirstState::Blank, false, false)
            } else if is_upper(c) {
                (FirstState::Alpha, true, false)
            } else if c == PLUS {
                (FirstState::Continuation, false, false)
            } else if c == STAR {
                (FirstState::Continuation, false, true)
            } else {
                return Err(Error::UnexpectedChar(c));
            },
            FirstState::Blank => if c == SPACE {
                (FirstState::Blank, false, false)
            } else {
                return Err(Error::UnexpectedChar(c));
            },
            FirstState::Alpha => if is_upper(c) || is_digit(c) {
                (FirstState::Alpha, true, false)
            } else if c == SPACE {
                (FirstState::EndAlpha, true, false)
            } else if c == STAR {
                (FirstState::EndAlpha, false, true)
            } else {
                return Err(Error::UnexpectedChar(c));
            },
            FirstState::Continuation => if is_upper(c) || is_digit(c) {
                (FirstState::Continuation, true, false)
            } else if c == SPACE && i <= 6 {
                (FirstState::Continuation, true, false)
            } else if c == SPACE {
                (FirstState::Continuation, false, false)
            } else {
                return Err(Error::UnexpectedChar(c));
            },
            FirstState::EndAlpha => if c == SPACE {
                (FirstState::EndAlpha, false, false)
            } else if c == STAR {
                (FirstState::EndAlpha, false, true)
            } else {
                return Err(Error::UnexpectedChar(c));
            },
        };
        let ghost prev = contents@.take(i as int);
        state = s;
        double = double || star;
        if keep {
            contents[i] = c;
            i += 1;
            assert(contents@.take(i as int) =~= prev + seq![c]);
        } else {
            assert(prev + Seq::<u8>::empty() =~= prev);
        }
        k += 1;
    }
    assert(field@.take(8) =~= field@);
    if i > 7 {
        return Err(Error::TextTooLong(prefix_vec(&contents, i)));
    }
    let result = pad7(&contents, i);
    match state {
        FirstState::Start | FirstState::Blank => Ok(None),
        FirstState::Alpha | FirstState::EndAlpha => Ok(
            Some(FirstField { kind: FirstFieldKind::Text(CardType(result)), double }),
        ),
        FirstState::Continuation => Ok(
            Some(
                FirstField {
                    kind: FirstFieldKind::Continuation(ContinuationField(result)),
                    double,
                },
            ),
        ),
    }
}

// ---------------------------------------------------------------------------
// Trailing continuation field

#[derive(Clone, Copy)]
pub enum TrailState {
    Start,
    Middle,
    End,
    Blank,
}

/// One step of the trailing-field automaton at output length `i`.
pub open spec fn trail_step(s: TrailState, c: u8, i: nat) -> Option<(TrailState, Seq<u8>)> {
    match s {
        TrailState::Start => if c == SPACE {
            Some((TrailState::Blank, Seq::empty()))
        } else if upper_or_digit(c) {
            Some((TrailState::Middle, seq![c]))
        } else if c == PLUS {
            Some((TrailState::Middle, Seq::empty()))
        } else {
            None
        },
        TrailState::Middle => if upper_or_digit(c) && i == 6 {
            Some((TrailState::End, seq![c]))
        } else if upper_or_digit(c) || c == SPACE {
            Some((TrailState::Middle, seq![c]))
        } else {
            None
        },
        TrailState::Blank => if c == SPACE {
            Some((TrailState::Blank, Seq::empty()))
        } else {
            None
        },
        TrailState::End => if c == SPACE {
            Some((TrailState::End, Seq::empty()))
        } else {
            None
        },
    }
}

pub open spec fn trail_run(f: Seq<u8>) -> Result<(TrailState, Seq<u8>), u8>
    decreases f.len(),
{
    if f.len() == 0 {
        Ok((TrailState::Start, Seq::empty()))
    } else {
        match trail_run(f.drop_last()) {
            Ok((s, out)) => match trail_step(s, f.last(), out.len()) {
                Some((s2, e)) => Ok((s2, out + e)),
                None => Err(f.last()),
            },
            Err(c) => Err(c),
        }
    }
}

/// The continuation name that ends a line: up to seven characters after an
/// optional `+`, space padded.
pub open spec fn spec_trailing_field(f: Seq<u8>) -> Result<Seq<u8>, ErrorView> {
    match trail_run(f) {
        Err(c) => Err(ErrorView::UnexpectedChar(c)),
        Ok((_s, out)) => if out.len() > 7 {
            Err(ErrorView::TextTooLong(out))
        } else {
            Ok(padded(out, 7))
        },
    }
}

proof fn lemma_trail_run_err(f: Seq<u8>, k: int)
    requires
        0 <= k <= f.len(),
    ensures
        trail_run(f.take(k)) is Err ==> trail_run(f) == trail_run(f.take(k)),
    decreases f.len(),
{
    if k < f.len() {
        assert(f.drop_last().take(k) =~= f.take(k));
        lemma_trail_run_err(f.drop_last(), k);
    } else {
        assert(f.take(k) =~= f);
    }
}

/// Reads the continuation field at the end of a line, see
/// [`spec_trailing_field`].
pub fn parse_trailing_field(field: [u8; 8]) -> (r: Result<ContinuationField, Error>)
    ensures
        match r {
            Ok(c) => spec_trailing_field(field@) == Ok::<Seq<u8>, ErrorView>(c.0@),
            Err(e) => spec_trailing_field(field@) == Err::<Seq<u8>, ErrorView>(e@),
        },
{
    let mut state = TrailState::Start;
    let mut contents = [SPACE; 16];
    let mut i: usize = 0;
    let mut k: usize = 0;
    assert(field@.take(0) =~= Seq::<u8>::empty());
    assert(contents@.take(0) =~= Seq::<u8>::empty());
    while k < 8
        invariant
            k <= 8,
            i <= k,
            trail_run(field@.take(k as int)) == Ok::<(TrailState, Seq<u8>), u8>(
                (state, contents@.take(i as int)),
            ),
        decreases 8 - k,
    {
        let c = field[k];
        proof {
            assert(field@.take(k + 1).drop_last() =~= field@.take(k as int));
            assert(field@.take(k + 1).last() == c);
            assert(field@.take(8) =~= field@);
            lemma_trail_run_err(field@, k + 1);
        }
        let alnum = is_upper(c) || is_digit(c);
        let (s, keep) = match state {
            TrailState::Start => if c == SPACE {
                (TrailState::Blank, false)
            } else if alnum {
                (TrailState::Middle, true)
            } else if c == PLUS {
                (TrailState::Middle, false)
            } else {
                return Err(Error::UnexpectedChar(c));
            },
            TrailState::Middle => if alnum && i == 6 {
                (TrailState::End, true)
            } else if alnum || c == SPACE {
                (TrailState::Middle, true)
            } else {
                return Err(Error::UnexpectedChar(c));
            },
            TrailState::Blank => if c == SPACE {
                (TrailState::Blank, false)
            } else {
                return Err(Error::UnexpectedChar(c));
            },
            TrailState::End => if c == SPACE {
                (TrailState::End, false)
            } else {
                return Err(Error::UnexpectedChar(c));
            },
        };
        let ghost prev = contents@.take(i as int);
        state = s;
        if keep {
            contents[i] = c;
            i += 1;
            assert(contents@.take(i as int) =~= prev + seq![c]);
        } else {
            assert(prev + Seq::<u8>::empty() =~= prev);
        }
        k += 1;
    }
    assert(field@.take(8) =~= field@);
    if i > 7 {
        return Err(Error::TextTooLong(prefix_vec(&contents, i)));
    }
    Ok(ContinuationField(pad7(&contents, i)))
}

// ---------------------------------------------------------------------------
// Data fields

#[derive(Clone, Copy)]
pub enum InnerState {
    Start,
    PlusMinus,
    Period,
    PlusMinusPeriod,
    FloatPeriod,
    IntOrId,
    Int,
    Alpha,
    FloatExponent,
    DoubleExponent,
    FloatSignedExponent,
    DoubleSignedExponent,
    FloatSignedExponentValue,
    DoubleSignedExponentValue,
    EndText,
    EndInt,
    EndIntOrId,
    EndFloat,
    EndDouble,
}

/// What one byte does to the data-field automaton.
pub enum InnerStep {
    Go(InnerState, Seq<u8>),
    EmbeddedSpace,
    Unexpected,
}

/// One step of the data-field automaton at output length `i`. A sign
/// directly after the digits of a real number starts an exponent (an `E` is
/// put in); a leading `+` is dropped.
pub open spec fn inner_step(s: InnerState, c: u8, i: nat) -> InnerStep {
    let go = |t: InnerState, e: Seq<u8>| InnerStep::Go(t, e);
    let sign = c == PLUS || c == MINUS;
    match s {
        InnerState::Start => if c == SPACE {
            go(InnerState::Start, Seq::empty())
        } else if upper(c) {
            go(InnerState::Alpha, seq![c])
        } else if c == PLUS {
            go(InnerState::PlusMinus, Seq::empty())
        } else if c == MINUS {
            go(InnerState::PlusMinus, seq![c])
        } else if c == PERIOD {
            go(InnerState::Period, seq![c])
        } else if digit(c) {
            go(InnerState::IntOrId, seq![c])
        } else {
            InnerStep::Unexpected
        },
        InnerState::Int => if digit(c) {
            go(InnerState::Int, seq![c])
        } else if c == PERIOD {
            go(InnerState::FloatPeriod, seq![c])
        } else if c == SPACE {
            go(InnerState::EndInt, Seq::empty())
        } else if c == UPPER_E {
            go(InnerState::FloatExponent, seq![c])
        } else {
            InnerStep::Unexpected
        },
        InnerState::IntOrId => if digit(c) {
            go(InnerState::IntOrId, seq![c])
        } else if c == PERIOD {
            go(InnerState::FloatPeriod, seq![c])
        } else if c == SPACE {
            go(InnerState::EndIntOrId, Seq::empty())
        } else if c == UPPER_E {
            go(InnerState::FloatExponent, seq![c])
        } else {
            InnerStep::Unexpected
        },
        InnerState::PlusMinus => if digit(c) {
            go(InnerState::Int, seq![c])
        } else if c == PERIOD {
            go(InnerState::PlusMinusPeriod, seq![c])
        } else {
            InnerStep::Unexpected
        },
        InnerState::PlusMinusPeriod => if digit(c) {
            go(InnerState::FloatPeriod, seq![c])
        } else {
            InnerStep::Unexpected
        },
        InnerState::Period => if digit(c) {
            go(InnerState::FloatPeriod, seq![c])
        } else {
            InnerStep::Unexpected
        },
        InnerState::FloatPeriod => if digit(c) {
            go(InnerState::FloatPeriod, seq![c])
        } else if c == UPPER_D {
            go(InnerState::DoubleExponent, seq![UPPER_E])
        } else if c == UPPER_E {
            go(InnerState::FloatExponent, seq![c])
        } else if sign {
            go(InnerState::FloatSignedExponent, seq![UPPER_E, c])
        } else if c == SPACE {
            go(InnerState::EndFloat, Seq::empty())
        } else {
            InnerStep::Unexpected
        },
        InnerState::FloatExponent => if sign {
            go(InnerState::FloatSignedExponent, seq![c])
        } else if digit(c) {
            go(InnerState::FloatSignedExponentValue, seq![c])
        } else {
            InnerStep::Unexpected
        },
        InnerState::FloatSignedExponent => if digit(c) {
            go(InnerState::FloatSignedExponentValue, seq![c])
        } else {
            InnerStep::Unexpected
        },
        InnerState::DoubleSignedExponent => if digit(c) {
            go(InnerState::DoubleSignedExponentValue, seq![c])
        } else {
            InnerStep::Unexpected
        },
        InnerState::FloatSignedExponentValue => if digit(c) {
            go(InnerState::FloatSignedExponentValue, seq![c])
        } else if c == SPACE {
            go(InnerState::EndFloat, Seq::empty())
        } else {
            InnerStep::Unexpected
        },
        InnerState::DoubleSignedExponentValue => if digit(c) {
            go(InnerState::DoubleSignedExponentValue, seq![c])
        } else if c == SPACE {
            go(InnerState::EndDouble, Seq::empty())
        } else {
            InnerStep::Unexpected
        },
        InnerState::Alpha => if upper_or_digit(c) && i <= 7 {
            go(InnerState::Alpha, seq![c])
        } else if c == SPACE {
            go(InnerState::EndText, Seq::empty())
        } else {
            InnerStep::Unexpected
        },
        InnerState::EndInt => if c == SPACE {
            go(InnerState::EndInt, Seq::empty())
        } else {
            InnerStep::EmbeddedSpace
        },
        InnerState::EndIntOrId => if c == SPACE {
            go(InnerState::EndIntOrId, Seq::empty())
        } else {
            InnerStep::Unexpected
        },
        InnerState::EndFloat => if c == SPACE {
            go(InnerState::EndFloat, Seq::empty())
        } else {
            InnerStep::EmbeddedSpace
        },
        InnerState::EndDouble => if c == SPACE {
            go(InnerState::EndDouble, Seq::empty())
        } else {
            InnerStep::EmbeddedSpace
        },
        InnerState::EndText => if c == SPACE {
            go(InnerState::EndText, Seq::empty())
        } else {
            InnerStep::EmbeddedSpace
        },
        InnerState::DoubleExponent => InnerStep::Unexpected,
    }
}

/// Running the data-field automaton: the state and the bytes kept, an error,
/// or `Overflow` where the kept bytes would not fit the sixteen byte scratch
/// buffer.
pub enum InnerRun {
    Done(InnerState, Seq<u8>),
    Fail(ErrorView),
    Overflow,
}

pub open spec fn inner_run(f: Seq<u8>) -> InnerRun
    decreases f.len(),
{
    if f.len() == 0 {
        InnerRun::Done(InnerState::Start, Seq::empty())
    } else {
        match inner_run(f.drop_last()) {
            InnerRun::Done(s, out) => match inner_step(s, f.last(), out.len()) {
                InnerStep::Go(s2, e) => if out.len() + e.len() > 16 {
                    InnerRun::Overflow
                } else {
                    InnerRun::Done(s2, out + e)
                },
                InnerStep::EmbeddedSpace => InnerRun::Fail(ErrorView::EmbeddedSpace),
                InnerStep::Unexpected => InnerRun::Fail(ErrorView::UnexpectedChar(f.last())),
            },
            other => other,
        }
    }
}

/// Value of digits with an optional leading minus sign.
pub open spec fn signed_value(s: Seq<u8>) -> int {
    if s.len() > 0 && s[0] == MINUS {
        -digits_value(s.drop_first())
    } else {
        digits_value(s)
    }
}

/// A data field (eight or sixteen columns): blank, an integer (signed, or
/// unsigned which may be an id), a real number, or text of up to eight
/// characters. `None` where the kept bytes overflow the scratch buffer.
pub open spec fn spec_inner_field(f: Seq<u8>) -> Option<Result<FieldView, ErrorView>> {
    match inner_run(f) {
        InnerRun::Overflow => None,
        InnerRun::Fail(e) => Some(Err(e)),
        InnerRun::Done(s, out) => Some(
            match s {
                InnerState::Start => Ok(FieldView::Blank),
                InnerState::Int | InnerState::EndInt => if out.len() <= 8 {
                    Ok(FieldView::Int(signed_value(out)))
                } else {
                    Err(ErrorView::InvalidField)
                },
                InnerState::IntOrId | InnerState::EndIntOrId => if out.len() <= 8 {
                    Ok(FieldView::IntOrId(digits_value(out)))
                } else {
                    Err(ErrorView::InvalidField)
                },
                InnerState::FloatPeriod | InnerState::EndFloat
                | InnerState::FloatSignedExponentValue => Ok(FieldView::Float(padded(out, 16))),
                InnerState::EndDouble | InnerState::DoubleSignedExponentValue => Ok(
                    FieldView::Double(padded(out, 16)),
                ),
                InnerState::Alpha | InnerState::EndText => if out.len() > 8 {
                    Err(ErrorView::TextTooLong(out))
                } else {
                    Ok(FieldView::Text(padded(out, 8)))
                },
                _ => Err(ErrorView::InvalidField),
            },
        ),
    }
}

proof fn lemma_inner_run_stop(f: Seq<u8>, k: int)
    requires
        0 <= k <= f.len(),
    ensures
        !(inner_run(f.take(k)) is Done) ==> inner_run(f) == inner_run(f.take(k)),
    decreases f.len(),
{
    if k < f.len() {
        assert(f.drop_last().take(k) =~= f.take(k));
        lemma_inner_run_stop(f.drop_last(), k);
    } else {
        assert(f.take(k) =~= f);
    }
}

pub open spec fn all_digits(s: Seq<u8>) -> bool {
    forall|j: int| 0 <= j < s.len() ==> digit(#[trigger] s[j])
}

/// What the kept bytes look like in the integer states: an optional minus
/// sign and digits.
pub open spec fn inner_inv(s: InnerState, out: Seq<u8>) -> bool {
    match s {
        InnerState::Start => out.len() == 0,
        InnerState::PlusMinus => out.len() == 0 || out == seq![MINUS],
        InnerState::Int | InnerState::EndInt => out.len() >= 1 && if out[0] == MINUS {
            all_digits(out.drop_first())
        } else {
            all_digits(out)
        },
        InnerState::IntOrId | InnerState::EndIntOrId => all_digits(out),
        _ => true,
    }
}

proof fn lemma_inner_inv(f: Seq<u8>)
    ensures
        inner_run(f) matches InnerRun::Done(s, out) ==> inner_inv(s, out),
    decreases f.len(),
{
    if f.len() > 0 {
        lemma_inner_inv(f.drop_last());
        match inner_run(f.drop_last()) {
            InnerRun::Done(s, out) => {
                let c = f.last();
                match inner_step(s, c, out.len()) {
                    InnerStep::Go(s2, e) => {
                        let o2 = out + e;
                        if out.len() > 0 && o2[0] == MINUS {
                            assert(o2.drop_first() =~= out.drop_first() + e);
                        }
                    },
                    _ => {},
                }
            },
            _ => {},
        }
    }
}

/// What the automaton keeps for a byte: nothing, the byte, `E`, or `E` and
/// the byte.
pub enum Keep {
    Nothing,
    Byte,
    E,
    EAndByte,
}

pub open spec fn kept(k: Keep, c: u8) -> Seq<u8> {
    match k {
        Keep::Nothing => Seq::empty(),
        Keep::Byte => seq![c],
        Keep::E => seq![UPPER_E],
        Keep::EAndByte => seq![UPPER_E, c],
    }
}

/// One step of the data-field automaton, see [`inner_step`].
fn inner_step_exec(s: InnerState, c: u8, i: usize) -> (r: Result<(InnerState, Keep), Error>)
    ensures
        match r {
            Ok((t, k)) => inner_step(s, c, i as nat) == InnerStep::Go(t, kept(k, c)),
            Err(Error::EmbeddedSpace) => inner_step(s, c, i as nat) is EmbeddedSpace,
            Err(e) => inner_step(s, c, i as nat) is Unexpected && e == Error::UnexpectedChar(c),
        },
{
    let digit = is_digit(c);
    let sign = c == PLUS || c == MINUS;
    let unexpected = Err(Error::UnexpectedChar(c));
    match s {
        InnerState::Start => if c == SPACE {
            Ok((InnerState::Start, Keep::Nothing))
        } else if is_upper(c) {
            Ok((InnerState::Alpha, Keep::Byte))
        } else if c == PLUS {
            Ok((InnerState::PlusMinus, Keep::Nothing))
        } else if c == MINUS {
            Ok((InnerState::PlusMinus, Keep::Byte))
        } else if c == PERIOD {
            Ok((InnerState::Period, Keep::Byte))
        } else if digit {
            Ok((InnerState::IntOrId, Keep::Byte))
        } else {
            unexpected
        },
        InnerState::Int => if digit {
            Ok((InnerState::Int, Keep::Byte))
        } else if c == PERIOD {
            Ok((InnerState::FloatPeriod, Keep::Byte))
        } else if c == SPACE {
            Ok((InnerState::EndInt, Keep::Nothing))
        } else if c == UPPER_E {
            Ok((InnerState::FloatExponent, Keep::Byte))
        } else {
            unexpected
        },
        InnerState::IntOrId => if digit {
            Ok((InnerState::IntOrId, Keep::Byte))
        } else if c == PERIOD {
            Ok((InnerState::FloatPeriod, Keep::Byte))
        } else if c == SPACE {
            Ok((InnerState::EndIntOrId, Keep::Nothing))
        } else if c == UPPER_E {
            Ok((InnerState::FloatExponent, Keep::Byte))
        } else {
            unexpected
        },
        InnerState::PlusMinus => if digit {
            Ok((InnerState::Int, Keep::Byte))
        } else if c == PERIOD {
            Ok((InnerState::PlusMinusPeriod, Keep::Byte))
        } else {
            unexpected
        },
        InnerState::PlusMinusPeriod => if digit {
            Ok((InnerState::FloatPeriod, Keep::Byte))
        } else {
            unexpected
        },
        InnerState::Period => if digit {
            Ok((InnerState::FloatPeriod, Keep::Byte))
        } else {
            unexpected
        },
        InnerState::FloatPeriod => if digit {
            Ok((InnerState::FloatPeriod, Keep::Byte))
        } else if c == UPPER_D {
            Ok((InnerState::DoubleExponent, Keep::E))
        } else if c == UPPER_E {
            Ok((InnerState::FloatExponent, Keep::Byte))
        } else if sign {
            Ok((InnerState::FloatSignedExponent, Keep::EAndByte))
        } else if c == SPACE {
            Ok((InnerState::EndFloat, Keep::Nothing))
        } else {
            unexpected
        },
        InnerState::FloatExponent => if sign {
            Ok((InnerState::FloatSignedExponent, Keep::Byte))
        } else if digit {
            Ok((InnerState::FloatSignedExponentValue, Keep::Byte))
        } else {
            unexpected
        },
        InnerState::FloatSignedExponent => if digit {
            Ok((InnerState::FloatSignedExponentValue, Keep::Byte))
        } else {
            unexpected
        },
        InnerState::DoubleSignedExponent => if digit {
            Ok((InnerState::DoubleSignedExponentValue, Keep::Byte))
        } else {
            unexpected
        },
        InnerState::FloatSignedExponentValue => if digit {
            Ok((InnerState::FloatSignedExponentValue, Keep::Byte))
        } else if c == SPACE {
            Ok((InnerState::EndFloat, Keep::Nothing))
        } else {
            unexpected
        },
        InnerState::DoubleSignedExponentValue => if digit {
            Ok((InnerState::DoubleSignedExponentValue, Keep::Byte))
        } else if c == SPACE {
            Ok((InnerState::EndDouble, Keep::Nothing))
        } else {
            unexpected
        },
        InnerState::Alpha => if (is_upper(c) || digit) && i <= 7 {
            Ok((InnerState::Alpha, Keep::Byte))
        } else if c == SPACE {
            Ok((InnerState::EndText, Keep::Nothing))
        } else {
            unexpected
        },
        InnerState::EndInt => if c == SPACE {
            Ok((InnerState::EndInt, Keep::Nothing))
        } else {
            Err(Error::EmbeddedSpace)
        },
        InnerState::EndIntOrId => if c == SPACE {
            Ok((InnerState::EndIntOrId, Keep::Nothing))
        } else {
            unexpected
        },
        InnerState::EndFloat => if c == SPACE {
            Ok((InnerState::EndFloat, Keep::Nothing))
        } else {
            Err(Error::EmbeddedSpace)
        },
        InnerState::EndDouble => if c == SPACE {
            Ok((InnerState::EndDouble, Keep::Nothing))
        } else {
            Err(Error::EmbeddedSpace)
        },
        InnerState::EndText => if c == SPACE {
            Ok((InnerState::EndText, Keep::Nothing))
        } else {
            Err(Error::EmbeddedSpace)
        },
        InnerState::DoubleExponent => unexpected,
    }
}

pub open spec fn field_result(r: &Result<Field, Error>) -> Result<FieldView, ErrorView> {
    match r {
        Ok(f) => Ok(f@),
        Err(e) => Err(e@),
    }
}

/// Reads a data field, see [`spec_inner_field`].
/// `None` where the bytes it keeps overflow its sixteen byte scratch buffer.
pub fn parse_inner_field(field: &[u8]) -> (r: Option<Result<Field, Error>>)
    ensures
        r is None <==> spec_inner_field(field@) is None,
        r matches Some(x) ==> field_result(&x) == spec_inner_field(field@).unwrap(),
{
    let n = field.len();
    let mut state = InnerState::Start;
    let mut contents = [SPACE; 16];
    let mut i: usize = 0;
    let mut k: usize = 0;
    assert(field@.take(0) =~= Seq::<u8>::empty());
    assert(contents@.take(0) =~= Seq::<u8>::empty());
    while k < n
        invariant
            k <= n == field@.len(),
            i <= 16,
            inner_run(field@.take(k as int)) == InnerRun::Done(state, contents@.take(i as int)),
            forall|j: int| i <= j < 16 ==> contents@[j] == SPACE,
        decreases n - k,
    {
        let c = field[k];
        proof {
            assert(field@.take(k + 1).drop_last() =~= field@.take(k as int));
            assert(field@.take(k + 1).last() == c);
            assert(field@.take(n as int) =~= field@);
            lemma_inner_run_stop(field@, k + 1);
        }
        let (s, keep) = match inner_step_exec(state, c, i) {
            Ok(x) => x,
            Err(e) => return Some(Err(e)),
        };
        let need: usize = match keep {
            Keep::Nothing => 0,
            Keep::Byte => 1,
            Keep::E => 1,
            Keep::EAndByte => 2,
        };
        if i + need > 16 {
            assert(inner_run(field@.take(k + 1)) == InnerRun::Overflow);
            return None;
        }
        let ghost prev = contents@.take(i as int);
        state = s;
        match keep {
            Keep::Nothing => {
                assert(prev + Seq::<u8>::empty() =~= prev);
            },
            Keep::Byte => {
                contents[i] = c;
                i += 1;
                assert(contents@.take(i as int) =~= prev + seq![c]);
            },
            Keep::E => {
                contents[i] = UPPER_E;
                i += 1;
                assert(contents@.take(i as int) =~= prev + seq![UPPER_E]);
            },
            Keep::EAndByte => {
                contents[i] = UPPER_E;
                contents[i + 1] = c;
                i += 2;
                assert(contents@.take(i as int) =~= prev + seq![UPPER_E, c]);
            },
        }
        k += 1;
    }
    assert(field@.take(n as int) =~= field@);
    let ghost out = contents@.take(i as int);
    assert(contents@ =~= padded(out, 16));
    proof {
        lemma_inner_inv(field@);
    }
    let digits = vstd::array::array_as_slice(&contents);
    match state {
        InnerState::Start => Some(Ok(Field::Blank)),
        InnerState::Int | InnerState::EndInt => {
            if i <= 8 {
                if contents[0] == MINUS {
                    proof {
                        assert(out.drop_first() =~= contents@.subrange(1, i as int));
                        assert forall|j: int| 1 <= j < i implies digit(#[trigger] digits@[j]) by {
                            assert(digits@[j] == out.drop_first()[j - 1]);
                        }
                    }
                    let v = digits_to_i32(digits, 1, i);
                    Some(Ok(Field::Int(-v)))
                } else {
                    proof {
                        assert(out =~= contents@.subrange(0, i as int));
                        assert forall|j: int| 0 <= j < i implies digit(#[trigger] digits@[j]) by {
                            assert(digits@[j] == out[j]);
                        }
                    }
                    let v = digits_to_i32(digits, 0, i);
                    Some(Ok(Field::Int(v)))
                }
            } else {
                Some(Err(Error::InvalidField))
            }
        },
        InnerState::IntOrId | InnerState::EndIntOrId => {
            if i <= 8 {
                proof {
                    assert(out =~= contents@.subrange(0, i as int));
                    assert forall|j: int| 0 <= j < i implies digit(#[trigger] digits@[j]) by {
                        assert(digits@[j] == out[j]);
                    }
                }
                let v = digits_to_i32(digits, 0, i);
                Some(Ok(Field::IntOrId(v as u32)))
            } else {
                Some(Err(Error::InvalidField))
            }
        },
        InnerState::FloatPeriod | InnerState::EndFloat | InnerState::FloatSignedExponentValue => Some(
            Ok(Field::Float(contents)),
        ),
        InnerState::EndDouble | InnerState::DoubleSignedExponentValue => Some(
            Ok(Field::Double(contents)),
        ),
        InnerState::Alpha | InnerState::EndText => {
            if i > 8 {
                Some(Err(Error::TextTooLong(prefix_vec(&contents, i))))
            } else {
                let mut text = [SPACE; 8];
                let mut m: usize = 0;
                while m < 8
                    invariant
                        m <= 8,
                        forall|j: int| 0 <= j < m ==> text@[j] == contents@[j],
                    decreases 8 - m,
                {
                    text[m] = contents[m];
                    m += 1;
                }
                assert(text@ =~= padded(out, 8));
                Some(Ok(Field::Text(text)))
            }
        },
        _ => Some(Err(Error::InvalidField)),
    }
}

} // verus!
