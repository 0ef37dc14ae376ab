//! Single fields of a deck line: card names, continuation markers, integers
//! and real numbers in NASTRAN's relaxed notation.
use vstd::prelude::*;

use super::{Error, ErrorView};
use vstd::slice::slice_to_vec;
use crate::scan::{
    alnum, alpha, count_alphanumeric, count_digits, count_spaces, digit, is_alpha, is_numeric,
    is_plus_minus, lead, lemma_lead_bounds, lemma_trimmed, lemma_trimmed_first, trim_spaces, pad8, padded, plus_minus, space, trimmed, DIGIT_0,
    LOWER_D, LOWER_E, MINUS, PERIOD, PLUS, SPACE, STAR, UPPER_D, UPPER_E, decimal, digits_to_i32,
};

verus! {

/// A parsed field. A real number is kept as the text that Rust's float parser
/// reads (`e` for the exponent; a NASTRAN `d` exponent gives `Double`).
#[derive(Debug, PartialEq)]
pub enum Field {
    Blank,
    Int(i32),
    Float(Vec<u8>),
    Double(Vec<u8>),
    Continuation([u8; 8]),
    DoubleContinuation([u8; 8]),
    String([u8; 8]),
    DoubleString([u8; 8]),
}

/// The model of a [`Field`].
pub enum FieldView {
    Blank,
    Int(int),
    Float(Seq<u8>),
    Double(Seq<u8>),
    Continuation(Seq<u8>),
    DoubleContinuation(Seq<u8>),
    String(Seq<u8>),
    DoubleString(Seq<u8>),
}

impl View for Field {
    type V = FieldView;

    open spec fn view(&self) -> FieldView {
        match self {
            Field::Blank => FieldView::Blank,
            Field::Int(i) => FieldView::Int(*i as int),
            Field::Float(t) => FieldView::Float(t@),
            Field::Double(t) => FieldView::Double(t@),
            Field::Continuation(c) => FieldView::Continuation(c@),
            Field::DoubleContinuation(c) => FieldView::DoubleContinuation(c@),
            Field::String(s) => FieldView::String(s@),
            Field::DoubleString(s) => FieldView::DoubleString(s@),
        }
    }
}

pub type Parsed = Result<FieldView, ErrorView>;

pub open spec fn parsed(r: &Result<Field, Error>) -> Parsed {
    match r {
        Ok(f) => Ok(f@),
        Err(e) => Err(e@),
    }
}

pub open spec fn end_err(s: Seq<u8>) -> Parsed {
    Err(ErrorView::UnexpectedFieldEnd(s))
}

pub open spec fn char_err(s: Seq<u8>) -> Parsed {
    Err(ErrorView::UnexpectedCharInField(s))
}

/// A name of up to eight letters and digits starting with a letter; a
/// following `*` (after optional spaces, within the first eight columns)
/// marks the large-field form.
pub open spec fn spec_string(b: Seq<u8>) -> Parsed {
    let n = b.len();
    if n == 0 {
        end_err(b)
    } else if !alpha(b[0]) {
        char_err(b)
    } else {
        let j: int = lead(b.skip(1), |c: u8| alnum(c)) as int + 1;
        let i: int = j + lead(b.skip(j), |c: u8| space(c));
        if j > 8 {
            char_err(b)
        } else if i == n {
            Ok(FieldView::String(padded(b.take(j), 8)))
        } else if i < 8 && b[i] == STAR && i + 1 == n {
            Ok(FieldView::DoubleString(padded(b.take(j), 8)))
        } else {
            char_err(b)
        }
    }
}

/// The exponent part of a real number that starts at `i`. `None` where the
/// fixed scratch buffer used to rewrite the text would overflow.
pub open spec fn spec_exponent(b: Seq<u8>, i: int) -> Option<Parsed> {
    let n = b.len();
    if b[i] == LOWER_E || b[i] == UPPER_E || b[i] == LOWER_D || b[i] == UPPER_D {
        let i1 = i + 1;
        let signed = i1 < n && plus_minus(b[i1]);
        let i2 = if signed { i1 + 1 } else { i1 };
        let nd = lead(b.skip(i2), |c: u8| digit(c));
        if i1 == n || i2 == n {
            Some(end_err(b))
        } else if nd == 0 || i2 + nd != n {
            Some(char_err(b))
        } else if b[i] == LOWER_E || b[i] == UPPER_E {
            Some(Ok(FieldView::Float(b)))
        } else if n <= 80 {
            Some(Ok(FieldView::Double(b.update(i, LOWER_E))))
        } else {
            None
        }
    } else if plus_minus(b[i]) {
        let i1 = i + 1;
        let nd = lead(b.skip(i1), |c: u8| digit(c));
        if i1 == n {
            Some(end_err(b))
        } else if nd == 0 || i1 + nd != n {
            Some(char_err(b))
        } else if n + 1 <= 80 {
            Some(Ok(FieldView::Float(b.take(i) + seq![LOWER_E] + b.skip(i))))
        } else {
            None
        }
    } else {
        Some(char_err(b))
    }
}

/// An integer (at most eight characters with its sign) or a real number:
/// digits with an optional point, or a point and digits, then an optional
/// exponent written `e`, `d` or as a bare sign. `None` where the scratch
/// buffer would overflow.
pub open spec fn spec_number(b: Seq<u8>) -> Option<Parsed>
    recommends
        b.len() > 0,
{
    let n = b.len();
    let i0: int = if plus_minus(b[0]) { 1 } else { 0 };
    if i0 == n {
        Some(end_err(b))
    } else if digit(b[i0]) {
        let i1 = i0 + lead(b.skip(i0), |c: u8| digit(c));
        if i1 == n {
            if i1 <= 8 {
                Some(Ok(FieldView::Int(decimal(b))))
            } else {
                Some(char_err(b))
            }
        } else if b[i1] == PERIOD {
            let i2 = i1 + 1 + lead(b.skip(i1 + 1), |c: u8| digit(c));
            if i2 == n {
                Some(Ok(FieldView::Float(b)))
            } else {
                spec_exponent(b, i2)
            }
        } else {
            spec_exponent(b, i1)
        }
    } else if b[i0] == PERIOD {
        let nd = lead(b.skip(i0 + 1), |c: u8| digit(c));
        let i2 = i0 + 1 + nd;
        if nd == 0 {
            Some(char_err(b))
        } else if i2 == n {
            Some(Ok(FieldView::Float(b)))
        } else {
            spec_exponent(b, i2)
        }
    } else {
        Some(char_err(b))
    }
}

/// First field of a line: blank, a continuation marker (`+` or `*` and up to
/// seven characters) or a card name.
pub open spec fn spec_first_field(b: Seq<u8>) -> Parsed {
    let t = trimmed(b);
    if b.len() == 0 {
        Ok(FieldView::Blank)
    } else if b[0] == PLUS || b[0] == STAR {
        if t.len() <= 8 {
            if b[0] == PLUS {
                Ok(FieldView::Continuation(padded(t.skip(1), 8)))
            } else {
                Ok(FieldView::DoubleContinuation(padded(t.skip(1), 8)))
            }
        } else {
            char_err(t)
        }
    } else if t.len() == 0 {
        Ok(FieldView::Blank)
    } else if alpha(t[0]) {
        spec_string(t)
    } else {
        char_err(t)
    }
}

/// A field that starts a number: a sign, a digit or a point.
pub open spec fn number_start(c: u8) -> bool {
    plus_minus(c) || digit(c) || c == PERIOD
}

/// A data field: blank, a name or a number.
pub open spec fn spec_field(b: Seq<u8>) -> Option<Parsed> {
    let t = trimmed(b);
    if b.len() == 0 || t.len() == 0 {
        Some(Ok(FieldView::Blank))
    } else if alpha(t[0]) {
        Some(spec_string(t))
    } else if number_start(t[0]) {
        spec_number(t)
    } else {
        Some(char_err(t))
    }
}

/// Any field: like a data field, but a leading `+` not followed by a digit
/// or a point, or a leading `*`, is a continuation marker.
pub open spec fn spec_any_field(b: Seq<u8>) -> Option<Parsed> {
    let t = trimmed(b);
    if b.len() == 0 {
        Some(Ok(FieldView::Blank))
    } else if b[0] == PLUS {
        if t.len() > 1 && (digit(t[1]) || t[1] == PERIOD) {
            spec_number(t)
        } else if t.len() <= 8 {
            Some(Ok(FieldView::Continuation(padded(t.skip(1), 8))))
        } else {
            Some(char_err(t))
        }
    } else if b[0] == STAR {
        if t.len() <= 8 {
            Some(Ok(FieldView::DoubleContinuation(padded(t.skip(1), 8))))
        } else {
            Some(char_err(t))
        }
    } else {
        spec_field(b)
    }
}

/// The trailing continuation field of a line: empty, or `+`, `*` or a space
/// followed by the continuation name.
pub open spec fn spec_trailing_continuation(b: Seq<u8>) -> Result<Seq<u8>, ErrorView> {
    if b.len() > 8 {
        Err(ErrorView::UnexpectedFieldEnd(b))
    } else if b.len() == 0 {
        Ok(padded(Seq::empty(), 8))
    } else if b[0] == PLUS || b[0] == STAR || b[0] == SPACE {
        Ok(padded(b.skip(1), 8))
    } else {
        Err(ErrorView::UnexpectedCharInField(b))
    }
}

/// A trailing continuation field of at most eight bytes that starts with
/// `+`, `*` or a space names the continuation by the bytes after that first
/// byte, space padded to eight; one that starts otherwise is refused, and
/// so is one longer than eight bytes.
pub proof fn law_trailing_continuation(b: Seq<u8>)
    ensures
        1 <= b.len() <= 8 && (b[0] == PLUS || b[0] == STAR || b[0] == SPACE) ==> (
        spec_trailing_continuation(b) matches Ok(c) && c.len() == 8 && (forall|i: int|
            0 <= i < b.len() - 1 ==> c[i] == b[i + 1]) && (forall|i: int|
            b.len() - 1 <= i < 8 ==> c[i] == SPACE)),
        1 <= b.len() <= 8 && !(b[0] == PLUS || b[0] == STAR || b[0] == SPACE) ==> spec_trailing_continuation(
            b,
        ) is Err,
        b.len() > 8 ==> spec_trailing_continuation(b) is Err,
        b.len() == 0 ==> (spec_trailing_continuation(b) matches Ok(c) && c.len() == 8 && (forall|i: int|
            0 <= i < 8 ==> c[i] == SPACE)),
{
}

/// A name, see [`spec_string`].
pub fn maybe_string(buffer: &[u8]) -> (r: Result<Field, Error<'_>>)
    ensures
        parsed(&r) == spec_string(buffer@),
{
    let n = buffer.len();
    if n == 0 {
        return Err(Error::UnexpectedFieldEnd(buffer));
    }
    if !is_alpha(buffer[0]) {
        return Err(Error::UnexpectedCharInField(buffer));
    }
    let mut i: usize = 1;
    i += count_alphanumeric(buffer, i);
    if i > 8 {
        return Err(Error::UnexpectedCharInField(buffer));
    }
    let j = i;
    i += count_spaces(buffer, i);
    if i == n {
        let dst = pad8(buffer, 0, j);
        assert(buffer@.subrange(0, j as int) =~= buffer@.take(j as int));
        return Ok(Field::String(dst));
    }
    if i < 8 && buffer[i] == STAR {
        i += 1;
        if i == n {
            let dst = pad8(buffer, 0, j);
            assert(buffer@.subrange(0, j as int) =~= buffer@.take(j as int));
            return Ok(Field::DoubleString(dst));
        }
    }
    Err(Error::UnexpectedCharInField(buffer))
}

/// The exponent part of a number, see [`spec_exponent`].
fn number_exponent(buffer: &[u8], i: usize) -> (r: Option<Result<Field, Error<'_>>>)
    requires
        i < buffer@.len(),
    ensures
        r is None <==> spec_exponent(buffer@, i as int) is None,
        r matches Some(x) ==> parsed(&x) == spec_exponent(buffer@, i as int).unwrap(),
{
    let n = buffer.len();
    let c = buffer[i];
    if c == LOWER_E || c == UPPER_E || c == LOWER_D || c == UPPER_D {
        let mut k = i + 1;
        if k == n {
            return Some(Err(Error::UnexpectedFieldEnd(buffer)));
        }
        if is_plus_minus(buffer[k]) {
            k += 1;
            if k == n {
                return Some(Err(Error::UnexpectedFieldEnd(buffer)));
            }
        }
        let n_digits = count_digits(buffer, k);
        if n_digits == 0 || k + n_digits != n {
            return Some(Err(Error::UnexpectedCharInField(buffer)));
        }
        if (c == LOWER_D || c == UPPER_D) && n > 80 {
            return None;
        }
        let mut text = slice_to_vec(buffer);
        if c == LOWER_D || c == UPPER_D {
            text.set(i, LOWER_E);
            return Some(Ok(Field::Double(text)));
        }
        Some(Ok(Field::Float(text)))
    } else if is_plus_minus(c) {
        let k = i + 1;
        if k == n {
            return Some(Err(Error::UnexpectedFieldEnd(buffer)));
        }
        let n_digits = count_digits(buffer, k);
        if n_digits == 0 || k + n_digits != n {
            return Some(Err(Error::UnexpectedCharInField(buffer)));
        }
        if n >= 80 {
            return None;
        }
        let mut text: Vec<u8> = Vec::with_capacity(n + 1);
        let mut m: usize = 0;
        while m < n
            invariant
                i < n == buffer@.len(),
                m <= n,
                text@ =~= (buffer@.take(i as int) + seq![LOWER_E] + buffer@.skip(i as int)).take(
                    if m <= i { m as int } else { m + 1 },
                ),
            decreases n - m,
        {
            if m == i {
                text.push(LOWER_E);
            }
            text.push(buffer[m]);
            m += 1;
        }
        assert(text@ =~= buffer@.take(i as int) + seq![LOWER_E] + buffer@.skip(i as int));
        Some(Ok(Field::Float(text)))
    } else {
        Some(Err(Error::UnexpectedCharInField(buffer)))
    }
}

/// A number, see [`spec_number`]; `None` where the scratch buffer would
/// overflow.
pub fn maybe_number_checked(buffer: &[u8]) -> (r: Option<Result<Field, Error<'_>>>)
    requires
        buffer@.len() > 0,
    ensures
        r is None <==> spec_number(buffer@) is None,
        r matches Some(x) ==> parsed(&x) == spec_number(buffer@).unwrap(),
{
    let n = buffer.len();
    let mut i: usize = 0;
    if is_plus_minus(buffer[0]) {
        i += 1;
    }
    if i == n {
        return Some(Err(Error::UnexpectedFieldEnd(buffer)));
    }
    if is_numeric(buffer[i]) {
        let i0 = i;
        i += count_digits(buffer, i);
        if i == n {
            if i <= 8 {
                proof {
                    lemma_lead_bounds(buffer@.skip(i0 as int), |c: u8| digit(c));
                    assert forall|j: int| i0 <= j < n implies digit(#[trigger] buffer@[j]) by {
                        assert(buffer@.skip(i0 as int)[j - i0] == buffer@[j]);
                    }
                }
                let v = digits_to_i32(buffer, i0, n);
                proof {
                    if i0 == 1 {
                        assert(buffer@.drop_first() =~= buffer@.subrange(1, n as int));
                    } else {
                        assert(buffer@ =~= buffer@.subrange(0, n as int));
                    }
                }
                if buffer[0] == MINUS {
                    return Some(Ok(Field::Int(-v)));
                }
                return Some(Ok(Field::Int(v)));
            } else {
                return Some(Err(Error::UnexpectedCharInField(buffer)));
            }
        } else if buffer[i] == PERIOD {
            i += 1;
            i += count_digits(buffer, i);
            if i == n {
                return Some(Ok(Field::Float(slice_to_vec(buffer))));
            }
        }
        number_exponent(buffer, i)
    } else if buffer[i] == PERIOD {
        i += 1;
        let n_digits = count_digits(buffer, i);
        if n_digits == 0 {
            return Some(Err(Error::UnexpectedCharInField(buffer)));
        }
        i += n_digits;
        if i == n {
            return Some(Ok(Field::Float(slice_to_vec(buffer))));
        }
        number_exponent(buffer, i)
    } else {
        Some(Err(Error::UnexpectedCharInField(buffer)))
    }
}

/// A number, see [`spec_number`].
pub fn maybe_number(buffer: &[u8]) -> (r: Result<Field, Error<'_>>)
    requires
        buffer@.len() > 0,
        spec_number(buffer@) is Some,
    ensures
        parsed(&r) == spec_number(buffer@).unwrap(),
{
    match maybe_number_checked(buffer) {
        Some(r) => r,
        None => Err(Error::ParseFailure),
    }
}

/// The first field of a line, see [`spec_first_field`].
pub fn maybe_first_field(buffer: &[u8]) -> (r: Result<Field, Error<'_>>)
    ensures
        parsed(&r) == spec_first_field(buffer@),
{
    let n = buffer.len();
    if n == 0 {
        return Ok(Field::Blank);
    }
    if buffer[0] == PLUS || buffer[0] == STAR {
        let first = buffer[0];
        let t = trim_spaces(buffer);
        proof {
            lemma_trimmed_first(buffer@);
        }
        let m = t.len();
        if m <= 8 {
            let dst = pad8(t, 1, m);
            assert(t@.subrange(1, m as int) =~= t@.skip(1));
            if first == PLUS {
                return Ok(Field::Continuation(dst));
            } else {
                return Ok(Field::DoubleContinuation(dst));
            }
        } else {
            return Err(Error::UnexpectedCharInField(t));
        }
    }
    let t = trim_spaces(buffer);
    if t.len() == 0 {
        return Ok(Field::Blank);
    }
    if is_alpha(t[0]) {
        maybe_string(t)
    } else {
        Err(Error::UnexpectedCharInField(t))
    }
}

/// The continuation at the end of a line, see [`spec_trailing_continuation`].
pub fn trailing_continuation(buffer: &[u8]) -> (r: Result<[u8; 8], Error<'_>>)
    ensures
        match r {
            Ok(c) => spec_trailing_continuation(buffer@) == Ok::<Seq<u8>, ErrorView>(c@),
            Err(e) => spec_trailing_continuation(buffer@) == Err::<Seq<u8>, ErrorView>(e@),
        },
{
    let n = buffer.len();
    if n > 8 {
        return Err(Error::UnexpectedFieldEnd(buffer));
    }
    if n == 0 {
        let dst = [SPACE; 8];
        assert(dst@ =~= padded(Seq::empty(), 8));
        return Ok(dst);
    }
    if !(buffer[0] == PLUS || buffer[0] == STAR || buffer[0] == SPACE) {
        return Err(Error::UnexpectedCharInField(buffer));
    }
    let dst = pad8(buffer, 1, n);
    assert(buffer@.subrange(1, n as int) =~= buffer@.skip(1));
    Ok(dst)
}

/// Whether a byte can start a number.
fn is_number_start(c: u8) -> (r: bool)
    ensures
        r == number_start(c),
{
    is_plus_minus(c) || is_numeric(c) || c == PERIOD
}

/// A data field, see [`spec_field`]; `None` where a number's scratch buffer
/// would overflow.
pub fn maybe_field_checked(buffer: &[u8]) -> (r: Option<Result<Field, Error<'_>>>)
    ensures
        r is None <==> spec_field(buffer@) is None,
        r matches Some(x) ==> parsed(&x) == spec_field(buffer@).unwrap(),
{
    let n = buffer.len();
    if n == 0 {
        return Some(Ok(Field::Blank));
    }
    let t = trim_spaces(buffer);
    if t.len() == 0 {
        return Some(Ok(Field::Blank));
    }
    if is_alpha(t[0]) {
        Some(maybe_string(t))
    } else if is_number_start(t[0]) {
        maybe_number_checked(t)
    } else {
        Some(Err(Error::UnexpectedCharInField(t)))
    }
}

/// A data field, see [`spec_field`].
pub fn maybe_field(buffer: &[u8]) -> (r: Result<Field, Error<'_>>)
    requires
        spec_field(buffer@) is Some,
    ensures
        parsed(&r) == spec_field(buffer@).unwrap(),
{
    match maybe_field_checked(buffer) {
        Some(r) => r,
        None => Err(Error::ParseFailure),
    }
}

/// Any field, see [`spec_any_field`]; `None` where a number's scratch
/// buffer would overflow.
pub fn maybe_any_field_checked(buffer: &[u8]) -> (r: Option<Result<Field, Error<'_>>>)
    ensures
        r is None <==> spec_any_field(buffer@) is None,
        r matches Some(x) ==> parsed(&x) == spec_any_field(buffer@).unwrap(),
{
    let n = buffer.len();
    if n == 0 {
        return Some(Ok(Field::Blank));
    }
    if buffer[0] == PLUS {
        let t = trim_spaces(buffer);
        proof {
            lemma_trimmed_first(buffer@);
        }
        let m = t.len();
        if m > 1 && (is_numeric(t[1]) || t[1] == PERIOD) {
            return maybe_number_checked(t);
        } else if m <= 8 {
            let dst = pad8(t, 1, m);
            assert(t@.subrange(1, m as int) =~= t@.skip(1));
            return Some(Ok(Field::Continuation(dst)));
        } else {
            return Some(Err(Error::UnexpectedCharInField(t)));
        }
    } else if buffer[0] == STAR {
        let t = trim_spaces(buffer);
        proof {
            lemma_trimmed_first(buffer@);
        }
        let m = t.len();
        if m <= 8 {
            let dst = pad8(t, 1, m);
            assert(t@.subrange(1, m as int) =~= t@.skip(1));
            return Some(Ok(Field::DoubleContinuation(dst)));
        } else {
            return Some(Err(Error::UnexpectedCharInField(t)));
        }
    }
    maybe_field_checked(buffer)
}

/// Any field, see [`spec_any_field`].
pub fn maybe_any_field(buffer: &[u8]) -> (r: Result<Field, Error<'_>>)
    requires
        spec_any_field(buffer@) is Some,
    ensures
        parsed(&r) == spec_any_field(buffer@).unwrap(),
{
    match maybe_any_field_checked(buffer) {
        Some(r) => r,
        None => Err(Error::ParseFailure),
    }
}

/// A number shorter than the scratch buffer never overflows it.


/// Any field shorter than the scratch buffer never overflows it.
pub proof fn lemma_short_any_field_fits(b: Seq<u8>)
    requires
        b.len() < 80,
    ensures
        spec_any_field(b) is Some,
{
    crate::scan::lemma_trimmed(b);
    lemma_short_field_fits(b);
}

/// A field shorter than the scratch buffer never overflows it.
pub proof fn lemma_short_field_fits(b: Seq<u8>)
    requires
        b.len() < 80,
    ensures
        spec_field(b) is Some,
{
    crate::scan::lemma_trimmed(b);
}

} // verus!
