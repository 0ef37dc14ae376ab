//! Lines of a deck and the deck itself: splitting a line into fields in the
//! small-field, large-field and comma forms, reading the executive header,
//! and gathering continuation lines into their cards.
use vstd::prelude::*;

use super::card::{fields_view, merged, Card, CardView};
use super::field::{
    spec_string,
    lemma_short_any_field_fits, lemma_short_field_fits, maybe_any_field_checked, maybe_field, maybe_field_checked, maybe_first_field, parsed, spec_any_field, spec_field,
    spec_first_field, spec_trailing_continuation, trailing_continuation, Field, FieldView,
};
use super::{Error, ErrorView};
use crate::scan::{lead, lemma_lead, lemma_lead_bounds, padded, space, COMMA, CR, DOLLAR, LF, SPACE, TAB};
use std::collections::HashMap;

verus! {

/// Eight spaces: the name of an absent continuation.
pub open spec fn blank8() -> Seq<u8> {
    padded(Seq::empty(), 8)
}

pub open spec fn not_dollar(c: u8) -> bool {
    c != DOLLAR
}

pub open spec fn min(a: int, b: int) -> int {
    if a <= b {
        a
    } else {
        b
    }
}

/// Where the comment of a line starts: at the first `$`, or after column 80.
pub open spec fn comment_start(b: Seq<u8>) -> int {
    min(80, lead(b, |c: u8| not_dollar(c)) as int)
}

pub open spec fn opt_seq(s: Seq<u8>) -> Option<Seq<u8>> {
    if s.len() > 0 {
        Some(s)
    } else {
        None
    }
}

/// Splits a line into its contents and its comment.
pub fn split_line(buffer: &[u8]) -> (r: (&[u8], &[u8]))
    ensures
        r.0@ == buffer@.take(comment_start(buffer@)),
        r.1@ == buffer@.skip(comment_start(buffer@)),
{
    let n = buffer.len();
    let mut i: usize = 0;
    while i < n && buffer[i] != DOLLAR
        invariant
            i <= n == buffer@.len(),
            forall|j: int| 0 <= j < i ==> not_dollar(#[trigger] buffer@[j]),
        decreases n - i,
    {
        i += 1;
    }
    proof {
        lemma_lead(buffer@, |c: u8| not_dollar(c), i as int);
    }
    let k = if i < 80 { i } else { 80 };
    (&buffer[0..k], &buffer[k..n])
}

/// `None` for an empty slice.
pub fn option_from_slice(sl: &[u8]) -> (r: Option<&[u8]>)
    ensures
        match r {
            Some(s) => s@ == sl@ && sl@.len() > 0,
            None => sl@.len() == 0,
        },
{
    if sl.len() > 0 {
        Some(sl)
    } else {
        None
    }
}

pub open spec fn not_sep(c: u8) -> bool {
    c != COMMA && c != TAB
}

/// Where the first field of a line ends, whether the line is in comma form,
/// and whether a separator follows the first field.
pub open spec fn first_split(line: Seq<u8>) -> (int, bool, bool) {
    let size = min(line.len() as int, 8);
    let k = lead(line.take(size), |c: u8| not_sep(c)) as int;
    if k < size {
        (k, line[k] == COMMA, true)
    } else if line.len() > 8 && line[8] == COMMA {
        (size, true, true)
    } else {
        (size, false, false)
    }
}

/// What follows the first field and its separator.
pub open spec fn after_first(line: Seq<u8>) -> Seq<u8> {
    let (e, _c, consume) = first_split(line);
    line.skip(if consume { e + 1 } else { e })
}

/// The first field of a line with what follows it.
pub struct FirstField<'a> {
    pub field: Field,
    pub is_comma: bool,
    pub remainder: &'a [u8],
}

/// Reads the first field of a line (at most eight columns, ended early by a
/// comma or a tab).
pub fn read_first_field(line: &[u8]) -> (r: Result<FirstField<'_>, Error<'_>>)
    ensures
        match r {
            Ok(ff) => spec_first_field(line@.take(first_split(line@).0)) == Ok::<
                FieldView,
                ErrorView,
            >(ff.field@) && ff.is_comma == first_split(line@).1 && ff.remainder@ == after_first(
                line@,
            ),
            Err(e) => spec_first_field(line@.take(first_split(line@).0)) == Err::<
                FieldView,
                ErrorView,
            >(e@),
        },
{
    let length = line.len();
    let size = if length < 8 {
        length
    } else {
        8
    };
    let mut i: usize = 0;
    while i < size && line[i] != COMMA && line[i] != TAB
        invariant
            i <= size <= length == line@.len(),
            size <= 8,
            forall|j: int| 0 <= j < i ==> not_sep(#[trigger] line@.take(size as int)[j]),
        decreases size - i,
    {
        i += 1;
    }
    proof {
        lemma_lead(line@.take(size as int), |c: u8| not_sep(c), i as int);
    }
    let mut is_comma = false;
    let mut consume_next = false;
    let mut i_end = size;
    if i < size {
        is_comma = line[i] == COMMA;
        consume_next = true;
        i_end = i;
    } else if length > 8 && line[8] == COMMA {
        is_comma = true;
        consume_next = true;
    }
    let field_buffer = &line[0..i_end];
    let remainder = if consume_next {
        &line[i_end + 1..length]
    } else {
        &line[i_end..length]
    };
    match maybe_first_field(field_buffer) {
        Ok(field) => Ok(FirstField { field, is_comma, remainder }),
        Err(e) => Err(e),
    }
}

pub open spec fn not_tab(c: u8) -> bool {
    c != TAB
}

/// The next field of width `w`, ended early by a tab, and what follows.
pub open spec fn slice_of(b: Seq<u8>, w: int) -> Option<(Seq<u8>, Seq<u8>)> {
    if b.len() == 0 {
        None
    } else {
        let n = min(b.len() as int, w);
        let j = lead(b.take(n), |c: u8| not_tab(c)) as int;
        if j < n {
            Some((b.take(j), b.skip(j + 1)))
        } else {
            Some((b.take(n), b.skip(n)))
        }
    }
}

fn get_slice(buffer: &[u8], width: usize) -> (r: Option<(&[u8], &[u8])>)
    ensures
        match r {
            Some((a, b)) => slice_of(buffer@, width as int) == Some((a@, b@)),
            None => slice_of(buffer@, width as int) is None,
        },
{
    let len = buffer.len();
    if len == 0 {
        return None;
    }
    let n = if len < width {
        len
    } else {
        width
    };
    let mut j: usize = 0;
    while j < n && buffer[j] != TAB
        invariant
            j <= n <= len == buffer@.len(),
            forall|k: int| 0 <= k < j ==> not_tab(#[trigger] buffer@.take(n as int)[k]),
        decreases n - j,
    {
        j += 1;
    }
    proof {
        lemma_lead(buffer@.take(n as int), |c: u8| not_tab(c), j as int);
    }
    if j < n {
        Some((&buffer[0..j], &buffer[j + 1..len]))
    } else {
        Some((&buffer[0..n], &buffer[n..len]))
    }
}

/// The next small (eight column) field and what follows it.
pub fn get_short_slice(buffer: &[u8]) -> (r: Option<(&[u8], &[u8])>)
    ensures
        match r {
            Some((a, b)) => slice_of(buffer@, 8) == Some((a@, b@)),
            None => slice_of(buffer@, 8) is None,
        },
{
    get_slice(buffer, 8)
}

/// The next large (sixteen column) field and what follows it.
pub fn get_long_slice(buffer: &[u8]) -> (r: Option<(&[u8], &[u8])>)
    ensures
        match r {
            Some((a, b)) => slice_of(buffer@, 16) == Some((a@, b@)),
            None => slice_of(buffer@, 16) is None,
        },
{
    get_slice(buffer, 16)
}

/// Fields of a line and what is left of it.
pub type FieldsRest = Result<(Seq<FieldView>, Seq<u8>), ErrorView>;

/// `k` fields of width `w` read from `rem`; blanks once the line is used up.
pub open spec fn fixed_fields(rem: Seq<u8>, w: int, k: nat) -> Option<FieldsRest>
    decreases k,
{
    if k == 0 {
        Some(Ok((Seq::empty(), rem)))
    } else {
        match slice_of(rem, w) {
            None => prepend(FieldView::Blank, fixed_fields(rem, w, (k - 1) as nat)),
            Some((sl, r)) => match spec_field(sl) {
                None => None,
                Some(Err(e)) => Some(Err(e)),
                Some(Ok(f)) => prepend(f, fixed_fields(r, w, (k - 1) as nat)),
            },
        }
    }
}

/// Fields of at most sixteen columns never overflow the field reader.
pub proof fn lemma_fixed_fields_fit(rem: Seq<u8>, w: int, k: nat)
    requires
        0 < w <= 16,
    ensures
        fixed_fields(rem, w, k) is Some,
    decreases k,
{
    if k > 0 {
        match slice_of(rem, w) {
            None => lemma_fixed_fields_fit(rem, w, (k - 1) as nat),
            Some((sl, r)) => {
                lemma_short_field_fits(sl);
                lemma_fixed_fields_fit(r, w, (k - 1) as nat);
            },
        }
    }
}

pub open spec fn prepend(f: FieldView, o: Option<FieldsRest>) -> Option<FieldsRest> {
    match o {
        Some(Ok((fs, r))) => Some(Ok((seq![f] + fs, r))),
        other => other,
    }
}

/// `acc` followed by the fields of `o`.
pub open spec fn prefixed(acc: Seq<FieldView>, o: Option<FieldsRest>) -> Option<FieldsRest> {
    match o {
        Some(Ok((fs, r))) => Some(Ok((acc + fs, r))),
        other => other,
    }
}

/// The next comma-separated piece and, unless it was the last, the rest.
pub open spec fn next_piece(r: Seq<u8>) -> (Seq<u8>, Option<Seq<u8>>) {
    let k = lead(r, |c: u8| c != COMMA) as int;
    if k < r.len() {
        (r.take(k), Some(r.skip(k + 1)))
    } else {
        (r, None)
    }
}

pub open spec fn rest_measure(r: Option<Seq<u8>>) -> nat {
    match r {
        Some(s) => s.len() + 1,
        None => 0,
    }
}

/// Blank fields that complete a group of eight.
pub open spec fn blanks(n: nat) -> Seq<FieldView> {
    Seq::new(n, |_i: int| FieldView::Blank)
}

/// Fields and trailing continuation of a comma line.
pub type CommaFields = Result<(Seq<FieldView>, Seq<u8>), ErrorView>;

pub open spec fn is_cont(f: FieldView) -> bool {
    f is Continuation || f is DoubleContinuation
}

pub open spec fn cont_name(f: FieldView) -> Seq<u8> {
    match f {
        FieldView::Continuation(c) => c,
        FieldView::DoubleContinuation(c) => c,
        _ => Seq::empty(),
    }
}

/// The data fields of a comma line, given the pieces still to read and how
/// many fields the current group of eight holds. After eight fields, a
/// continuation marker followed by another ends the group in the middle of
/// the line; one at the end of the line names the card's continuation.
pub open spec fn comma_fields(rest: Option<Seq<u8>>, count: nat, acc: Seq<FieldView>) -> Option<
    CommaFields,
>
    decreases rest_measure(rest),
{
    match rest {
        None => if count <= 8 {
            Some(Ok((acc + blanks((8 - count) as nat), blank8())))
        } else {
            Some(Ok((acc, blank8())))
        },
        Some(r) => {
            let (p, r2) = next_piece(r);
            if count == 8 {
                match spec_any_field(p) {
                    None => None,
                    Some(Err(e)) => Some(Err(e)),
                    Some(Ok(f)) => if is_cont(f) {
                        match r2 {
                            None => Some(Ok((acc, cont_name(f)))),
                            Some(r3) => {
                                let (p2, r4) = next_piece(r3);
                                match spec_any_field(p2) {
                                    None => None,
                                    Some(Err(e)) => Some(Err(e)),
                                    Some(Ok(g)) => if is_cont(g) {
                                        comma_fields(r4, 0, acc)
                                    } else {
                                        Some(
                                            Err(ErrorView::UnexpectedContinuation(cont_name(f))),
                                        )
                                    },
                                }
                            },
                        }
                    } else {
                        comma_fields(r2, 1, acc.push(f))
                    },
                }
            } else {
                match spec_field(p) {
                    None => None,
                    Some(Err(e)) => Some(Err(e)),
                    Some(Ok(f)) => comma_fields(r2, count + 1, acc.push(f)),
                }
            }
        },
    }
}

/// The fields of less than eighty columns of a comma line never overflow
/// the field reader.
pub proof fn lemma_comma_fields_fit(rest: Option<Seq<u8>>, count: nat, acc: Seq<FieldView>)
    requires
        rest matches Some(r) ==> r.len() < 80,
    ensures
        comma_fields(rest, count, acc) is Some,
    decreases rest_measure(rest),
{
    if let Some(r) = rest {
        let (p, r2) = next_piece(r);
        let k = lead(r, |c: u8| c != COMMA);
        crate::scan::lemma_lead_bounds(r, |c: u8| c != COMMA);
        lemma_short_field_fits(p);
        lemma_short_any_field_fits(p);
        if count == 8 {
            if let Some(Ok(f)) = spec_any_field(p) {
                if is_cont(f) {
                    if let Some(r3) = r2 {
                        let (p2, r4) = next_piece(r3);
                        crate::scan::lemma_lead_bounds(r3, |c: u8| c != COMMA);
                        lemma_short_any_field_fits(p2);
                        if let Some(Ok(g)) = spec_any_field(p2) {
                            if is_cont(g) {
                                lemma_comma_fields_fit(r4, 0, acc);
                            }
                        }
                    }
                } else {
                    lemma_comma_fields_fit(r2, 1, acc.push(f));
                }
            }
        } else if let Some(Ok(f)) = spec_field(p) {
            lemma_comma_fields_fit(r2, count + 1, acc.push(f));
        }
    }
}

proof fn lemma_prefixed_prepend(acc: Seq<FieldView>, f: FieldView, o: Option<FieldsRest>)
    ensures
        prefixed(acc, prepend(f, o)) == prefixed(acc.push(f), o),
{
    match o {
        Some(Ok((fs, r))) => {
            assert(acc + (seq![f] + fs) =~= acc.push(f) + fs);
        },
        _ => {},
    }
}

/// Reads `count` fields of width `width` into `fields`; returns what is left
/// of the line.
fn read_fixed_fields<'a>(
    remainder: &'a [u8],
    width: usize,
    count: usize,
    fields: &mut Vec<Field>,
) -> (r: Result<&'a [u8], Error<'a>>)
    requires
        fixed_fields(remainder@, width as int, count as nat) is Some,
    ensures
        match r {
            Ok(rest) => prefixed(
                fields_view(old(fields)@),
                fixed_fields(remainder@, width as int, count as nat),
            ) == Some(Ok::<(Seq<FieldView>, Seq<u8>), ErrorView>((fields_view(final(fields)@), rest@))),
            Err(e) => fixed_fields(remainder@, width as int, count as nat) == Some(
                Err::<(Seq<FieldView>, Seq<u8>), ErrorView>(e@),
            ),
        },
{
    let ghost target = prefixed(
        fields_view(fields@),
        fixed_fields(remainder@, width as int, count as nat),
    );
    let mut rest = remainder;
    let mut i: usize = 0;
    while i < count
        invariant
            i <= count,
            fixed_fields(remainder@, width as int, count as nat) is Some,
            target == prefixed(
                fields_view(old(fields)@),
                fixed_fields(remainder@, width as int, count as nat),
            ),
            prefixed(fields_view(fields@), fixed_fields(rest@, width as int, (count - i) as nat))
                == target,
            fixed_fields(rest@, width as int, (count - i) as nat) is Some,
            forall|e: ErrorView|
                fixed_fields(rest@, width as int, (count - i) as nat) == Some(
                    Err::<(Seq<FieldView>, Seq<u8>), ErrorView>(e),
                ) ==> fixed_fields(remainder@, width as int, count as nat) == Some(
                    Err::<(Seq<FieldView>, Seq<u8>), ErrorView>(e),
                ),
        decreases count - i,
    {
        let ghost k = (count - i) as nat;
        let ghost fv = fields_view(fields@);
        match get_slice(rest, width) {
            Some((sl, r)) => {
                let f = maybe_field(sl)?;
                proof {
                    lemma_prefixed_prepend(fv, f@, fixed_fields(r@, width as int, (k - 1) as nat));
                    assert(fields_view(fields@.push(f)) =~= fv.push(f@));
                }
                fields.push(f);
                rest = r;
            },
            None => {
                proof {
                    lemma_prefixed_prepend(
                        fv,
                        FieldView::Blank,
                        fixed_fields(rest@, width as int, (k - 1) as nat),
                    );
                    assert(fields_view(fields@.push(Field::Blank)) =~= fv.push(FieldView::Blank));
                }
                fields.push(Field::Blank);
            },
        }
        i += 1;
    }
    proof {
        assert(fields_view(fields@) + Seq::<FieldView>::empty() =~= fields_view(fields@));
    }
    Ok(rest)
}

pub open spec fn rest_view(buf: Seq<u8>, pos: Option<usize>) -> Option<Seq<u8>> {
    match pos {
        Some(p) => Some(buf.skip(p as int)),
        None => None,
    }
}

/// The comma-separated piece that starts at `pos` (its end) and where the
/// next one starts, unless it was the last.
fn piece_at(buf: &[u8], pos: usize) -> (r: (usize, Option<usize>))
    requires
        pos <= buf@.len(),
    ensures
        pos <= r.0 <= buf@.len(),
        next_piece(buf@.skip(pos as int)).0 == buf@.subrange(pos as int, r.0 as int),
        rest_view(buf@, r.1) == next_piece(buf@.skip(pos as int)).1,
        match r.1 {
            Some(q) => pos < q <= buf@.len(),
            None => true,
        },
{
    let n = buf.len();
    let mut k = pos;
    while k < n && buf[k] != COMMA
        invariant
            pos <= k <= n == buf@.len(),
            forall|j: int| 0 <= j < k - pos ==> #[trigger] buf@.skip(pos as int)[j] != COMMA,
        decreases n - k,
    {
        k += 1;
    }
    proof {
        lemma_lead(buf@.skip(pos as int), |c: u8| c != COMMA, (k - pos) as int);
        assert(buf@.skip(pos as int).take((k - pos) as int) =~= buf@.subrange(pos as int, k as int));
        if k < n {
            assert(buf@.skip(pos as int).skip((k - pos + 1) as int) =~= buf@.skip(k + 1));
        }
        assert(buf@.skip(pos as int) =~= buf@.subrange(pos as int, n as int));
    }
    if k < n {
        (k, Some(k + 1))
    } else {
        (k, None)
    }
}

/// Reads the data fields of a comma line into `fields`; returns the name of
/// the trailing continuation.
/// `None` where a number would overflow the field reader.
fn read_comma_fields<'a>(remainder: &'a [u8], fields: &mut Vec<Field>) -> (r: Option<
    Result<[u8; 8], Error<'a>>,
>)
    ensures
        match r {
            None => comma_fields(Some(remainder@), 0, fields_view(old(fields)@)) is None,
            Some(Ok(c)) => comma_fields(Some(remainder@), 0, fields_view(old(fields)@)) == Some(
                Ok::<(Seq<FieldView>, Seq<u8>), ErrorView>((fields_view(final(fields)@), c@)),
            ),
            Some(Err(e)) => comma_fields(Some(remainder@), 0, fields_view(old(fields)@)) == Some(
                Err::<(Seq<FieldView>, Seq<u8>), ErrorView>(e@),
            ),
        },
{
    let ghost target = comma_fields(Some(remainder@), 0, fields_view(fields@));
    let mut pos: Option<usize> = Some(0);
    let mut count: usize = 0;
    assert(remainder@.skip(0) =~= remainder@);
    loop
        invariant_except_break
            count <= 8,
            match pos {
                Some(p) => p <= remainder@.len(),
                None => true,
            },
            comma_fields(rest_view(remainder@, pos), count as nat, fields_view(fields@)) == target,
            target == comma_fields(Some(remainder@), 0, fields_view(old(fields)@)),
        ensures
            pos is None,
            count <= 8,
            comma_fields(None, count as nat, fields_view(fields@)) == target,
        decreases rest_measure(rest_view(remainder@, pos)),
    {
        let p = match pos {
            Some(p) => p,
            None => break,
        };
        let (end, next) = piece_at(remainder, p);
        let sl = &remainder[p..end];
        let ghost fv = fields_view(fields@);
        assert(rest_view(remainder@, pos) == Some(remainder@.skip(p as int)));
        assert(sl@ == next_piece(remainder@.skip(p as int)).0);
        if count == 8 {
            let f = match maybe_any_field_checked(sl) {
                None => return None,
                Some(Ok(f)) => f,
                Some(Err(e)) => return Some(Err(e)),
            };
            let c = match &f {
                Field::Continuation(c) => Some(*c),
                Field::DoubleContinuation(c) => Some(*c),
                _ => None,
            };
            match c {
                Some(c) => {
                    match next {
                        None => {
                            return Some(Ok(c));
                        },
                        Some(q) => {
                            let (end2, next2) = piece_at(remainder, q);
                            let g = match maybe_any_field_checked(&remainder[q..end2]) {
                                None => return None,
                                Some(Ok(g)) => g,
                                Some(Err(e)) => return Some(Err(e)),
                            };
                            match g {
                                Field::Continuation(_) | Field::DoubleContinuation(_) => {
                                    count = 0;
                                    pos = next2;
                                },
                                _ => {
                                    return Some(Err(Error::UnexpectedContinuation(c)));
                                },
                            }
                        },
                    }
                },
                None => {
                    proof {
                        assert(fields_view(fields@.push(f)) =~= fv.push(f@));
                    }
                    fields.push(f);
                    count = 1;
                    pos = next;
                },
            }
        } else {
            let f = match maybe_field_checked(sl) {
                None => return None,
                Some(Ok(f)) => f,
                Some(Err(e)) => return Some(Err(e)),
            };
            proof {
                assert(fields_view(fields@.push(f)) =~= fv.push(f@));
            }
            fields.push(f);
            count += 1;
            pos = next;
        }
    }
    let ghost fv0 = fields_view(fields@);
    let ghost c0 = count;
    while count < 8
        invariant
            c0 <= count <= 8,
            fields_view(fields@) =~= fv0 + blanks((count - c0) as nat),
        decreases 8 - count,
    {
        proof {
            assert(fields_view(fields@.push(Field::Blank)) =~= fields_view(fields@).push(
                FieldView::Blank,
            ));
        }
        fields.push(Field::Blank);
        count += 1;
    }
    let dst = [SPACE; 8];
    assert(dst@ =~= blank8());
    Some(Ok(dst))
}

pub open spec fn is_double_first(f: FieldView) -> bool {
    f is DoubleContinuation || f is DoubleString
}

/// Fields, trailing continuation and unparsed rest of a line.
pub type LineBody = Result<(Seq<FieldView>, Seq<u8>, Seq<u8>), ErrorView>;

/// The part of a line after its first field: comma separated, four large
/// fields, or eight small fields; the latter two followed by a trailing
/// continuation field and any leftover text.
pub open spec fn line_body(rem: Seq<u8>, is_comma: bool, is_double: bool) -> Option<LineBody> {
    if is_comma {
        match comma_fields(Some(rem), 0, Seq::empty()) {
            None => None,
            Some(Err(e)) => Some(Err(e)),
            Some(Ok((fs, c))) => Some(Ok((fs, c, Seq::empty()))),
        }
    } else {
        let w: int = if is_double { 16 } else { 8 };
        let k: nat = if is_double { 4 } else { 8 };
        match fixed_fields(rem, w, k) {
            None => None,
            Some(Err(e)) => Some(Err(e)),
            Some(Ok((fs, r))) => match slice_of(r, 8) {
                None => Some(Ok((fs, blank8(), r))),
                Some((sl, r2)) => match spec_trailing_continuation(sl) {
                    Ok(c) => Some(Ok((fs, c, r2))),
                    Err(e) => Some(Err(e)),
                },
            },
        }
    }
}

pub open spec fn all_blank(fs: Seq<FieldView>) -> bool {
    forall|i: int| 0 <= i < fs.len() ==> fs[i] is Blank
}

/// A line without card data: only a comment, or blank fields.
pub open spec fn empty_card(comment: Seq<u8>, unparsed: Seq<u8>) -> CardView {
    CardView {
        first: None,
        fields: Seq::empty(),
        continuation: blank8(),
        comment: opt_seq(comment),
        is_double: false,
        is_comma: false,
        unparsed: opt_seq(unparsed),
    }
}

/// The card read from one line. `None` where a number's scratch buffer
/// would overflow.
#[verifier::opaque]
pub open spec fn spec_parse_line(b: Seq<u8>) -> Option<Result<CardView, ErrorView>> {
    let k = comment_start(b);
    let content = b.take(k);
    let comment = b.skip(k);
    if content.len() == 0 {
        Some(Ok(empty_card(comment, Seq::empty())))
    } else {
        let (e, is_comma, _consume) = first_split(content);
        match spec_first_field(content.take(e)) {
            Err(x) => Some(Err(x)),
            Ok(first) => {
                let is_double = is_double_first(first);
                match line_body(after_first(content), is_comma, is_double) {
                    None => None,
                    Some(Err(x)) => Some(Err(x)),
                    Some(Ok((fs, cont, rest))) => if first is Blank && all_blank(fs) {
                        Some(Ok(empty_card(comment, rest)))
                    } else {
                        Some(
                            Ok(
                                CardView {
                                    first: Some(first),
                                    fields: fs,
                                    continuation: cont,
                                    comment: opt_seq(comment),
                                    is_double,
                                    is_comma,
                                    unparsed: opt_seq(rest),
                                },
                            ),
                        )
                    },
                }
            },
        }
    }
}

pub open spec fn card_result(r: &Result<Card, Error>) -> Result<CardView, ErrorView> {
    match r {
        Ok(c) => Ok(c@),
        Err(e) => Err(e@),
    }
}

fn blank_name() -> (r: [u8; 8])
    ensures
        r@ == blank8(),
{
    let dst = [SPACE; 8];
    assert(dst@ =~= blank8());
    dst
}

fn empty_card_of<'a>(comment: &'a [u8], rest: &'a [u8]) -> (r: Card<'a>)
    ensures
        r@ == empty_card(comment@, rest@),
{
    let c = Card {
        first: None,
        fields: Vec::new(),
        continuation: blank_name(),
        comment: option_from_slice(comment),
        is_double: false,
        is_comma: false,
        unparsed: option_from_slice(rest),
    };
    assert(c@.fields =~= Seq::<FieldView>::empty());
    c
}

/// Reads one line of a deck (without its line end) into a card; `None`
/// where a number would overflow the field reader, which
/// [`lemma_parse_line_total`] shows cannot happen.
fn parse_line_checked(buffer: &[u8]) -> (r: Option<Result<Card<'_>, Error<'_>>>)
    ensures
        r is None <==> spec_parse_line(buffer@) is None,
        r matches Some(x) ==> card_result(&x) == spec_parse_line(buffer@).unwrap(),
{
    reveal(spec_parse_line);
    let (content, comment) = split_line(buffer);
    if content.len() == 0 {
        return Some(Ok(empty_card_of(comment, &content[0..0])));
    }
    let FirstField { field, is_comma, remainder } = match read_first_field(content) {
        Ok(ff) => ff,
        Err(e) => return Some(Err(e)),
    };
    let is_double = match field {
        Field::DoubleContinuation(_) | Field::DoubleString(_) => true,
        _ => false,
    };
    let mut fields: Vec<Field> = Vec::new();
    let mut continuation = blank_name();
    let mut rest = remainder;
    assert(fields_view(fields@) =~= Seq::<FieldView>::empty());
    if is_comma {
        continuation = match read_comma_fields(remainder, &mut fields) {
            None => return None,
            Some(Ok(c)) => c,
            Some(Err(e)) => return Some(Err(e)),
        };
        rest = &remainder[0..0];
        assert(rest@ =~= Seq::<u8>::empty());
    } else {
        let (width, count) = if is_double {
            (16, 4)
        } else {
            (8, 8)
        };
        proof {
            lemma_fixed_fields_fit(remainder@, width as int, count as nat);
        }
        rest = match read_fixed_fields(remainder, width, count, &mut fields) {
            Ok(r) => r,
            Err(e) => return Some(Err(e)),
        };
        proof {
            let ff = fixed_fields(remainder@, width as int, count as nat);
            match ff {
                Some(Ok((fs, r))) => {
                    assert(Seq::<FieldView>::empty() + fs =~= fs);
                },
                _ => {},
            }
        }
        let ghost fixed_rest = rest@;
        assert(fixed_fields(remainder@, width as int, count as nat) == Some(
            Ok::<(Seq<FieldView>, Seq<u8>), ErrorView>((fields_view(fields@), fixed_rest)),
        ));
        assert(width == if is_double { 16usize } else { 8usize });
        assert(count == if is_double { 4usize } else { 8usize });
        if rest.len() > 0 {
            if let Some((sl, r)) = get_short_slice(rest) {
                continuation = match trailing_continuation(sl) {
                    Ok(c) => c,
                    Err(e) => return Some(Err(e)),
                };
                rest = r;
            }
        }
    }
    assert(remainder@ == after_first(content@));
    assert(is_double == is_double_first(field@));
    assert(line_body(after_first(content@), is_comma, is_double) == Some(
        Ok::<(Seq<FieldView>, Seq<u8>, Seq<u8>), ErrorView>(
            (fields_view(fields@), continuation@, rest@),
        ),
    ));
    let mut blank = match field {
        Field::Blank => true,
        _ => false,
    };
    let mut i: usize = 0;
    while blank && i < fields.len()
        invariant
            i <= fields@.len(),
            blank ==> field@ is Blank,
            blank ==> forall|j: int| 0 <= j < i ==> fields@[j] is Blank,
            !blank ==> !(field@ is Blank && all_blank(fields_view(fields@))),
        decreases fields@.len() - i,
    {
        match fields[i] {
            Field::Blank => {},
            _ => {
                assert(!(fields_view(fields@)[i as int] is Blank));
                blank = false;
            },
        }
        i += 1;
    }
    if blank {
        assert(all_blank(fields_view(fields@)));
        Some(Ok(empty_card_of(comment, rest)))
    } else {
        let card = Card {
            first: Some(field),
            fields,
            continuation,
            comment: option_from_slice(comment),
            is_double,
            is_comma,
            unparsed: option_from_slice(rest),
        };
        assert(content@.len() > 0);
        assert(spec_first_field(content@.take(first_split(content@).0)) == Ok::<FieldView, ErrorView>(field@));
        assert(first_split(content@).1 == is_comma);
        assert(!(field@ is Blank && all_blank(fields_view(card.fields@))));
        assert(card@.comment == opt_seq(comment@));
        assert(card@.unparsed == opt_seq(rest@));
        Some(Ok(card))
    }
}

/// A line's content ends at column 80, so its fields never overflow the
/// field reader.
pub proof fn lemma_parse_line_total(b: Seq<u8>)
    ensures
        spec_parse_line(b) is Some,
{
    reveal(spec_parse_line);
    let k = comment_start(b);
    crate::scan::lemma_lead_bounds(b, |c: u8| not_dollar(c));
    let content = b.take(k);
    if content.len() > 0 {
        let (e, is_comma, consume) = first_split(content);
        crate::scan::lemma_lead_bounds(
            content.take(min(content.len() as int, 8)),
            |c: u8| not_sep(c),
        );
        let is_double_w = if is_comma { false } else { true };
        if is_comma {
            lemma_comma_fields_fit(Some(after_first(content)), 0, Seq::empty());
        } else {
            lemma_fixed_fields_fit(after_first(content), 16, 4);
            lemma_fixed_fields_fit(after_first(content), 8, 8);
        }
    }
}

/// Reading the lines of a deck never overflows the field reader.
pub proof fn lemma_cards_total(buffer: Seq<u8>, line_num: nat, w: WorkingView)
    ensures
        spec_cards(buffer, line_num, w) is Some,
    decreases buffer.len(),
{
    if buffer.len() > 0 {
        let j = line_end(buffer);
        if j < buffer.len() {
            lemma_parse_line_total(without_cr(buffer.take(j)));
            if let Some(Ok(card)) = spec_parse_line(without_cr(buffer.take(j))) {
                if !is_enddata(card) {
                    if let Ok(w2) = spec_add_card(w, card) {
                        lemma_cards_total(buffer.skip(j + 1), line_num + 1, w2);
                    }
                }
            }
        } else {
            lemma_parse_line_total(buffer);
        }
    }
}

/// Reads one line of a deck (without its line end) into a card.
pub fn parse_line(buffer: &[u8]) -> (r: Result<Card<'_>, Error<'_>>)
    ensures
        spec_parse_line(buffer@) == Some(card_result(&r)),
{
    proof {
        lemma_parse_line_total(buffer@);
    }
    match parse_line_checked(buffer) {
        Some(r) => r,
        None => Err(Error::ParseFailure),
    }
}

pub open spec fn not_lf(c: u8) -> bool {
    c != LF
}

/// Length of the first line of `b` (without its `\n`), or of all of `b`.
pub open spec fn line_end(b: Seq<u8>) -> int {
    lead(b, |c: u8| not_lf(c)) as int
}

/// Position of the first `\n` at or after `from`, if any.
fn find_lf(b: &[u8], from: usize) -> (r: Option<usize>)
    requires
        from <= b@.len(),
    ensures
        match r {
            Some(j) => from + line_end(b@.skip(from as int)) == j && j < b@.len(),
            None => line_end(b@.skip(from as int)) == b@.len() - from,
        },
{
    let n = b.len();
    let mut i = from;
    while i < n && b[i] != LF
        invariant
            from <= i <= n == b@.len(),
            forall|j: int| 0 <= j < i - from ==> not_lf(#[trigger] b@.skip(from as int)[j]),
        decreases n - i,
    {
        i += 1;
    }
    proof {
        lemma_lead(b@.skip(from as int), |c: u8| not_lf(c), (i - from) as int);
    }
    if i < n {
        Some(i)
    } else {
        None
    }
}

/// A line holding only spaces, or spaces and a comment.
pub open spec fn comment_or_blank(line: Seq<u8>) -> bool {
    let s = lead(line, |c: u8| space(c)) as int;
    s == line.len() || line[s] == DOLLAR
}

/// Bytes and lines taken up by the comment and blank lines at the start of
/// `b` (only lines ended by `\n` count).
pub open spec fn spec_read_comments(b: Seq<u8>) -> (nat, nat)
    decreases b.len(),
{
    let j = line_end(b);
    if j < b.len() && comment_or_blank(b.take(j)) {
        let (c, l) = spec_read_comments(b.skip(j + 1));
        ((c + j + 1) as nat, l + 1)
    } else {
        (0, 0)
    }
}

proof fn lemma_read_comments_len(b: Seq<u8>)
    ensures
        spec_read_comments(b).0 <= b.len(),
        spec_read_comments(b).1 <= spec_read_comments(b).0,
    decreases b.len(),
{
    let j = line_end(b);
    if j < b.len() && comment_or_blank(b.take(j)) {
        lemma_lead_bounds(b, |c: u8| not_lf(c));
        lemma_read_comments_len(b.skip(j + 1));
    }
}

/// Skips the comment and blank lines at the start of a deck; returns the
/// rest and the number of lines skipped.
pub fn read_comments(input_buffer: &[u8]) -> (r: (&[u8], usize))
    ensures
        spec_read_comments(input_buffer@).0 <= input_buffer@.len(),
        r.0@ == input_buffer@.skip(spec_read_comments(input_buffer@).0 as int),
        r.1 == spec_read_comments(input_buffer@).1,
{
    let n = input_buffer.len();
    let mut pos: usize = 0;
    let mut lines_read: usize = 0;
    assert(input_buffer@.skip(0) =~= input_buffer@);
    proof {
        lemma_read_comments_len(input_buffer@);
    }
    loop
        invariant
            pos <= n == input_buffer@.len(),
            lines_read <= pos,
            spec_read_comments(input_buffer@) == (
                (pos + spec_read_comments(input_buffer@.skip(pos as int)).0) as nat,
                (lines_read + spec_read_comments(input_buffer@.skip(pos as int)).1) as nat,
            ),
        decreases n - pos,
    {
        let ghost b = input_buffer@.skip(pos as int);
        let j = match find_lf(input_buffer, pos) {
            Some(j) => j,
            None => {
                return (&input_buffer[pos..n], lines_read);
            },
        };
        let mut is_comment_or_blank = true;
        let mut k = pos;
        while k < j && input_buffer[k] == SPACE
            invariant
                pos <= k <= j < n == input_buffer@.len(),
                forall|m: int| 0 <= m < k - pos ==> space(#[trigger] b.take(j - pos)[m]),
                b == input_buffer@.skip(pos as int),
            decreases j - k,
        {
            k += 1;
        }
        proof {
            lemma_lead(b.take(j - pos), |c: u8| space(c), (k - pos) as int);
        }
        if k < j && input_buffer[k] != DOLLAR {
            is_comment_or_blank = false;
        }
        if !is_comment_or_blank {
            return (&input_buffer[pos..n], lines_read);
        }
        proof {
            assert(b.skip(j - pos + 1) =~= input_buffer@.skip(j + 1));
        }
        pos = j + 1;
        lines_read += 1;
    }
}

/// `b` starts with the bytes of `word`.
pub open spec fn starts_with(b: Seq<u8>, word: Seq<u8>) -> bool {
    b.len() >= word.len() && b.take(word.len() as int) == word
}

pub open spec fn word_init() -> Seq<u8> {
    seq![0x49u8, 0x4e, 0x49, 0x54]
}

pub open spec fn word_nastran() -> Seq<u8> {
    seq![0x4eu8, 0x41, 0x53, 0x54, 0x52, 0x41, 0x4e]
}

pub open spec fn word_begin() -> Seq<u8> {
    seq![0x42u8, 0x45, 0x47, 0x49, 0x4e]
}

/// The deck opens with an executive section (`INIT` or `NASTRAN` with more
/// text after it).
pub open spec fn opens_header(b: Seq<u8>) -> bool {
    (b.len() > 4 && starts_with(b, word_init())) || (b.len() > 7 && starts_with(b, word_nastran()))
}

/// A line that ends the executive section: `BEGIN` with more text after it.
pub open spec fn begin_line(line: Seq<u8>) -> bool {
    line.len() > 5 && starts_with(line, word_begin())
}

/// Looking for the `BEGIN` line: `(true, offset, consumed, lines)` where it
/// starts at `offset` and `consumed` bytes in `lines` lines reach past it;
/// `(false, _, _, lines)` when no complete line is one, with the number of
/// complete lines.
pub open spec fn find_begin(b: Seq<u8>) -> (bool, nat, nat, nat)
    decreases b.len(),
{
    let j = line_end(b);
    if j >= b.len() {
        (false, 0, 0, 0)
    } else if begin_line(b.take(j)) {
        (true, 0, (j + 1) as nat, 1)
    } else {
        let (found, off, cons, lines) = find_begin(b.skip(j + 1));
        (found, (off + j + 1) as nat, (cons + j + 1) as nat, lines + 1)
    }
}

/// Executive section (if any), the rest of the deck, and lines read.
#[verifier::opaque]
pub open spec fn spec_read_header(input: Seq<u8>) -> (Option<Seq<u8>>, Seq<u8>, nat) {
    let (c, l) = spec_read_comments(input);
    let buffer = input.skip(c as int);
    if buffer.len() == 0 {
        (None, buffer, l)
    } else if !opens_header(buffer) {
        (None, input, l)
    } else {
        let (found, off, cons, l2) = find_begin(buffer);
        if found {
            (Some(input.take((c + off) as int)), input.skip((c + cons) as int), l + l2)
        } else {
            (Some(input), Seq::empty(), l + l2)
        }
    }
}

proof fn lemma_find_begin(b: Seq<u8>)
    ensures
        find_begin(b).1 + 1 <= find_begin(b).2 <= b.len() || !find_begin(b).0,
        find_begin(b).3 <= b.len(),
        find_begin(b).3 <= find_begin(b).2 || !find_begin(b).0,
    decreases b.len(),
{
    lemma_lead_bounds(b, |c: u8| not_lf(c));
    let j = line_end(b);
    if j < b.len() && !begin_line(b.take(j)) {
        lemma_find_begin(b.skip(j + 1));
    }
}

fn has_prefix(b: &[u8], word: &[u8]) -> (r: bool)
    ensures
        r == starts_with(b@, word@),
{
    if b.len() < word.len() {
        return false;
    }
    let mut i: usize = 0;
    while i < word.len()
        invariant
            i <= word@.len() <= b@.len(),
            forall|k: int| 0 <= k < i ==> b@[k] == word@[k],
        decreases word@.len() - i,
    {
        if b[i] != word[i] {
            assert(b@.take(word@.len() as int)[i as int] != word@[i as int]);
            return false;
        }
        i += 1;
    }
    assert(b@.take(word@.len() as int) =~= word@);
    true
}

/// Splits off the executive and case control section that ends with a
/// `BEGIN` line, after skipping leading comments. Returns that header (which
/// keeps the comments), the rest of the deck and the number of lines read.
pub fn read_header(input_buffer: &[u8]) -> (r: (Option<&[u8]>, &[u8], usize))
    ensures
        ({
            let (h, b, l) = spec_read_header(input_buffer@);
            &&& match r.0 {
                Some(x) => h == Some(x@),
                None => h is None,
            }
            &&& r.1@ == b
            &&& r.2 == l
        }),
        r.1@.len() <= input_buffer@.len(),
        r.2 <= input_buffer@.len(),
{
    reveal(spec_read_header);
    let n = input_buffer.len();
    let (buffer, lines_read) = read_comments(input_buffer);
    proof {
        lemma_read_comments_len(input_buffer@);
    }
    if buffer.len() == 0 {
        return (None, buffer, lines_read);
    }
    let init: [u8; 4] = [0x49, 0x4e, 0x49, 0x54];
    let nastran: [u8; 7] = [0x4e, 0x41, 0x53, 0x54, 0x52, 0x41, 0x4e];
    let begin: [u8; 5] = [0x42, 0x45, 0x47, 0x49, 0x4e];
    assert(init@ =~= word_init());
    assert(nastran@ =~= word_nastran());
    assert(begin@ =~= word_begin());
    let is_header = (buffer.len() > 4 && has_prefix(buffer, &init)) || (buffer.len() > 7
        && has_prefix(buffer, &nastran));
    if !is_header {
        return (None, input_buffer, lines_read);
    }
    let start = n - buffer.len();
    let ghost b0 = buffer@;
    proof {
        lemma_find_begin(b0);
    }
    let mut pos = start;
    let mut lines: usize = lines_read;
    loop
        invariant
            start <= pos <= n == input_buffer@.len(),
            b0 == input_buffer@.skip(start as int),
            spec_read_comments(input_buffer@).0 == start,
            spec_read_comments(input_buffer@).1 == lines_read,
            opens_header(b0),
            b0.len() > 0,
            begin@ == word_begin(),
            lines <= lines_read + (pos - start),
            lines_read <= start,
            ({
                let (f0, off0, cons0, l0) = find_begin(b0);
                let (f1, off1, cons1, l1) = find_begin(input_buffer@.skip(pos as int));
                &&& f0 == f1
                &&& l0 == (lines - lines_read) + l1
                &&& f0 ==> off0 == (pos - start) + off1 && cons0 == (pos - start) + cons1
            }),
        decreases n - pos,
    {
        let ghost b = input_buffer@.skip(pos as int);
        match find_lf(input_buffer, pos) {
            Some(j) => {
                let line = &input_buffer[pos..j];
                assert(line@ =~= b.take(j - pos));
                if line.len() > 5 && has_prefix(line, &begin) {
                    reveal(spec_read_header);
                    assert(find_begin(b) == (true, 0nat, (j - pos + 1) as nat, 1nat));
                    proof {
                        assert(input_buffer@.take(pos as int) =~= input_buffer@.take(
                            start + find_begin(b0).1,
                        ));
                    }
                    return (Some(&input_buffer[0..pos]), &input_buffer[j + 1..n], lines + 1);
                }
                proof {
                    assert(b.skip(j - pos + 1) =~= input_buffer@.skip(j + 1));
                }
                pos = j + 1;
                lines += 1;
            },
            None => {
                reveal(spec_read_header);
                assert(find_begin(b) == (false, 0nat, 0nat, 0nat));
                let rest = &input_buffer[n..n];
                assert(rest@ =~= Seq::<u8>::empty());
                return (Some(input_buffer), rest, lines);
            },
        }
    }
}

/// The key under which a continuation name is looked up: its eight bytes,
/// first byte lowest.
pub open spec fn name_key(c: Seq<u8>) -> u64 {
    (c[0] as u64) | ((c[1] as u64) << 8u64) | ((c[2] as u64) << 16u64) | ((c[3] as u64) << 24u64)
        | ((c[4] as u64) << 32u64) | ((c[5] as u64) << 40u64) | ((c[6] as u64) << 48u64) | ((
    c[7] as u64) << 56u64)
}

fn continuation_key(c: &[u8; 8]) -> (r: u64)
    ensures
        r == name_key(c@),
{
    (c[0] as u64) | ((c[1] as u64) << 8u64) | ((c[2] as u64) << 16u64) | ((c[3] as u64) << 24u64)
        | ((c[4] as u64) << 32u64) | ((c[5] as u64) << 40u64) | ((c[6] as u64) << 48u64) | ((
    c[7] as u64) << 56u64)
}

/// Two continuation names share a key only if they are the same name.
pub proof fn lemma_name_key_injective(a: Seq<u8>, b: Seq<u8>)
    requires
        a.len() == 8,
        b.len() == 8,
        name_key(a) == name_key(b),
    ensures
        a == b,
{
    let (a0, a1, a2, a3, a4, a5, a6, a7) = (a[0], a[1], a[2], a[3], a[4], a[5], a[6], a[7]);
    let (b0, b1, b2, b3, b4, b5, b6, b7) = (b[0], b[1], b[2], b[3], b[4], b[5], b[6], b[7]);
    assert(a0 == b0 && a1 == b1 && a2 == b2 && a3 == b3 && a4 == b4 && a5 == b5 && a6 == b6 && a7
        == b7) by (bit_vector)
        requires
            (a0 as u64) | ((a1 as u64) << 8u64) | ((a2 as u64) << 16u64) | ((a3 as u64) << 24u64)
                | ((a4 as u64) << 32u64) | ((a5 as u64) << 40u64) | ((a6 as u64) << 48u64) | ((
            a7 as u64) << 56u64) == (b0 as u64) | ((b1 as u64) << 8u64) | ((b2 as u64) << 16u64)
                | ((b3 as u64) << 24u64) | ((b4 as u64) << 32u64) | ((b5 as u64) << 40u64) | ((
            b6 as u64) << 48u64) | ((b7 as u64) << 56u64),
    ;
    assert(a =~= b);
}

/// A deck: its cards, the executive section before `BEGIN BULK`, and what
/// follows `ENDDATA`.
#[derive(Debug, PartialEq)]
pub struct Deck<'a> {
    pub cards: Vec<Card<'a>>,
    pub header: Option<&'a [u8]>,
    pub unparsed: Option<&'a [u8]>,
}

/// The model of a [`Deck`].
pub struct DeckView {
    pub cards: Seq<CardView>,
    pub header: Option<Seq<u8>>,
    pub unparsed: Option<Seq<u8>>,
}

pub open spec fn cards_view(v: Seq<Card>) -> Seq<CardView> {
    v.map_values(|c: Card| c@)
}

impl View for Deck<'_> {
    type V = DeckView;

    open spec fn view(&self) -> DeckView {
        DeckView {
            cards: cards_view(self.cards@),
            header: opt_bytes(self.header),
            unparsed: opt_bytes(self.unparsed),
        }
    }
}

pub open spec fn opt_bytes(o: Option<&[u8]>) -> Option<Seq<u8>> {
    match o {
        Some(b) => Some(b@),
        None => None,
    }
}

impl<'a> Deck<'a> {
    pub fn new() -> (d: Deck<'a>)
        ensures
            d@ == (DeckView { cards: Seq::empty(), header: None, unparsed: None }),
    {
        let d = Deck { cards: Vec::new(), header: None, unparsed: None };
        assert(d@.cards =~= Seq::<CardView>::empty());
        d
    }

    pub fn set_header(&mut self, header: &'a [u8])
        ensures
            final(self)@ == (DeckView { header: Some(header@), ..old(self)@ }),
    {
        self.header = Some(header);
    }

    pub fn set_unparsed(&mut self, unparsed: &'a [u8])
        ensures
            final(self)@ == (DeckView { unparsed: Some(unparsed@), ..old(self)@ }),
    {
        self.unparsed = Some(unparsed);
    }

    /// Appends a card as it is.
    pub fn add_card(&mut self, card: Card<'a>) -> (r: Result<(), Error<'a>>)
        ensures
            r is Ok,
            final(self)@ == (DeckView { cards: old(self)@.cards.push(card@), ..old(self)@ }),
    {
        self.cards.push(card);
        assert(cards_view(self.cards@) =~= cards_view(old(self).cards@).push(card@));
        Ok(())
    }
}

/// A deck being read: cards so far and, for each open continuation name,
/// the card that a line starting with that name continues.
pub struct WorkingDeck<'a> {
    deck: Deck<'a>,
    continuations: HashMap<u64, usize>,
}

/// The model of a [`WorkingDeck`].
pub struct WorkingView {
    pub deck: DeckView,
    pub continuations: Map<u64, usize>,
}

impl View for WorkingDeck<'_> {
    type V = WorkingView;

    closed spec fn view(&self) -> WorkingView {
        WorkingView { deck: self.deck@, continuations: self.continuations@ }
    }
}

/// Every open continuation refers to a card of the deck.
pub open spec fn working_wf(w: WorkingView) -> bool {
    forall|k: u64| #[trigger] w.continuations.contains_key(k) ==> w.continuations[k] < w.deck.cards.len()
}

/// A first field that a line can start with.
pub open spec fn first_kind_ok(c: CardView) -> bool {
    match c.first {
        Some(f) => !(f is Int || f is Float || f is Double),
        None => true,
    }
}

/// Appends the continuation `card` to the card that `name` is open for.
pub open spec fn attach(w: WorkingView, card: CardView, name: Seq<u8>) -> Result<WorkingView, ErrorView> {
    let k = name_key(name);
    if !w.continuations.contains_key(k) {
        Err(ErrorView::UnmatchedContinuation(name))
    } else {
        let i = w.continuations[k];
        Ok(
            WorkingView {
                deck: DeckView {
                    cards: w.deck.cards.update(i as int, merged(w.deck.cards[i as int], card)),
                    ..w.deck
                },
                continuations: w.continuations.remove(k).insert(name_key(card.continuation), i),
            },
        )
    }
}

/// Adding a card to a deck being read: a card with a name starts a card and
/// opens its trailing continuation; a continuation line (named, or with a
/// blank first field for the blank name) is appended to the card that its
/// name is open for, and opens its own trailing continuation for that card;
/// a line without card data is kept as it is.
pub open spec fn spec_add_card(w: WorkingView, card: CardView) -> Result<WorkingView, ErrorView> {
    match card.first {
        Some(FieldView::Continuation(c)) => attach(w, card, c),
        Some(FieldView::DoubleContinuation(c)) => attach(w, card, c),
        Some(FieldView::Blank) => attach(w, card, blank8()),
        Some(_) => Ok(
            WorkingView {
                deck: DeckView { cards: w.deck.cards.push(card), ..w.deck },
                continuations: w.continuations.insert(
                    name_key(card.continuation),
                    w.deck.cards.len() as usize,
                ),
            },
        ),
        None => Ok(WorkingView { deck: DeckView { cards: w.deck.cards.push(card), ..w.deck }, ..w }),
    }
}

impl<'a> WorkingDeck<'a> {
    pub open spec fn wf(&self) -> bool {
        working_wf(self@)
    }

    pub fn new() -> (d: WorkingDeck<'a>)
        ensures
            d.wf(),
            d@ == (WorkingView {
                deck: DeckView { cards: Seq::empty(), header: None, unparsed: None },
                continuations: Map::empty(),
            }),
    {
        WorkingDeck { deck: Deck::new(), continuations: HashMap::new() }
    }

    pub fn set_header(&mut self, header: &'a [u8])
        requires
            old(self).wf(),
        ensures
            final(self).wf(),
            final(self)@ == (WorkingView {
                deck: DeckView { header: Some(header@), ..old(self)@.deck },
                ..old(self)@
            }),
    {
        self.deck.set_header(header);
    }

    pub fn set_unparsed(&mut self, unparsed: &'a [u8])
        requires
            old(self).wf(),
        ensures
            final(self).wf(),
            final(self)@ == (WorkingView {
                deck: DeckView { unparsed: Some(unparsed@), ..old(self)@.deck },
                ..old(self)@
            }),
    {
        self.deck.set_unparsed(unparsed);
    }

    /// The deck read so far.
    pub fn into_deck(self) -> (d: Deck<'a>)
        ensures
            d@ == self@.deck,
    {
        self.deck
    }

    fn attach_card(&mut self, card: Card<'a>, name: [u8; 8]) -> (r: Result<(), Error<'a>>)
        requires
            old(self).wf(),
        ensures
            final(self).wf(),
            match r {
                Ok(()) => attach(old(self)@, card@, name@) == Ok::<WorkingView, ErrorView>(final(self)@),
                Err(e) => attach(old(self)@, card@, name@) == Err::<WorkingView, ErrorView>(e@)
                    && final(self)@ == old(self)@,
            },
    {
        broadcast use vstd::std_specs::hash::group_hash_axioms;

        let key = continuation_key(&name);
        let ghost conts0 = self.continuations@;
        let index = match self.continuations.remove(&key) {
            Some(i) => i,
            None => {
                assert(self.continuations@ =~= conts0);
                return Err(Error::UnmatchedContinuation(name));
            },
        };
        assert(index < self.deck.cards@.len());
        let next = continuation_key(&card.continuation);
        self.continuations.insert(next, index);
        let ghost before = cards_view(self.deck.cards@);
        self.deck.cards[index].merge(card);
        proof {
            assert(cards_view(self.deck.cards@) =~= before.update(
                index as int,
                merged(before[index as int], card@),
            ));
        }
        Ok(())
    }

    /// Adds the card read from one line, see [`spec_add_card`].
    pub fn add_card(&mut self, card: Card<'a>) -> (r: Result<(), Error<'a>>)
        requires
            old(self).wf(),
            first_kind_ok(card@),
        ensures
            final(self).wf(),
            match r {
                Ok(()) => spec_add_card(old(self)@, card@) == Ok::<WorkingView, ErrorView>(final(self)@),
                Err(e) => spec_add_card(old(self)@, card@) == Err::<WorkingView, ErrorView>(e@)
                    && final(self)@ == old(self)@,
            },
    {
        broadcast use vstd::std_specs::hash::group_hash_axioms;

        let name = match &card.first {
            Some(Field::Continuation(c)) => Some(*c),
            Some(Field::DoubleContinuation(c)) => Some(*c),
            Some(Field::Blank) => Some(blank_name()),
            _ => None,
        };
        match name {
            Some(c) => self.attach_card(card, c),
            None => {
                let named = card.first.is_some();
                if named {
                    let key = continuation_key(&card.continuation);
                    let n = self.deck.cards.len();
                    self.continuations.insert(key, n);
                }
                self.deck.add_card(card)
            },
        }
    }
}

proof fn lemma_line_first_kind(b: Seq<u8>)
    ensures
        spec_parse_line(b) matches Some(Ok(c)) ==> first_kind_ok(c),
{
    reveal(spec_parse_line);
    let k = comment_start(b);
    let content = b.take(k);
    let (e, _c, _consume) = first_split(content);
    let t = crate::scan::trimmed(content.take(e));
    if t.len() > 0 {
        let _ = spec_string(t);
    }
}

pub open spec fn word_enddata() -> Seq<u8> {
    seq![0x45u8, 0x4e, 0x44, 0x44, 0x41, 0x54, 0x41, 0x20]
}

/// The card that ends the bulk data.
pub open spec fn is_enddata(c: CardView) -> bool {
    c.first == Some(FieldView::String(word_enddata()))
}

pub open spec fn line_error(line_num: nat, e: ErrorView) -> ErrorView {
    ErrorView::LineError(line_num, Box::new(e))
}

/// The contents of a line without its `\r`, if it ends with one.
pub open spec fn without_cr(line: Seq<u8>) -> Seq<u8> {
    if line.len() > 0 && line.last() == CR {
        line.drop_last()
    } else {
        line
    }
}

/// Reading the lines of `buffer`, numbered from `line_num`, into the deck
/// being read, up to `ENDDATA` (whose card is dropped; what follows it is
/// kept as unparsed).
pub open spec fn spec_cards(buffer: Seq<u8>, line_num: nat, w: WorkingView) -> Option<
    Result<WorkingView, ErrorView>,
>
    decreases buffer.len(),
{
    if buffer.len() == 0 {
        Some(Ok(w))
    } else {
        let j = line_end(buffer);
        if j < buffer.len() {
            match spec_parse_line(without_cr(buffer.take(j))) {
                None => None,
                Some(Err(e)) => Some(Err(line_error(line_num, e))),
                Some(Ok(card)) => if is_enddata(card) {
                    Some(
                        Ok(
                            WorkingView {
                                deck: DeckView { unparsed: Some(buffer.skip(j + 1)), ..w.deck },
                                ..w
                            },
                        ),
                    )
                } else {
                    match spec_add_card(w, card) {
                        Err(e) => Some(Err(e)),
                        Ok(w2) => spec_cards(buffer.skip(j + 1), line_num + 1, w2),
                    }
                },
            }
        } else {
            match spec_parse_line(buffer) {
                None => None,
                Some(Err(e)) => Some(Err(line_error(line_num, e))),
                Some(Ok(card)) => match spec_add_card(w, card) {
                    Err(e) => Some(Err(e)),
                    Ok(w2) => Some(Ok(w2)),
                },
            }
        }
    }
}

/// Reading a whole deck: the header, then the cards. `None` where a number
/// would overflow the scratch buffer of the field reader.
pub open spec fn spec_parse_buffer(input: Seq<u8>) -> Option<Result<DeckView, ErrorView>> {
    let (h, b, l) = spec_read_header(input);
    let w0 = WorkingView {
        deck: DeckView { cards: Seq::empty(), header: h, unparsed: None },
        continuations: Map::empty(),
    };
    match spec_cards(b, 1 + l, w0) {
        None => None,
        Some(Err(e)) => Some(Err(e)),
        Some(Ok(w)) => Some(Ok(w.deck)),
    }
}

pub open spec fn deck_result(r: &Result<Deck, Error>) -> Result<DeckView, ErrorView> {
    match r {
        Ok(d) => Ok(d@),
        Err(e) => Err(e@),
    }
}

pub open spec fn deck_of(o: Option<Result<WorkingView, ErrorView>>) -> Option<
    Result<DeckView, ErrorView>,
> {
    match o {
        None => None,
        Some(Err(e)) => Some(Err(e)),
        Some(Ok(w)) => Some(Ok(w.deck)),
    }
}

/// Reads a whole deck, see [`spec_parse_buffer`]; `None` where a number
/// would overflow the field reader.
fn parse_buffer_checked(input_buffer: &[u8]) -> (r: Option<Result<Deck<'_>, Error<'_>>>)
    requires
        input_buffer@.len() <= isize::MAX,
    ensures
        r is None <==> spec_parse_buffer(input_buffer@) is None,
        r matches Some(x) ==> deck_result(&x) == spec_parse_buffer(input_buffer@).unwrap(),
{
    let mut deck = WorkingDeck::new();
    let (header, buffer, lines_read) = read_header(input_buffer);
    let mut line_num: usize = 1 + lines_read;
    if let Some(h) = header {
        deck.set_header(h);
    }
    let ghost w0 = deck@;
    let ghost target = spec_cards(buffer@, line_num as nat, w0);
    proof {
        reveal(spec_read_header);
        let (h, b, l) = spec_read_header(input_buffer@);
        assert(w0 == WorkingView {
            deck: DeckView { cards: Seq::empty(), header: h, unparsed: None },
            continuations: Map::empty(),
        });
        assert(spec_parse_buffer(input_buffer@) == deck_of(target));
    }
    let n = buffer.len();
    let mut pos: usize = 0;
    assert(buffer@.skip(0) =~= buffer@);
    while pos < n
        invariant
            pos <= n == buffer@.len() <= input_buffer@.len() <= isize::MAX,
            line_num <= input_buffer@.len() + pos + 1,
            deck.wf(),
            spec_cards(buffer@.skip(pos as int), line_num as nat, deck@) == target,
            spec_parse_buffer(input_buffer@) == deck_of(target),
        decreases n - pos,
    {
        let ghost rest = buffer@.skip(pos as int);
        match find_lf(buffer, pos) {
            Some(j) => {
                let line = if j > pos && buffer[j - 1] == CR {
                    &buffer[pos..j - 1]
                } else {
                    &buffer[pos..j]
                };
                proof {
                    assert(rest.take(j - pos) =~= buffer@.subrange(pos as int, j as int));
                    assert(without_cr(rest.take(j - pos)) =~= line@);
                    lemma_line_first_kind(line@);
                }
                let card = match parse_line_checked(line) {
                    None => return None,
                    Some(Ok(c)) => c,
                    Some(Err(e)) => return Some(Err(Error::LineError(line_num, Box::new(e)))),
                };
                let is_end = match &card.first {
                    Some(Field::String(name)) => name[0] == 0x45 && name[1] == 0x4e && name[2]
                        == 0x44 && name[3] == 0x44 && name[4] == 0x41 && name[5] == 0x54 && name[6]
                        == 0x41 && name[7] == 0x20,
                    _ => false,
                };
                proof {
                    match card@.first {
                        Some(FieldView::String(nm)) => {
                            if is_end {
                                assert(nm =~= word_enddata());
                            } else if nm == word_enddata() {
                                assert(nm[0] == 0x45 && nm[7] == 0x20);
                            }
                        },
                        _ => {},
                    }
                }
                if is_end {
                    deck.set_unparsed(&buffer[j + 1..n]);
                    assert(rest.skip(j - pos + 1) =~= buffer@.skip(j + 1));
                    return Some(Ok(deck.into_deck()));
                }
                match deck.add_card(card) {
                    Ok(()) => {},
                    Err(e) => return Some(Err(e)),
                }
                proof {
                    assert(rest.skip(j - pos + 1) =~= buffer@.skip(j + 1));
                }
                pos = j + 1;
            },
            None => {
                let line = &buffer[pos..n];
                assert(line@ =~= rest);
                proof {
                    lemma_line_first_kind(line@);
                }
                let card = match parse_line_checked(line) {
                    None => return None,
                    Some(Ok(c)) => c,
                    Some(Err(e)) => return Some(Err(Error::LineError(line_num, Box::new(e)))),
                };
                match deck.add_card(card) {
                    Ok(()) => {},
                    Err(e) => return Some(Err(e)),
                }
                return Some(Ok(deck.into_deck()));
            },
        }
        line_num += 1;
    }
    assert(buffer@.skip(pos as int) =~= Seq::<u8>::empty());
    Some(Ok(deck.into_deck()))
}

/// Reads a whole deck, see [`spec_parse_buffer`].
pub fn parse_buffer(input_buffer: &[u8]) -> (r: Result<Deck<'_>, Error<'_>>)
    requires
        input_buffer@.len() <= isize::MAX,
    ensures
        spec_parse_buffer(input_buffer@) == Some(deck_result(&r)),
{
    proof {
        let (h, b, l) = spec_read_header(input_buffer@);
        let w0 = WorkingView {
            deck: DeckView { cards: Seq::empty(), header: h, unparsed: None },
            continuations: Map::empty(),
        };
        lemma_cards_total(b, 1 + l, w0);
    }
    match parse_buffer_checked(input_buffer) {
        Some(r) => r,
        None => Err(Error::ParseFailure),
    }
}



/// A card that opens the continuation `c`, followed by a line that
/// continues `c`, makes a single new card: the fields of the continuation
/// line follow those of the card, and the card takes over the line's own
/// trailing continuation.
pub proof fn law_continuation_appends(w: WorkingView, parent: CardView, cont: CardView)
    requires
        working_wf(w),
        w.deck.cards.len() < usize::MAX,
        parent.first matches Some(f) && (f is String || f is DoubleString),
        cont.first == Some(FieldView::Continuation(parent.continuation)) || cont.first == Some(
            FieldView::DoubleContinuation(parent.continuation),
        ),
    ensures
        spec_add_card(w, parent) matches Ok(w1) && spec_add_card(w1, cont) matches Ok(w2) && {
            &&& w2.deck.cards.len() == w.deck.cards.len() + 1
            &&& w2.deck.cards.take(w.deck.cards.len() as int) == w.deck.cards
            &&& w2.deck.cards.last().fields == parent.fields + cont.fields
            &&& w2.deck.cards.last().first == parent.first
            &&& w2.deck.cards.last().continuation == cont.continuation
            &&& w2.continuations.contains_key(name_key(cont.continuation))
            &&& w2.continuations[name_key(cont.continuation)] == w.deck.cards.len()
        },
{
    let w1 = spec_add_card(w, parent)->Ok_0;
    assert(w1.continuations.contains_key(name_key(parent.continuation)));
    let n = w.deck.cards.len() as int;
    assert(w1.continuations[name_key(parent.continuation)] as int == n);
    assert(w1.deck.cards == w.deck.cards.push(parent));
    let w2 = spec_add_card(w1, cont)->Ok_0;
    assert(w2.deck.cards == w1.deck.cards.update(n, merged(parent, cont)));
    assert(w2.deck.cards.take(n) =~= w.deck.cards);
}

/// A continuation line whose name no card has opened is refused, and names
/// that continuation.
pub proof fn law_unmatched_continuation(w: WorkingView, cont: CardView, c: Seq<u8>)
    requires
        cont.first == Some(FieldView::Continuation(c)),
        !w.continuations.contains_key(name_key(c)),
    ensures
        spec_add_card(w, cont) == Err::<WorkingView, ErrorView>(ErrorView::UnmatchedContinuation(c)),
{
}

} // verus!
