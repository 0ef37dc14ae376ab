//! One line as the two-stage reader walks it: tabs expanded, letters
//! upper-cased, the data ending at a `$`, a CR or LF, or after column 80, and
//! what follows kept as the comment.
use vstd::prelude::*;

use crate::bdf::lines::{expand, expand_tabs, fixed_field, opt_bytes, trim_end, upcase, upcase_exec};
use crate::scan::{count_spaces, padded, space, COMMA, CR, DOLLAR, LF, SPACE};

verus! {

/// The state of a line being walked: its bytes after tab expansion, the
/// position of the next byte, and the comment once the data has ended.
pub struct LineView {
    pub data: Seq<u8>,
    pub pos: nat,
    pub comment: Option<Seq<u8>>,
}

/// A byte that ends the data of a line.
pub open spec fn line_end(c: u8) -> bool {
    c == DOLLAR || c == LF || c == CR
}

/// One step of the walk. A `$`, CR or LF ends the data, and it and what
/// follows become the comment; the byte in column 80 is the last data byte
/// and what follows it becomes the comment. Data bytes come out upper-cased.
/// At the end of the line nothing changes.
pub open spec fn line_next(r: LineView) -> (Option<u8>, LineView) {
    if r.pos >= r.data.len() {
        (None, r)
    } else {
        let c = r.data[r.pos as int];
        let end = r.data.len();
        if line_end(c) {
            (None, LineView { pos: end, comment: Some(r.data.skip(r.pos as int)), ..r })
        } else if r.pos == 79 {
            (Some(upcase(c)), LineView { pos: end, comment: Some(r.data.skip(80)), ..r })
        } else {
            (Some(upcase(c)), LineView { pos: r.pos + 1, ..r })
        }
    }
}

/// The next raw byte, if any.
pub open spec fn line_peek(r: LineView) -> Option<u8> {
    if r.pos < r.data.len() {
        Some(r.data[r.pos as int])
    } else {
        None
    }
}

/// Up to `n` data bytes, stopping at the first step that yields none.
pub open spec fn line_take(r: LineView, n: nat) -> (Seq<u8>, LineView)
    decreases n,
{
    if n == 0 {
        (Seq::empty(), r)
    } else {
        let (o, r1) = line_next(r);
        match o {
            None => (Seq::empty(), r1),
            Some(c) => {
                let (rest, r2) = line_take(r1, (n - 1) as nat);
                (seq![c] + rest, r2)
            },
        }
    }
}

/// All the data bytes left.
pub open spec fn line_rest(r: LineView) -> (Seq<u8>, LineView)
    decreases r.data.len() - r.pos,
{
    proof {
        lemma_line_next(r);
    }
    let (o, r1) = line_next(r);
    match o {
        None => (Seq::empty(), r1),
        Some(c) => {
            let (rest, r2) = line_rest(r1);
            (seq![c] + rest, r2)
        },
    }
}

pub proof fn lemma_line_next(r: LineView)
    ensures
        line_next(r).0 is Some ==> line_next(r).1.pos > r.pos && r.pos < r.data.len(),
        line_next(r).1.data == r.data,
        line_next(r).1.pos >= r.pos,
        line_next(r).1.pos == r.pos ==> line_next(r).1 == r && r.pos >= r.data.len()
            && line_next(r).0 is None,
        r.pos <= r.data.len() ==> line_next(r).1.pos <= r.data.len(),
        line_next(r).1.comment is None ==> r.comment is None || line_next(r).1 == r,
{
}

/// Skips the spaces before a comma separated field: the first other data
/// byte, if one comes before the data ends.
pub open spec fn field_skip(r: LineView) -> (Option<u8>, LineView)
    decreases r.data.len() - r.pos,
{
    proof {
        lemma_line_next(r);
    }
    let (o, r1) = line_next(r);
    match o {
        Some(c) => if c == SPACE {
            field_skip(r1)
        } else {
            (Some(c), r1)
        },
        None => (None, r1),
    }
}

/// The data bytes up to the next comma (which is read too) or the end of the
/// data.
pub open spec fn field_rest(r: LineView) -> (Seq<u8>, LineView)
    decreases r.data.len() - r.pos,
{
    proof {
        lemma_line_next(r);
    }
    let (o, r1) = line_next(r);
    match o {
        Some(c) => if c == COMMA {
            (Seq::empty(), r1)
        } else {
            let (t, r2) = field_rest(r1);
            (seq![c] + t, r2)
        },
        None => (Seq::empty(), r1),
    }
}

/// A comma separated field: leading spaces skipped, the bytes up to the
/// comma, trailing spaces dropped. `None` when the field is empty and no
/// byte is left of the line.
pub open spec fn next_field(r: LineView) -> (Option<Seq<u8>>, LineView) {
    let (first, r1) = field_skip(r);
    let (body, r2) = match first {
        Some(c) => if c == COMMA {
            (Seq::<u8>::empty(), r1)
        } else {
            let (t, r2) = field_rest(r1);
            (seq![c] + t, r2)
        },
        None => (Seq::<u8>::empty(), r1),
    };
    if body.len() == 0 {
        if line_peek(r2) is None {
            (None, r2)
        } else {
            (Some(Seq::empty()), r2)
        }
    } else {
        (Some(trim_end(body)), r2)
    }
}

/// How a step of the walk may change it: the position only grows and stays
/// in the line, and where it does not move nothing changes.
pub open spec fn moved_on(r: LineView, r1: LineView) -> bool {
    &&& r1.data == r.data
    &&& r1.pos >= r.pos
    &&& (r.pos <= r.data.len() ==> r1.pos <= r.data.len())
    &&& (r1.pos == r.pos ==> r1 == r)
}

pub proof fn lemma_field_skip(r: LineView)
    ensures
        moved_on(r, field_skip(r).1),
        field_skip(r).0 is Some ==> field_skip(r).1.pos > r.pos,
        field_skip(r).1.pos == r.pos ==> r.pos >= r.data.len(),
    decreases r.data.len() - r.pos,
{
    lemma_line_next(r);
    let (o, r1) = line_next(r);
    if let Some(c) = o {
        if c == SPACE {
            lemma_field_skip(r1);
        }
    }
}

pub proof fn lemma_field_rest(r: LineView)
    ensures
        moved_on(r, field_rest(r).1),
    decreases r.data.len() - r.pos,
{
    lemma_line_next(r);
    let (o, r1) = line_next(r);
    if let Some(c) = o {
        if c != COMMA {
            lemma_field_rest(r1);
        }
    }
}

/// A field is only found where the walk moved on.
pub proof fn lemma_next_field(r: LineView)
    ensures
        moved_on(r, next_field(r).1),
        next_field(r).0 is Some ==> next_field(r).1.pos > r.pos,
{
    lemma_field_skip(r);
    let (first, r1) = field_skip(r);
    if let Some(c) = first {
        if c != COMMA {
            lemma_field_rest(r1);
        }
    }
}

/// A line being walked, see [`LineView`].
pub struct NastranLineIter {
    pub data: Vec<u8>,
    pub pos: usize,
    pub comment: Option<Vec<u8>>,
}

impl View for NastranLineIter {
    type V = LineView;

    open spec fn view(&self) -> LineView {
        LineView { data: self.data@, pos: self.pos as nat, comment: opt_bytes(self.comment) }
    }
}

impl NastranLineIter {
    pub open spec fn wf(&self) -> bool {
        self.pos <= self.data@.len()
    }

    /// The walk at the start of `line`, tabs expanded.
    pub fn new(line: &[u8]) -> (r: NastranLineIter)
        ensures
            r.wf(),
            r@ == (LineView { data: expand(line@, 0), pos: 0, comment: None }),
    {
        NastranLineIter { data: expand_tabs(line), pos: 0, comment: None }
    }

    /// One step, see [`line_next`].
    pub fn next(&mut self) -> (r: Option<u8>)
        requires
            old(self).wf(),
        ensures
            final(self).wf(),
            (r, final(self)@) == line_next(old(self)@),
    {
        let n = self.data.len();
        if self.pos >= n {
            return None;
        }
        let c = self.data[self.pos];
        if c == DOLLAR || c == LF || c == CR {
            let rest = vstd::slice::slice_to_vec(
                vstd::slice::slice_subrange(self.data.as_slice(), self.pos, n),
            );
            assert(rest@ =~= self.data@.skip(self.pos as int));
            self.comment = Some(rest);
            self.pos = n;
            None
        } else if self.pos == 79 {
            let rest = vstd::slice::slice_to_vec(
                vstd::slice::slice_subrange(self.data.as_slice(), 80, n),
            );
            assert(rest@ =~= self.data@.skip(80));
            self.comment = Some(rest);
            self.pos = n;
            Some(upcase_exec(c))
        } else {
            self.pos = self.pos + 1;
            Some(upcase_exec(c))
        }
    }

    /// The next raw byte, see [`line_peek`].
    pub fn peek(&self) -> (r: Option<u8>)
        ensures
            r == line_peek(self@),
    {
        if self.pos < self.data.len() {
            Some(self.data[self.pos])
        } else {
            None
        }
    }

    /// Takes the comment out of the walk.
    pub fn take_comment(&mut self) -> (r: Option<Vec<u8>>)
        requires
            old(self).wf(),
        ensures
            final(self).wf(),
            opt_bytes(r) == old(self)@.comment,
            final(self)@ == (LineView { comment: None, ..old(self)@ }),
    {
        self.comment.take()
    }

    /// Up to `n` data bytes, see [`line_take`].
    pub fn take(&mut self, n: usize) -> (r: Vec<u8>)
        requires
            old(self).wf(),
        ensures
            final(self).wf(),
            (r@, final(self)@) == line_take(old(self)@, n as nat),
            r@.len() <= n,
    {
        let mut out: Vec<u8> = Vec::new();
        let mut k: usize = 0;
        let ghost start = self@;
        assert(out@ + line_take(start, n as nat).0 =~= line_take(start, n as nat).0);
        while k < n
            invariant
                self.wf(),
                start == old(self)@,
                k <= n,
                out@.len() == k,
                line_take(start, n as nat) == (
                    out@ + line_take(self@, (n - k) as nat).0,
                    line_take(self@, (n - k) as nat).1,
                ),
            decreases n - k,
        {
            match self.next() {
                None => {
                    assert(out@ + Seq::<u8>::empty() =~= out@);
                    return out;
                },
                Some(c) => {
                    let ghost prev = out@;
                    out.push(c);
                    k += 1;
                    assert(prev + (seq![c] + line_take(self@, (n - k) as nat).0) =~= out@
                        + line_take(self@, (n - k) as nat).0);
                },
            }
        }
        assert(out@ + Seq::<u8>::empty() =~= out@);
        out
    }

    /// An eight column field, see [`fixed_field`].
    pub fn take8(&mut self) -> (r: [u8; 8])
        requires
            old(self).wf(),
        ensures
            final(self).wf(),
            r@ == fixed_field(line_take(old(self)@, 8).0, 8),
            final(self)@ == line_take(old(self)@, 8).1,
    {
        let items = self.take(8);
        let s = items.as_slice();
        let k = count_spaces(s, 0);
        assert(s@.skip(0) =~= s@);
        let r = crate::scan::pad8(s, k, s.len());
        assert(s@.subrange(k as int, s@.len() as int) =~= s@.skip(k as int));
        r
    }

    /// A sixteen column field, see [`fixed_field`].
    pub fn take16(&mut self) -> (r: [u8; 16])
        requires
            old(self).wf(),
        ensures
            final(self).wf(),
            r@ == fixed_field(line_take(old(self)@, 16).0, 16),
            final(self)@ == line_take(old(self)@, 16).1,
    {
        let items = self.take(16);
        let s = items.as_slice();
        let k = count_spaces(s, 0);
        assert(s@.skip(0) =~= s@);
        let mut dst = [SPACE; 16];
        let mut j = k;
        while j < s.len()
            invariant
                k <= j <= s@.len() <= 16,
                forall|i: int| 0 <= i < j - k ==> dst@[i] == s@[k + i],
                forall|i: int| j - k <= i < 16 ==> dst@[i] == SPACE,
            decreases s@.len() - j,
        {
            dst[j - k] = s[j];
            j += 1;
        }
        assert(dst@ =~= padded(s@.skip(k as int), 16));
        dst
    }

    /// All the data bytes left, see [`line_rest`].
    pub fn rest(&mut self) -> (r: Vec<u8>)
        requires
            old(self).wf(),
        ensures
            final(self).wf(),
            (r@, final(self)@) == line_rest(old(self)@),
    {
        let mut out: Vec<u8> = Vec::new();
        assert(out@ + line_rest(self@).0 =~= line_rest(self@).0);
        loop
            invariant
                self.wf(),
                line_rest(old(self)@) == (out@ + line_rest(self@).0, line_rest(self@).1),
            decreases self.data@.len() - self.pos,
        {
            proof {
                lemma_line_next(self@);
            }
            match self.next() {
                Some(c) => {
                    let ghost prev = out@;
                    out.push(c);
                    assert(prev + (seq![c] + line_rest(self@).0) =~= out@ + line_rest(self@).0);
                },
                None => {
                    assert(out@ + Seq::<u8>::empty() =~= out@);
                    return out;
                },
            }
        }
    }

    /// Skips spaces, see [`field_skip`].
    fn skip_spaces(&mut self) -> (r: Option<u8>)
        requires
            old(self).wf(),
        ensures
            final(self).wf(),
            (r, final(self)@) == field_skip(old(self)@),
    {
        loop
            invariant
                self.wf(),
                field_skip(old(self)@) == field_skip(self@),
            decreases self.data@.len() - self.pos,
        {
            proof {
                lemma_line_next(self@);
            }
            match self.next() {
                Some(c) => {
                    if c != SPACE {
                        return Some(c);
                    }
                },
                None => return None,
            }
        }
    }

    /// Reads up to a comma, see [`field_rest`].
    fn rest_of_field(&mut self) -> (r: Vec<u8>)
        requires
            old(self).wf(),
        ensures
            final(self).wf(),
            (r@, final(self)@) == field_rest(old(self)@),
    {
        let mut out: Vec<u8> = Vec::new();
        assert(out@ + field_rest(self@).0 =~= field_rest(self@).0);
        loop
            invariant
                self.wf(),
                field_rest(old(self)@) == (out@ + field_rest(self@).0, field_rest(self@).1),
            decreases self.data@.len() - self.pos,
        {
            proof {
                lemma_line_next(self@);
            }
            match self.next() {
                Some(c) => {
                    if c == COMMA {
                        assert(out@ + Seq::<u8>::empty() =~= out@);
                        return out;
                    }
                    let ghost prev = out@;
                    out.push(c);
                    assert(prev + (seq![c] + field_rest(self@).0) =~= out@ + field_rest(self@).0);
                },
                None => {
                    assert(out@ + Seq::<u8>::empty() =~= out@);
                    return out;
                },
            }
        }
    }

    /// The next comma separated field, see [`next_field`].
    pub fn next_field(&mut self) -> (r: Option<Vec<u8>>)
        requires
            old(self).wf(),
        ensures
            final(self).wf(),
            (opt_bytes(r), final(self)@) == next_field(old(self)@),
    {
        let mut body: Vec<u8> = Vec::new();
        match self.skip_spaces() {
            Some(c) => {
                if c != COMMA {
                    body.push(c);
                    let mut t = self.rest_of_field();
                    body.append(&mut t);
                }
            },
            None => {},
        }
        if body.len() == 0 {
            if self.peek().is_none() {
                return None;
            } else {
                return Some(Vec::new());
            }
        }
        let mut j = body.len();
        while j > 0 && body[j - 1] == SPACE
            invariant
                j <= body@.len(),
                forall|i: int| j <= i < body@.len() ==> space(#[trigger] body@[i]),
            decreases j,
        {
            j -= 1;
        }
        proof {
            crate::scan::lemma_trail(body@, |c: u8| space(c), (body@.len() - j) as int);
        }
        body.truncate(j);
        Some(body)
    }
}

} // verus!
