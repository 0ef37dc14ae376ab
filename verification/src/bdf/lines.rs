//! One physical line of bulk data as the field readers see it: tabs
//! expanded, letters upper-cased, content ending at column 80, at a `$` or at
//! the line end, and the comment and line ending that follow.
use vstd::prelude::*;

use crate::scan::{count_spaces, lead, padded, space, trail, COMMA, CR, DOLLAR, LF, LOWER_A, LOWER_Z, SPACE, TAB};

verus! {

/// The line ending of a line.
#[derive(Debug, Clone, Copy, PartialEq)]
pub enum EOL {
    CRLF,
    LF,
}

/// The line ending that a line has when none was read.
pub fn default_eol() -> (r: EOL)
    ensures
        r == EOL::CRLF,
{
    EOL::CRLF
}

/// The comment that ends a line, kept in a small inline buffer.
#[verifier::external_body]
#[derive(Debug, PartialEq)]
pub struct Comment {
    inner: smallvec::SmallVec<[u8; 8]>,
}

/// The bytes of a comment.
pub uninterp spec fn comment_bytes(c: Comment) -> Seq<u8>;

impl Comment {
    /// `SmallVec::from_slice`: a comment holding a copy of `bytes`.
    #[verifier::external_body]
    pub(crate) fn from_slice(bytes: &[u8]) -> (c: Comment)
        ensures
            comment_bytes(c) == bytes@,
    {
        Comment { inner: smallvec::SmallVec::from_slice(bytes) }
    }

    /// `SmallVec::as_slice`: the bytes held.
    #[verifier::external_body]
    pub(crate) fn as_slice(&self) -> (r: &[u8])
        ensures
            r@ == comment_bytes(*self),
    {
        self.inner.as_slice()
    }

    /// A copy of the comment's bytes.
    pub fn to_vec(&self) -> (r: Vec<u8>)
        ensures
            r@ == comment_bytes(*self),
    {
        vstd::slice::slice_to_vec(self.as_slice())
    }
}

/// The spaces that a tab in column `col8` (modulo eight) becomes: up to the
/// next column that is a multiple of eight.
pub open spec fn tab_spaces(col8: nat) -> Seq<u8> {
    Seq::new((8 - col8 % 8) as nat, |_i: int| SPACE)
}

/// Tab expansion: a tab becomes spaces up to the next column that is a
/// multiple of eight; every other byte passes through once, unchanged.
/// `col8` is the column of the first byte modulo eight.
pub open spec fn expand(s: Seq<u8>, col8: nat) -> Seq<u8>
    decreases s.len(),
{
    if s.len() == 0 {
        Seq::empty()
    } else if s[0] == TAB {
        tab_spaces(col8) + expand(s.drop_first(), 0)
    } else {
        seq![s[0]] + expand(s.drop_first(), (col8 + 1) % 8)
    }
}

/// Tab expansion leaves no tab; a line without tabs comes out unchanged; and
/// after a tab the column is a multiple of eight.
pub proof fn law_expand_removes_tabs(s: Seq<u8>, col8: nat)
    requires
        col8 < 8,
    ensures
        forall|i: int| 0 <= i < expand(s, col8).len() ==> expand(s, col8)[i] != TAB,
        (forall|i: int| 0 <= i < s.len() ==> s[i] != TAB) ==> expand(s, col8) == s,
        s.len() > 0 && s.last() == TAB ==> (col8 + expand(s, col8).len()) % 8 == 0,
    decreases s.len(),
{
    let e = expand(s, col8);
    if s.len() > 0 {
        let next = if s[0] == TAB {
            0
        } else {
            (col8 + 1) % 8
        };
        let head = if s[0] == TAB {
            tab_spaces(col8)
        } else {
            seq![s[0]]
        };
        law_expand_removes_tabs(s.drop_first(), next);
        let rest = expand(s.drop_first(), next);
        assert(e == head + rest);
        assert forall|i: int| 0 <= i < e.len() implies e[i] != TAB by {
            if i >= head.len() {
                assert(e[i] == rest[i - head.len()]);
            }
        }
        if forall|i: int| 0 <= i < s.len() ==> s[i] != TAB {
            assert forall|i: int| 0 <= i < s.drop_first().len() implies s.drop_first()[i] != TAB by {
                assert(s.drop_first()[i] == s[i + 1]);
            }
            assert(e =~= s);
        }
        if s.last() == TAB {
            if s.len() == 1 {
                assert(s.drop_first().len() == 0);
                assert(rest.len() == 0);
            } else {
                assert(s.drop_first().last() == s.last());
                assert(((next + rest.len()) % 8 == 0));
                if s[0] == TAB {
                    assert((col8 + (8 - col8) + rest.len()) % 8 == 0);
                } else {
                    assert((col8 + 1 + rest.len()) % 8 == ((col8 + 1) % 8 + rest.len()) % 8)
                        by (nonlinear_arith);
                }
            }
        }
    }
}

/// The line with its tabs expanded, see [`expand`].
pub fn expand_tabs(line: &[u8]) -> (r: Vec<u8>)
    ensures
        r@ == expand(line@, 0),
{
    let mut out: Vec<u8> = Vec::new();
    let mut pos: usize = 0;
    let mut col8: usize = 0;
    proof {
        assert(line@.skip(0) =~= line@);
        assert(out@ + expand(line@, 0) =~= expand(line@, 0));
    }
    while pos < line.len()
        invariant
            pos <= line@.len(),
            col8 < 8,
            out@ + expand(line@.skip(pos as int), col8 as nat) == expand(line@, 0),
        decreases line@.len() - pos,
    {
        let ghost rest = line@.skip(pos as int);
        let c = line[pos];
        proof {
            assert(rest.drop_first() =~= line@.skip(pos + 1));
            assert(rest[0] == c);
        }
        let ghost before = out@;
        if c == TAB {
            let mut k: usize = col8;
            while k < 8
                invariant
                    col8 <= k <= 8,
                    out@ == before + Seq::new((k - col8) as nat, |_i: int| SPACE),
                decreases 8 - k,
            {
                out.push(SPACE);
                k += 1;
                assert(out@ =~= before + Seq::new((k - col8) as nat, |_i: int| SPACE));
            }
            assert(out@ =~= before + tab_spaces(col8 as nat));
            assert(out@ + expand(rest.drop_first(), 0) =~= before + expand(rest, col8 as nat));
            col8 = 0;
        } else {
            out.push(c);
            assert(out@ + expand(rest.drop_first(), ((col8 + 1) % 8) as nat) =~= before + expand(
                rest,
                col8 as nat,
            ));
            col8 = (col8 + 1) % 8;
        }
        pos += 1;
    }
    assert(line@.skip(pos as int) =~= Seq::<u8>::empty());
    assert(out@ + Seq::<u8>::empty() =~= out@);
    out
}


/// The state of a line being read: its bytes after tab expansion, the
/// position of the next byte, and the comment and line ending once read.
pub struct ReaderView {
    pub data: Seq<u8>,
    pub pos: nat,
    pub comment: Option<Seq<u8>>,
    pub eol: Option<EOL>,
}

/// Lower case ASCII letters made upper case; other bytes unchanged.
pub open spec fn upcase(c: u8) -> u8 {
    if LOWER_A <= c && c <= LOWER_Z {
        (c - 32) as u8
    } else {
        c
    }
}

/// A comment read from `at` on: the bytes up to the first CR or LF, the
/// position after that CR or LF (or the end), and the line ending found.
pub open spec fn scan_comment(data: Seq<u8>, at: nat) -> (Seq<u8>, nat, Option<EOL>)
    decreases data.len() - at,
{
    if at >= data.len() {
        (Seq::empty(), at, None)
    } else if data[at as int] == CR {
        (Seq::empty(), at + 1, Some(EOL::CRLF))
    } else if data[at as int] == LF {
        (Seq::empty(), at + 1, Some(EOL::LF))
    } else {
        let (c, e, l) = scan_comment(data, at + 1);
        (seq![data[at as int]] + c, e, l)
    }
}

/// The reader after a comment starting with `head` has been read from `at`.
pub open spec fn with_comment(r: ReaderView, head: Seq<u8>, at: nat) -> ReaderView {
    let (c, e, l) = scan_comment(r.data, at);
    ReaderView {
        data: r.data,
        pos: e,
        comment: Some(head + c),
        eol: if l is Some {
            l
        } else {
            r.eol
        },
    }
}

/// One step of the reader. A `$` starts a comment that runs to the line end,
/// a CR or LF ends the data with an empty comment, and the byte in column 80
/// is the last data byte: what follows it is the comment. Data bytes come out
/// upper-cased. At the end of the line nothing changes.
pub open spec fn reader_next(r: ReaderView) -> (Option<u8>, ReaderView) {
    if r.pos >= r.data.len() {
        (None, r)
    } else {
        let c = r.data[r.pos as int];
        let p = r.pos + 1;
        if c == DOLLAR {
            (None, with_comment(r, seq![DOLLAR], p))
        } else if c == LF {
            (None, ReaderView { pos: p, comment: Some(Seq::empty()), eol: Some(EOL::LF), ..r })
        } else if c == CR {
            (None, ReaderView { pos: p, comment: Some(Seq::empty()), eol: Some(EOL::CRLF), ..r })
        } else if r.pos == 79 {
            (Some(upcase(c)), with_comment(r, Seq::empty(), p))
        } else {
            (Some(upcase(c)), ReaderView { pos: p, ..r })
        }
    }
}

/// The next raw byte, if any.
pub open spec fn reader_peek(r: ReaderView) -> Option<u8> {
    if r.pos < r.data.len() {
        Some(r.data[r.pos as int])
    } else {
        None
    }
}

/// Up to `n` data bytes, stopping at the first step that yields none.
pub open spec fn reader_take(r: ReaderView, n: nat) -> (Seq<u8>, ReaderView)
    decreases n,
{
    if n == 0 {
        (Seq::empty(), r)
    } else {
        let (o, r1) = reader_next(r);
        match o {
            None => (Seq::empty(), r1),
            Some(c) => {
                let (rest, r2) = reader_take(r1, (n - 1) as nat);
                (seq![c] + rest, r2)
            },
        }
    }
}

/// A fixed-column field from the bytes read for it: leading spaces dropped,
/// space padded to `n`.
pub open spec fn fixed_field(items: Seq<u8>, n: nat) -> Seq<u8> {
    padded(items.skip(lead(items, |c: u8| space(c)) as int), n)
}

pub proof fn lemma_scan_comment(data: Seq<u8>, at: nat)
    requires
        at <= data.len(),
    ensures
        at <= scan_comment(data, at).1 <= data.len(),
    decreases data.len() - at,
{
    if at < data.len() && data[at as int] != CR && data[at as int] != LF {
        lemma_scan_comment(data, at + 1);
    }
}

pub proof fn lemma_next_advances(r: ReaderView)
    ensures
        reader_next(r).0 is Some ==> reader_next(r).1.pos > r.pos && r.pos < r.data.len()
            && reader_next(r).1.pos <= r.data.len(),
        reader_next(r).1.data == r.data,
        reader_next(r).1.pos >= r.pos,
        reader_next(r).0 is None && reader_next(r).1.pos == r.pos ==> reader_next(r).1 == r
            && r.pos >= r.data.len(),
        r.pos <= r.data.len() ==> reader_next(r).1.pos <= r.data.len(),
{
    if r.pos < r.data.len() {
        lemma_scan_comment(r.data, r.pos + 1);
    }
}

/// Skips the spaces before a comma separated field: the first other data
/// byte, if one comes before the data ends.
pub open spec fn comma_skip(r: ReaderView) -> (Option<u8>, ReaderView)
    decreases r.data.len() - r.pos,
{
    proof {
        lemma_next_advances(r);
    }
    let (o, r1) = reader_next(r);
    match o {
        Some(c) => if c == SPACE {
            comma_skip(r1)
        } else {
            (Some(c), r1)
        },
        None => (None, r1),
    }
}

/// The data bytes up to the next comma (which is read too) or the end of the
/// data.
pub open spec fn comma_rest(r: ReaderView) -> (Seq<u8>, ReaderView)
    decreases r.data.len() - r.pos,
{
    proof {
        lemma_next_advances(r);
    }
    let (o, r1) = reader_next(r);
    match o {
        Some(c) => if c == COMMA {
            (Seq::empty(), r1)
        } else {
            let (t, r2) = comma_rest(r1);
            (seq![c] + t, r2)
        },
        None => (Seq::empty(), r1),
    }
}

/// The bytes of a field before its trailing spaces.
pub open spec fn trim_end(s: Seq<u8>) -> Seq<u8> {
    s.take(s.len() - trail(s, |c: u8| space(c)))
}

/// A comma separated field: leading spaces skipped, the bytes up to the
/// comma, trailing spaces dropped. `None` when the field is empty and nothing
/// is left of the line.
pub open spec fn comma_field(r: ReaderView) -> (Option<Seq<u8>>, ReaderView) {
    let (first, r1) = comma_skip(r);
    let (body, r2) = match first {
        Some(c) => if c == COMMA {
            (Seq::<u8>::empty(), r1)
        } else {
            let (t, r2) = comma_rest(r1);
            (seq![c] + t, r2)
        },
        None => (Seq::<u8>::empty(), r1),
    };
    if body.len() == 0 {
        if reader_peek(r2) is None {
            (None, r2)
        } else {
            (Some(Seq::empty()), r2)
        }
    } else {
        (Some(trim_end(body)), r2)
    }
}

pub proof fn lemma_comma_skip(r: ReaderView)
    ensures
        comma_skip(r).1.data == r.data,
        comma_skip(r).1.pos >= r.pos,
        comma_skip(r).0 is Some ==> comma_skip(r).1.pos > r.pos,
        comma_skip(r).1.pos == r.pos ==> comma_skip(r).1 == r && r.pos >= r.data.len(),
        r.pos <= r.data.len() ==> comma_skip(r).1.pos <= r.data.len(),
    decreases r.data.len() - r.pos,
{
    lemma_next_advances(r);
    let (o, r1) = reader_next(r);
    if let Some(c) = o {
        if c == SPACE {
            lemma_comma_skip(r1);
        }
    }
}

pub proof fn lemma_comma_rest(r: ReaderView)
    ensures
        comma_rest(r).1.data == r.data,
        comma_rest(r).1.pos >= r.pos,
        r.pos <= r.data.len() ==> comma_rest(r).1.pos <= r.data.len(),
    decreases r.data.len() - r.pos,
{
    lemma_next_advances(r);
    let (o, r1) = reader_next(r);
    if let Some(c) = o {
        if c != COMMA {
            lemma_comma_rest(r1);
        }
    }
}

/// A field is only found where the reader moved on.
pub proof fn lemma_comma_field(r: ReaderView)
    ensures
        comma_field(r).1.data == r.data,
        comma_field(r).1.pos >= r.pos,
        comma_field(r).0 is Some ==> comma_field(r).1.pos > r.pos,
        comma_field(r).1.pos == r.pos ==> comma_field(r).1 == r,
        r.pos <= r.data.len() ==> comma_field(r).1.pos <= r.data.len(),
{
    lemma_comma_skip(r);
    let (first, r1) = comma_skip(r);
    if let Some(c) = first {
        if c != COMMA {
            lemma_comma_rest(r1);
        }
    }
}

/// A line being read, see [`ReaderView`].
pub struct LineReader {
    pub data: Vec<u8>,
    pub pos: usize,
    pub comment: Option<Vec<u8>>,
    pub eol: Option<EOL>,
}

pub open spec fn opt_bytes(o: Option<Vec<u8>>) -> Option<Seq<u8>> {
    match o {
        Some(v) => Some(v@),
        None => None,
    }
}

impl View for LineReader {
    type V = ReaderView;

    open spec fn view(&self) -> ReaderView {
        ReaderView {
            data: self.data@,
            pos: self.pos as nat,
            comment: opt_bytes(self.comment),
            eol: self.eol,
        }
    }
}

/// Reads the comment from `at` on, see [`scan_comment`].
fn read_comment(data: &Vec<u8>, at: usize) -> (r: (Vec<u8>, usize, Option<EOL>))
    requires
        at <= data@.len(),
    ensures
        (r.0@, r.1 as nat, r.2) == scan_comment(data@, at as nat),
{
    let mut out: Vec<u8> = Vec::new();
    let mut j = at;
    assert(out@ + scan_comment(data@, at as nat).0 =~= scan_comment(data@, at as nat).0);
    loop
        invariant
            at <= j <= data@.len(),
            scan_comment(data@, at as nat) == (
                out@ + scan_comment(data@, j as nat).0,
                scan_comment(data@, j as nat).1,
                scan_comment(data@, j as nat).2,
            ),
        decreases data@.len() - j,
    {
        if j >= data.len() {
            assert(out@ + Seq::<u8>::empty() =~= out@);
            return (out, j, None);
        }
        let c = data[j];
        if c == CR {
            assert(out@ + Seq::<u8>::empty() =~= out@);
            return (out, j + 1, Some(EOL::CRLF));
        }
        if c == LF {
            assert(out@ + Seq::<u8>::empty() =~= out@);
            return (out, j + 1, Some(EOL::LF));
        }
        let ghost prev = out@;
        out.push(c);
        j += 1;
        assert(prev + (seq![c] + scan_comment(data@, j as nat).0) =~= out@ + scan_comment(
            data@,
            j as nat,
        ).0);
    }
}

pub(crate) fn upcase_exec(c: u8) -> (r: u8)
    ensures
        r == upcase(c),
{
    if LOWER_A <= c && c <= LOWER_Z {
        c - 32
    } else {
        c
    }
}

impl LineReader {
    pub open spec fn wf(&self) -> bool {
        self.pos <= self.data@.len()
    }

    /// A reader at the start of `line`, tabs expanded.
    pub fn new(line: &[u8]) -> (r: LineReader)
        ensures
            r.wf(),
            r@ == (ReaderView { data: expand(line@, 0), pos: 0, comment: None, eol: None }),
    {
        LineReader { data: expand_tabs(line), pos: 0, comment: None, eol: None }
    }

    /// One step, see [`reader_next`].
    pub fn next(&mut self) -> (r: Option<u8>)
        requires
            old(self).wf(),
        ensures
            final(self).wf(),
            (r, final(self)@) == reader_next(old(self)@),
    {
        if self.pos >= self.data.len() {
            return None;
        }
        let c = self.data[self.pos];
        let p = self.pos + 1;
        if c == DOLLAR {
            let (body, e, l) = read_comment(&self.data, p);
            let mut head: Vec<u8> = Vec::new();
            head.push(DOLLAR);
            let ghost b = body@;
            let mut body = body;
            head.append(&mut body);
            assert(head@ =~= seq![DOLLAR] + b);
            proof {
                lemma_scan_comment(self.data@, p as nat);
            }
            self.pos = e;
            self.comment = Some(head);
            if l.is_some() {
                self.eol = l;
            }
            None
        } else if c == LF {
            self.pos = p;
            self.comment = Some(Vec::new());
            self.eol = Some(EOL::LF);
            None
        } else if c == CR {
            self.pos = p;
            self.comment = Some(Vec::new());
            self.eol = Some(EOL::CRLF);
            None
        } else if self.pos == 79 {
            let (body, e, l) = read_comment(&self.data, p);
            proof {
                lemma_scan_comment(self.data@, p as nat);
                assert(Seq::<u8>::empty() + body@ =~= body@);
            }
            self.pos = e;
            self.comment = Some(body);
            if l.is_some() {
                self.eol = l;
            }
            Some(upcase_exec(c))
        } else {
            self.pos = p;
            Some(upcase_exec(c))
        }
    }

    /// The next raw byte, see [`reader_peek`].
    pub fn peek(&self) -> (r: Option<u8>)
        ensures
            r == reader_peek(self@),
    {
        if self.pos < self.data.len() {
            Some(self.data[self.pos])
        } else {
            None
        }
    }

    /// Up to `n` data bytes, see [`reader_take`].
    pub fn take(&mut self, n: usize) -> (r: Vec<u8>)
        requires
            old(self).wf(),
        ensures
            final(self).wf(),
            (r@, final(self)@) == reader_take(old(self)@, n as nat),
            r@.len() <= n,
    {
        let mut out: Vec<u8> = Vec::new();
        let mut k: usize = 0;
        let ghost start = self@;
        assert(out@ + reader_take(start, n as nat).0 =~= reader_take(start, n as nat).0);
        while k < n
            invariant
                self.wf(),
                start == old(self)@,
                k <= n,
                out@.len() == k,
                reader_take(start, n as nat) == (
                    out@ + reader_take(self@, (n - k) as nat).0,
                    reader_take(self@, (n - k) as nat).1,
                ),
            decreases n - k,
        {
            let ghost before = self@;
            match self.next() {
                None => {
                    assert(reader_take(before, (n - k) as nat) == (Seq::<u8>::empty(), self@));
                    assert(out@ + Seq::<u8>::empty() =~= out@);
                    return out;
                },
                Some(c) => {
                    let ghost prev = out@;
                    out.push(c);
                    k += 1;
                    assert(prev + (seq![c] + reader_take(self@, (n - k) as nat).0) =~= out@
                        + reader_take(self@, (n - k) as nat).0);
                },
            }
        }
        assert(out@ + Seq::<u8>::empty() =~= out@);
        out
    }

    /// An eight column field, see [`fixed_field`].
    pub fn take8(&mut self) -> (r: [u8; 8])
        requires
            old(self).wf(),
        ensures
            final(self).wf(),
            r@ == fixed_field(reader_take(old(self)@, 8).0, 8),
            final(self)@ == reader_take(old(self)@, 8).1,
    {
        let items = self.take(8);
        let s = items.as_slice();
        let k = count_spaces(s, 0);
        assert(s@.skip(0) =~= s@);
        let r = crate::scan::pad8(s, k, s.len());
        assert(s@.subrange(k as int, s@.len() as int) =~= s@.skip(k as int));
        r
    }

    /// A sixteen column field, see [`fixed_field`].
    pub fn take16(&mut self) -> (r: [u8; 16])
        requires
            old(self).wf(),
        ensures
            final(self).wf(),
            r@ == fixed_field(reader_take(old(self)@, 16).0, 16),
            final(self)@ == reader_take(old(self)@, 16).1,
    {
        let items = self.take(16);
        let s = items.as_slice();
        let k = count_spaces(s, 0);
        assert(s@.skip(0) =~= s@);
        let mut dst = [SPACE; 16];
        let mut j = k;
        while j < s.len()
            invariant
                k <= j <= s@.len() <= 16,
                forall|i: int| 0 <= i < j - k ==> dst@[i] == s@[k + i],
                forall|i: int| j - k <= i < 16 ==> dst@[i] == SPACE,
            decreases s@.len() - j,
        {
            dst[j - k] = s[j];
            j += 1;
        }
        assert(dst@ =~= padded(s@.skip(k as int), 16));
        dst
    }

    /// Skips spaces, see [`comma_skip`].
    fn skip_spaces(&mut self) -> (r: Option<u8>)
        requires
            old(self).wf(),
        ensures
            final(self).wf(),
            (r, final(self)@) == comma_skip(old(self)@),
    {
        loop
            invariant
                self.wf(),
                comma_skip(old(self)@) == comma_skip(self@),
            decreases self.data@.len() - self.pos,
        {
            let ghost before = self@;
            proof {
                lemma_next_advances(before);
            }
            match self.next() {
                Some(c) => {
                    if c != SPACE {
                        return Some(c);
                    }
                },
                None => return None,
            }
        }
    }

    /// Reads up to a comma, see [`comma_rest`].
    fn rest_of_field(&mut self) -> (r: Vec<u8>)
        requires
            old(self).wf(),
        ensures
            final(self).wf(),
            (r@, final(self)@) == comma_rest(old(self)@),
    {
        let mut out: Vec<u8> = Vec::new();
        assert(out@ + comma_rest(self@).0 =~= comma_rest(self@).0);
        loop
            invariant
                self.wf(),
                comma_rest(old(self)@) == (out@ + comma_rest(self@).0, comma_rest(self@).1),
            decreases self.data@.len() - self.pos,
        {
            let ghost before = self@;
            proof {
                lemma_next_advances(before);
            }
            match self.next() {
                Some(c) => {
                    if c == COMMA {
                        assert(out@ + Seq::<u8>::empty() =~= out@);
                        return out;
                    }
                    let ghost prev = out@;
                    out.push(c);
                    assert(prev + (seq![c] + comma_rest(self@).0) =~= out@ + comma_rest(self@).0);
                },
                None => {
                    assert(out@ + Seq::<u8>::empty() =~= out@);
                    return out;
                },
            }
        }
    }

    /// The next comma separated field, see [`comma_field`].
    pub fn comma_field(&mut self) -> (r: Option<Vec<u8>>)
        requires
            old(self).wf(),
        ensures
            final(self).wf(),
            (opt_bytes(r), final(self)@) == comma_field(old(self)@),
    {
        let mut body: Vec<u8> = Vec::new();
        match self.skip_spaces() {
            Some(c) => {
                if c != COMMA {
                    body.push(c);
                    let mut t = self.rest_of_field();
                    body.append(&mut t);
                }
            },
            None => {},
        }
        if body.len() == 0 {
            if self.peek().is_none() {
                return None;
            } else {
                return Some(Vec::new());
            }
        }
        let mut j = body.len();
        while j > 0 && body[j - 1] == SPACE
            invariant
                j <= body@.len(),
                forall|i: int| j <= i < body@.len() ==> space(#[trigger] body@[i]),
            decreases j,
        {
            j -= 1;
        }
        proof {
            crate::scan::lemma_trail(body@, |c: u8| space(c), (body@.len() - j) as int);
        }
        body.truncate(j);
        Some(body)
    }

    /// Takes the comment out of the reader.
    pub fn take_comment(&mut self) -> (r: Option<Vec<u8>>)
        requires
            old(self).wf(),
        ensures
            final(self).wf(),
            opt_bytes(r) == old(self)@.comment,
            final(self)@ == (ReaderView { comment: None, ..old(self)@ }),
    {
        self.comment.take()
    }
}

} // verus!
