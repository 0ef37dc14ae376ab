//! Splitting a buffer into lines as the deck reader sees them: the content
//! of a line (up to column 80, a `$`, a CR or an LF) and what trails it up
//! to the next line.
use vstd::prelude::*;

use crate::scan::{CR, DOLLAR, LF, TAB};

verus! {

/// A deck read from a buffer. It holds no cards yet.
#[derive(Debug, PartialEq)]
pub struct Deck<'a> {
    pub phantom: std::marker::PhantomData<&'a ()>,
}

impl<'a> Deck<'a> {
    pub fn new() -> (r: Self)
        ensures
            r == (Deck::<'a> { phantom: std::marker::PhantomData }),
    {
        Self { phantom: std::marker::PhantomData }
    }
}

/// The length of the content of a line starting at `i`, `j` being the
/// column of `buf[i]` with tabs expanded to the next multiple of eight: it
/// ends at column 80 or before a `$`, a CR or an LF.
pub open spec fn content_end(buf: Seq<u8>, i: nat, j: nat) -> nat
    decreases buf.len() - i,
{
    if i >= buf.len() {
        buf.len()
    } else {
        let c = buf[i as int];
        if j == 80 || c == DOLLAR || c == CR || c == LF {
            i
        } else if c == TAB {
            content_end(buf, i + 1, (j + 8 - j % 8) as nat)
        } else {
            content_end(buf, i + 1, j + 1)
        }
    }
}

/// The length of what trails the content: up to and with the first LF, or
/// the first CR (and an LF right after it), or to the end.
pub open spec fn trailing_end(buf: Seq<u8>, i: nat) -> nat
    decreases buf.len() - i,
{
    if i >= buf.len() {
        buf.len()
    } else if buf[i as int] == LF {
        i + 1
    } else if buf[i as int] == CR {
        if i + 1 < buf.len() && buf[i + 1int] == LF {
            i + 2
        } else {
            i + 1
        }
    } else {
        trailing_end(buf, i + 1)
    }
}

proof fn lemma_content_end(buf: Seq<u8>, i: nat, j: nat)
    requires
        i <= buf.len(),
    ensures
        i <= content_end(buf, i, j) <= buf.len(),
    decreases buf.len() - i,
{
    if i < buf.len() {
        let c = buf[i as int];
        if !(j == 80 || c == DOLLAR || c == CR || c == LF) {
            if c == TAB {
                lemma_content_end(buf, i + 1, (j + 8 - j % 8) as nat);
            } else {
                lemma_content_end(buf, i + 1, j + 1);
            }
        }
    }
}

proof fn lemma_trailing_end(buf: Seq<u8>, i: nat)
    requires
        i <= buf.len(),
    ensures
        i <= trailing_end(buf, i) <= buf.len(),
        i < buf.len() ==> i < trailing_end(buf, i),
    decreases buf.len() - i,
{
    if i < buf.len() && buf[i as int] != LF && buf[i as int] != CR {
        lemma_trailing_end(buf, i + 1);
    }
}

/// The next line of `buf`: its content and what trails it, or `None` once
/// nothing is left.
pub open spec fn next_line(buf: Seq<u8>) -> Option<(Seq<u8>, Seq<u8>)> {
    if buf.len() == 0 {
        None
    } else {
        let c = content_end(buf, 0, 0);
        let rest = buf.skip(c as int);
        let t = trailing_end(rest, 0);
        if c == 0 && t == 0 {
            None
        } else {
            Some((buf.take(c as int), rest.take(t as int)))
        }
    }
}

proof fn lemma_trailing_stop(buf: Seq<u8>, i: nat)
    requires
        i <= buf.len(),
    ensures
        trailing_end(buf, i) < buf.len() ==> trailing_end(buf, i) > i && (buf[trailing_end(buf, i) - 1]
            == LF || buf[trailing_end(buf, i) - 1] == CR),
    decreases buf.len() - i,
{
    if i < buf.len() && buf[i as int] != LF && buf[i as int] != CR {
        lemma_trailing_stop(buf, i + 1);
    }
}

/// What one line takes of `buf`: its content and trailing bytes, at least
/// one byte in all, and no more than the buffer holds.
pub proof fn lemma_next_line(buf: Seq<u8>)
    ensures
        next_line(buf) is None <==> buf.len() == 0,
        next_line(buf) matches Some((c, t)) ==> 0 < c.len() + t.len() <= buf.len() && buf.take(
            (c.len() + t.len()) as int,
        ) == c + t,
        next_line(buf) matches Some((c, t)) ==> (c.len() + t.len() < buf.len() ==> t.len() > 0 && (
        t.last() == LF || t.last() == CR)),
{
    if buf.len() > 0 {
        lemma_content_end(buf, 0, 0);
        let ce = content_end(buf, 0, 0);
        let rest = buf.skip(ce as int);
        lemma_trailing_end(rest, 0);
        lemma_trailing_stop(rest, 0);
        let te = trailing_end(rest, 0);
        assert(buf.take((ce + te) as int) =~= buf.take(ce as int) + rest.take(te as int));
        if te < rest.len() {
            assert(rest.take(te as int).last() == rest[te - 1]);
        }
    }
}

/// All the lines of `buf`, one after another.
pub open spec fn all_lines(buf: Seq<u8>) -> Seq<(Seq<u8>, Seq<u8>)>
    decreases buf.len(),
{
    proof {
        lemma_next_line(buf);
    }
    match next_line(buf) {
        None => Seq::empty(),
        Some((c, t)) => seq![(c, t)] + all_lines(buf.skip((c.len() + t.len()) as int)),
    }
}

/// The pieces of lines put back together.
pub open spec fn joined(ls: Seq<(Seq<u8>, Seq<u8>)>) -> Seq<u8>
    decreases ls.len(),
{
    if ls.len() == 0 {
        Seq::empty()
    } else {
        ls[0].0 + ls[0].1 + joined(ls.drop_first())
    }
}

/// A buffer splits into lines whose contents and trailing bytes, put back
/// together, give the buffer again; no line is empty; and every line but the
/// last ends with an LF or a CR.
pub proof fn law_lines_rebuild_buffer(buf: Seq<u8>)
    ensures
        joined(all_lines(buf)) == buf,
        forall|i: int|
            0 <= i < all_lines(buf).len() ==> (#[trigger] all_lines(buf)[i]).0.len() + all_lines(
                buf,
            )[i].1.len() > 0,
        forall|i: int|
            0 <= i < all_lines(buf).len() - 1 ==> (#[trigger] all_lines(buf)[i]).1.len() > 0 && (
            all_lines(buf)[i].1.last() == LF || all_lines(buf)[i].1.last() == CR),
    decreases buf.len(),
{
    lemma_next_line(buf);
    let ls = all_lines(buf);
    if let Some((c, t)) = next_line(buf) {
        let n = (c.len() + t.len()) as int;
        let rest = buf.skip(n);
        law_lines_rebuild_buffer(rest);
        let rs = all_lines(rest);
        assert(ls == seq![(c, t)] + rs);
        assert(ls.drop_first() =~= rs);
        assert(joined(ls) == c + t + joined(rs));
        assert(buf =~= buf.take(n) + rest);
        assert(joined(ls) =~= buf);
        assert forall|i: int| 0 <= i < ls.len() implies (#[trigger] ls[i]).0.len() + ls[i].1.len() > 0 by {
            if i > 0 {
                assert(ls[i] == rs[i - 1]);
            }
        }
        assert forall|i: int| 0 <= i < ls.len() - 1 implies (#[trigger] ls[i]).1.len() > 0 && (
        ls[i].1.last() == LF || ls[i].1.last() == CR) by {
            if i > 0 {
                assert(ls[i] == rs[i - 1]);
            } else {
                lemma_next_line(rest);
                assert(rs.len() > 0);
                assert(rest.len() > 0);
            }
        }
    } else {
        assert(ls =~= Seq::<(Seq<u8>, Seq<u8>)>::empty());
        assert(buf =~= Seq::<u8>::empty());
    }
}

/// The lines of a buffer, see [`next_line`].
#[derive(Debug, PartialEq)]
pub struct LinesIterator<'a> {
    pub buffer: &'a [u8],
}

impl<'a> LinesIterator<'a> {
    pub fn new(buffer: &'a [u8]) -> (r: Self)
        ensures
            r.buffer@ == buffer@,
    {
        Self { buffer }
    }

    /// The first `i` bytes; the rest stays.
    pub fn take(&mut self, i: usize) -> (line: &'a [u8])
        requires
            i <= old(self).buffer@.len(),
        ensures
            line@ == old(self).buffer@.take(i as int),
            final(self).buffer@ == old(self).buffer@.skip(i as int),
    {
        let n = self.buffer.len();
        let line = vstd::slice::slice_subrange(self.buffer, 0, i);
        self.buffer = vstd::slice::slice_subrange(self.buffer, i, n);
        assert(line@ =~= old(self).buffer@.take(i as int));
        assert(self.buffer@ =~= old(self).buffer@.skip(i as int));
        line
    }

    /// The content of the line, see [`content_end`].
    pub fn read_line_contents(&mut self) -> (line: &'a [u8])
        ensures
            line@ == old(self).buffer@.take(content_end(old(self).buffer@, 0, 0) as int),
            final(self).buffer@ == old(self).buffer@.skip(
                content_end(old(self).buffer@, 0, 0) as int,
            ),
    {
        let n = self.buffer.len();
        let mut i: usize = 0;
        let mut j: usize = 0;
        while i < n
            invariant
                i <= n == self.buffer@.len(),
                j <= 80,
                self.buffer == old(self).buffer,
                content_end(self.buffer@, 0, 0) == content_end(self.buffer@, i as nat, j as nat),
            decreases n - i,
        {
            let c = self.buffer[i];
            if j == 80 || c == DOLLAR || c == CR || c == LF {
                return self.take(i);
            } else if c == TAB {
                j = j + 8 - (j % 8);
            } else {
                j = j + 1;
            }
            i += 1;
        }
        self.take(n)
    }

    /// What trails the content, see [`trailing_end`].
    pub fn read_line_trailing(&mut self) -> (line: &'a [u8])
        ensures
            line@ == old(self).buffer@.take(trailing_end(old(self).buffer@, 0) as int),
            final(self).buffer@ == old(self).buffer@.skip(trailing_end(old(self).buffer@, 0) as int),
    {
        let n = self.buffer.len();
        let mut i: usize = 0;
        while i < n
            invariant
                i <= n == self.buffer@.len(),
                self.buffer == old(self).buffer,
                trailing_end(self.buffer@, 0) == trailing_end(self.buffer@, i as nat),
            decreases n - i,
        {
            let c = self.buffer[i];
            if c == LF {
                return self.take(i + 1);
            } else if c == CR {
                if i + 1 < n && self.buffer[i + 1] == LF {
                    return self.take(i + 2);
                } else {
                    return self.take(i + 1);
                }
            }
            i += 1;
        }
        self.take(n)
    }

    /// The next line, see [`next_line`].
    pub fn next(&mut self) -> (r: Option<(&'a [u8], &'a [u8])>)
        ensures
            match r {
                None => next_line(old(self).buffer@) is None,
                Some((c, t)) => next_line(old(self).buffer@) == Some((c@, t@)) && final(self).buffer@
                    == old(self).buffer@.skip((c@.len() + t@.len()) as int) && all_lines(
                    old(self).buffer@,
                ) == seq![(c@, t@)] + all_lines(final(self).buffer@),
            },
    {
        if self.buffer.len() == 0 {
            return None;
        }
        let ghost buf = self.buffer@;
        proof {
            lemma_content_end(buf, 0, 0);
        }
        let contents = self.read_line_contents();
        let ghost rest = self.buffer@;
        proof {
            lemma_trailing_end(rest, 0);
        }
        let trailing = self.read_line_trailing();
        if contents.len() == 0 && trailing.len() == 0 {
            None
        } else {
            assert(self.buffer@ =~= buf.skip((contents@.len() + trailing@.len()) as int));
            Some((contents, trailing))
        }
    }
}

/// A deck reader over a buffer: its lines and the deck read so far.
pub struct DeckParser<'a> {
    pub lines: LinesIterator<'a>,
    pub deck: Deck<'a>,
}

impl<'a> DeckParser<'a> {
    pub fn new(buffer: &'a [u8]) -> (r: DeckParser<'a>)
        ensures
            r.lines.buffer@ == buffer@,
            r.deck == (Deck::<'a> { phantom: std::marker::PhantomData }),
    {
        DeckParser { lines: LinesIterator::new(buffer), deck: Deck::new() }
    }
}

} // verus!
