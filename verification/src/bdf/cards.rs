//! Cards: lines joined through their continuation names, and the reader of a
//! whole bulk data file.
use vstd::prelude::*;

use std::collections::HashMap;

use super::error::{Error, ErrorView};
use super::field::{spec_first_field, CardType, ContinuationField, Field, FieldView, FirstFieldKind};
use super::lines::{
    comma_field, comment_bytes, default_eol, expand, lemma_comma_field, Comment, ReaderView, EOL,
};
use super::parser::{
    bulk_result, comma_fields, comma_finish, comma_next, comma_trailing, comma_width_field,
    data_view, line_result, parse_fixed_line, spec_bulk_line, spec_fixed_line, to_bulk_line,
    BulkLine, CommaLine, CommaView, FieldData, LineView,
};
use super::parser::default_first;
use crate::scan::{padded, COMMA, LF};

verus! {

/// The fields of a card, kept in a small inline buffer.
#[verifier::external_body]
#[derive(Debug, PartialEq)]
pub struct FieldList {
    inner: smallvec::SmallVec<[Field; 16]>,
}

/// The fields a [`FieldList`] holds.
pub uninterp spec fn field_items(l: FieldList) -> Seq<FieldView>;

impl FieldList {
    /// `SmallVec::from_slice`: a list holding copies of `fields`.
    #[verifier::external_body]
    fn from_slice(fields: &[Field]) -> (l: FieldList)
        ensures
            field_items(l) == fields@.map_values(|f: Field| f@),
    {
        FieldList { inner: smallvec::SmallVec::from_slice(fields) }
    }

    /// `SmallVec::extend_from_slice`: appends copies of `fields`.
    #[verifier::external_body]
    fn extend_from_slice(&mut self, fields: &[Field])
        ensures
            field_items(*final(self)) == field_items(*old(self)) + fields@.map_values(|f: Field| f@),
    {
        self.inner.extend_from_slice(fields)
    }

    /// `SmallVec::as_slice`: the fields held.
    #[verifier::external_body]
    pub(crate) fn as_slice(&self) -> (r: &[Field])
        ensures
            r@.map_values(|f: Field| f@) == field_items(*self),
    {
        self.inner.as_slice()
    }
}

/// The name and fields of a card.
#[derive(Debug, PartialEq)]
pub struct BulkCardData {
    pub first: CardType,
    pub fields: FieldList,
}

/// A card: its name and fields (none for a line without fields), the comment
/// and line ending of its first line, and the bytes of its first line.
#[derive(Debug, PartialEq)]
pub struct BulkCard {
    pub data: Option<BulkCardData>,
    pub comment: Comment,
    pub eol: EOL,
    pub original: Vec<u8>,
}

/// The model of a [`BulkCard`].
pub struct CardView {
    pub data: Option<(Seq<u8>, Seq<FieldView>)>,
    pub comment: Seq<u8>,
    pub eol: EOL,
    pub original: Seq<u8>,
}

impl View for BulkCard {
    type V = CardView;

    open spec fn view(&self) -> CardView {
        CardView {
            data: match self.data {
                Some(d) => Some((d.first.0@, field_items(d.fields))),
                None => None,
            },
            comment: comment_bytes(self.comment),
            eol: self.eol,
            original: self.original@,
        }
    }
}

impl BulkCard {
    /// The bytes of the card's first line.
    pub fn original(&self) -> (r: &[u8])
        ensures
            r@ == self@.original,
    {
        self.original.as_slice()
    }

    /// The card's name, if it has fields.
    pub fn card_type(&self) -> (r: Option<[u8; 7]>)
        ensures
            match self@.data {
                Some((t, _)) => r matches Some(a) && a@ == t,
                None => r is None,
            },
    {
        match &self.data {
            Some(d) => Some(d.first.0),
            None => None,
        }
    }

    /// The card's fields; none for a line without fields.
    pub fn fields(&self) -> (r: &[Field])
        ensures
            r@.map_values(|f: Field| f@) == match self@.data {
                Some((_, fs)) => fs,
                None => Seq::empty(),
            },
    {
        match &self.data {
            Some(d) => d.fields.as_slice(),
            None => {
                let r: &[Field] = &[];
                assert(r@.map_values(|f: Field| f@) =~= Seq::<FieldView>::empty());
                r
            },
        }
    }

    fn append_fields(&mut self, fields: &[Field])
        requires
            old(self)@.data is Some,
        ensures
            final(self)@ == (CardView {
                data: Some(
                    (
                        old(self)@.data.unwrap().0,
                        old(self)@.data.unwrap().1 + fields@.map_values(|f: Field| f@),
                    ),
                ),
                ..old(self)@
            }),
    {
        match self.data.take() {
            Some(d) => {
                let mut d = d;
                d.fields.extend_from_slice(fields);
                self.data = Some(d);
            },
            None => {},
        }
    }
}

/// The key under which a continuation name is looked up: its seven bytes,
/// first byte lowest.
pub open spec fn key7(c: Seq<u8>) -> u64 {
    (c[0] as u64) | ((c[1] as u64) << 8u64) | ((c[2] as u64) << 16u64) | ((c[3] as u64) << 24u64)
        | ((c[4] as u64) << 32u64) | ((c[5] as u64) << 40u64) | ((c[6] as u64) << 48u64)
}

fn continuation_key(c: &[u8; 7]) -> (r: u64)
    ensures
        r == key7(c@),
{
    (c[0] as u64) | ((c[1] as u64) << 8u64) | ((c[2] as u64) << 16u64) | ((c[3] as u64) << 24u64)
        | ((c[4] as u64) << 32u64) | ((c[5] as u64) << 40u64) | ((c[6] as u64) << 48u64)
}

/// Two continuation names share a key only if they are the same name.
pub proof fn lemma_key7_injective(a: Seq<u8>, b: Seq<u8>)
    requires
        a.len() == 7,
        b.len() == 7,
        key7(a) == key7(b),
    ensures
        a == b,
{
    let (a0, a1, a2, a3, a4, a5, a6) = (a[0], a[1], a[2], a[3], a[4], a[5], a[6]);
    let (b0, b1, b2, b3, b4, b5, b6) = (b[0], b[1], b[2], b[3], b[4], b[5], b[6]);
    assert(a0 == b0 && a1 == b1 && a2 == b2 && a3 == b3 && a4 == b4 && a5 == b5 && a6 == b6)
        by (bit_vector)
        requires
            (a0 as u64) | ((a1 as u64) << 8u64) | ((a2 as u64) << 16u64) | ((a3 as u64) << 24u64)
                | ((a4 as u64) << 32u64) | ((a5 as u64) << 40u64) | ((a6 as u64) << 48u64) == (
            b0 as u64) | ((b1 as u64) << 8u64) | ((b2 as u64) << 16u64) | ((b3 as u64) << 24u64)
                | ((b4 as u64) << 32u64) | ((b5 as u64) << 40u64) | ((b6 as u64) << 48u64),
    ;
    assert(a =~= b);
}

/// Cards read so far and, for each open continuation name (by its key), the
/// card that a line starting with that name continues.
pub struct BuildView {
    pub cards: Seq<CardView>,
    pub conts: Map<u64, usize>,
}

/// Every open continuation refers to a card with fields.
pub open spec fn build_wf(w: BuildView) -> bool {
    forall|k: u64| #[trigger]
        w.conts.contains_key(k) ==> w.conts[k] < w.cards.len() && w.cards[w.conts[k] as int].data is Some
}

/// The line ending a card gets: the one read, CRLF where none was.
pub open spec fn eol_or_default(e: Option<EOL>) -> EOL {
    match e {
        Some(e) => e,
        None => EOL::CRLF,
    }
}

/// Adding a line: a line without fields is kept as a card of its own; a line
/// with a card name starts a card and opens its trailing continuation name
/// for it; a continuation line appends its fields to the card its name is
/// open for, closes that name and opens its own trailing name for the card.
pub open spec fn add_line(w: BuildView, l: LineView<FieldView>) -> Result<BuildView, ErrorView> {
    match l.data {
        None => Ok(
            BuildView {
                cards: w.cards.push(
                    CardView { data: None, comment: l.comment, eol: eol_or_default(l.eol), original: l.original },
                ),
                conts: w.conts,
            },
        ),
        Some(d) => if d.first.0 {
            Ok(
                BuildView {
                    cards: w.cards.push(
                        CardView {
                            data: Some((d.first.1, d.fields)),
                            comment: l.comment,
                            eol: eol_or_default(l.eol),
                            original: l.original,
                        },
                    ),
                    conts: w.conts.insert(key7(d.trailing), w.cards.len() as usize),
                },
            )
        } else {
            let k = key7(d.first.1);
            if !w.conts.contains_key(k) {
                Err(ErrorView::UnmatchedContinuation(d.first.1))
            } else {
                let i = w.conts[k];
                let c = w.cards[i as int];
                Ok(
                    BuildView {
                        cards: w.cards.update(
                            i as int,
                            CardView {
                                data: Some((c.data.unwrap().0, c.data.unwrap().1 + d.fields)),
                                ..c
                            },
                        ),
                        conts: w.conts.remove(k).insert(key7(d.trailing), i),
                    },
                )
            }
        },
    }
}

/// Cards being assembled, see [`BuildView`].
pub struct CardBuilder {
    cards: Vec<BulkCard>,
    conts: HashMap<u64, usize>,
}

impl View for CardBuilder {
    type V = BuildView;

    closed spec fn view(&self) -> BuildView {
        BuildView { cards: self.cards@.map_values(|c: BulkCard| c@), conts: self.conts@ }
    }
}

impl CardBuilder {
    pub open spec fn wf(&self) -> bool {
        build_wf(self@)
    }

    pub fn new() -> (b: CardBuilder)
        ensures
            b.wf(),
            b@ == (BuildView { cards: Seq::empty(), conts: Map::empty() }),
    {
        let b = CardBuilder { cards: Vec::new(), conts: HashMap::new() };
        assert(b@.cards =~= Seq::<CardView>::empty());
        b
    }

    /// The cards assembled.
    pub fn into_cards(self) -> (r: Vec<BulkCard>)
        ensures
            r@.map_values(|c: BulkCard| c@) == self@.cards,
    {
        self.cards
    }

    fn push_card(&mut self, card: BulkCard)
        requires
            old(self).wf(),
        ensures
            final(self)@ == (BuildView { cards: old(self)@.cards.push(card@), conts: old(self)@.conts }),
            final(self).cards@.len() == old(self).cards@.len() + 1,
    {
        let ghost before = self.cards@;
        self.cards.push(card);
        proof {
            assert(self.cards@.map_values(|c: BulkCard| c@) =~= before.map_values(|c: BulkCard| c@).push(
                card@,
            ));
        }
    }

    /// Adds one line, see [`add_line`].
    pub fn add_line(&mut self, line: BulkLine) -> (r: Result<(), Error>)
        requires
            old(self).wf(),
        ensures
            final(self).wf(),
            match r {
                Ok(()) => add_line(old(self)@, line@) == Ok::<BuildView, ErrorView>(final(self)@),
                Err(e) => add_line(old(self)@, line@) == Err::<BuildView, ErrorView>(e@),
            },
    {
        broadcast use vstd::std_specs::hash::group_hash_axioms;

        let BulkLine { original, comment, eol, data } = line;
        let eol = match eol {
            Some(e) => e,
            None => default_eol(),
        };
        let (first, fields, trailing): (_, &[Field], ContinuationField) = match &data {
            None => {
                self.push_card(BulkCard { data: None, comment, eol, original });
                return Ok(());
            },
            Some(FieldData::Single(f, a, t)) => (*f, vstd::array::array_as_slice(a), *t),
            Some(FieldData::Double(f, a, t)) => (*f, vstd::array::array_as_slice(a), *t),
        };
        proof {
            assert(data_view(data.unwrap()).fields == fields@.map_values(|f: Field| f@));
        }
        match first.kind {
            FirstFieldKind::Text(name) => {
                let n = self.cards.len();
                let key = continuation_key(&trailing.0);
                let card = BulkCard {
                    data: Some(BulkCardData { first: name, fields: FieldList::from_slice(fields) }),
                    comment,
                    eol,
                    original,
                };
                self.push_card(card);
                self.conts.insert(key, n);
                Ok(())
            },
            FirstFieldKind::Continuation(c) => {
                let key = continuation_key(&c.0);
                let ghost conts0 = self.conts@;
                let index = match self.conts.remove(&key) {
                    Some(i) => i,
                    None => {
                        return Err(Error::UnmatchedContinuation(c.0));
                    },
                };
                assert(conts0.contains_key(key));
                let ghost before = self.cards@.map_values(|c: BulkCard| c@);
                self.cards[index].append_fields(fields);
                let next = continuation_key(&trailing.0);
                self.conts.insert(next, index);
                proof {
                    assert(self.cards@.map_values(|c: BulkCard| c@) =~= before.update(
                        index as int,
                        CardView {
                            data: Some(
                                (
                                    before[index as int].data.unwrap().0,
                                    before[index as int].data.unwrap().1 + fields@.map_values(
                                        |f: Field| f@,
                                    ),
                                ),
                            ),
                            ..before[index as int]
                        },
                    ));
                }
                Ok(())
            },
        }
    }
}


/// A continuation line whose name is open for a card appends its fields to
/// that card and to nothing else, and moves the card's open name to the
/// line's trailing name; no card is added.
pub proof fn law_continuation_appends(w: BuildView, l: LineView<FieldView>)
    requires
        build_wf(w),
        l.data matches Some(d) && !d.first.0 && w.conts.contains_key(key7(d.first.1)),
    ensures
        ({
            let d = l.data.unwrap();
            let i = w.conts[key7(d.first.1)] as int;
            &&& add_line(w, l) matches Ok(w2) && w2.cards.len() == w.cards.len()
                && w2.cards[i].data == Some((w.cards[i].data.unwrap().0, w.cards[i].data.unwrap().1 + d.fields))
                && (forall|j: int| 0 <= j < w.cards.len() && j != i ==> w2.cards[j] == w.cards[j])
                && w2.conts.contains_key(key7(d.trailing)) && w2.conts[key7(d.trailing)] == i
        }),
{
}

/// A continuation line whose name is not open for any card is refused with
/// that name.
pub proof fn law_unmatched_continuation(w: BuildView, l: LineView<FieldView>)
    requires
        l.data matches Some(d) && !d.first.0 && !w.conts.contains_key(key7(d.first.1)),
    ensures
        add_line(w, l) == Err::<BuildView, ErrorView>(ErrorView::UnmatchedContinuation(l.data.unwrap().first.1)),
{
}

/// A line with a card name starts a new card after all others, with the
/// line's fields, and opens the line's trailing name for it; a line without
/// fields is kept as a card of its own, with its comment.
pub proof fn law_new_cards_come_last(w: BuildView, l: LineView<FieldView>)
    requires
        l.data is None || l.data.unwrap().first.0,
        w.cards.len() <= usize::MAX,
    ensures
        add_line(w, l) matches Ok(w2) && w2.cards.len() == w.cards.len() + 1 && w2.cards.drop_last()
            == w.cards && w2.cards.last().comment == l.comment && w2.cards.last().original
            == l.original && match l.data {
            Some(d) => w2.cards.last().data == Some((d.first.1, d.fields)) && w2.conts[key7(d.trailing)]
                == w.cards.len(),
            None => w2.cards.last().data is None && w2.conts == w.conts,
        },
{
    if let Ok(w2) = add_line(w, l) {
        assert(w2.cards.drop_last() =~= w.cards);
    }
}

/// Adding a line keeps every open continuation name pointing at a card with
/// fields.
pub proof fn law_add_line_keeps_wf(w: BuildView, l: LineView<FieldView>)
    requires
        build_wf(w),
        w.cards.len() < usize::MAX,
    ensures
        add_line(w, l) matches Ok(w2) ==> build_wf(w2),
{
    if let Ok(w2) = add_line(w, l) {
        assert forall|k: u64| #[trigger] w2.conts.contains_key(k) implies w2.conts[k] < w2.cards.len()
            && w2.cards[w2.conts[k] as int].data is Some by {
            if let Some(d) = l.data {
                if !d.first.0 {
                    let k0 = key7(d.first.1);
                    let i = w.conts[k0];
                    if k != key7(d.trailing) {
                        assert(w.conts.contains_key(k));
                    }
                } else if k != key7(d.trailing) {
                    assert(w.conts.contains_key(k));
                }
            } else {
                assert(w.conts.contains_key(k));
            }
        }
    }
}

/// Adding lines in turn, stopping at the first refused.
pub open spec fn add_lines(w: BuildView, ls: Seq<LineView<FieldView>>) -> Result<BuildView, ErrorView>
    decreases ls.len(),
{
    if ls.len() == 0 {
        Ok(w)
    } else {
        match add_lines(w, ls.drop_last()) {
            Err(e) => Err(e),
            Ok(w1) => add_line(w1, ls.last()),
        }
    }
}

proof fn lemma_add_lines_step(w: BuildView, ls: Seq<LineView<FieldView>>, n: int)
    requires
        0 <= n < ls.len(),
    ensures
        add_lines(w, ls.take(n + 1)) == match add_lines(w, ls.take(n)) {
            Err(e) => Err(e),
            Ok(w1) => add_line(w1, ls[n]),
        },
{
    assert(ls.take(n + 1).drop_last() =~= ls.take(n));
    assert(ls.take(n + 1).last() == ls[n]);
}

/// Where the first `n` lines are all taken, so are the first `m`; each line
/// adds at most one card and keeps the open names pointing at cards.
proof fn lemma_add_lines_prefix(w: BuildView, ls: Seq<LineView<FieldView>>, m: int, n: int)
    requires
        build_wf(w),
        w.cards.len() + ls.len() < usize::MAX,
        0 <= m <= n <= ls.len(),
        add_lines(w, ls.take(n)) is Ok,
    ensures
        add_lines(w, ls.take(m)) is Ok,
        add_lines(w, ls.take(m)) matches Ok(wm) ==> build_wf(wm) && wm.cards.len() <= w.cards.len() + m,
    decreases n,
{
    if m < n {
        lemma_add_lines_step(w, ls, n - 1);
        lemma_add_lines_prefix(w, ls, m, n - 1);
    } else if n > 0 {
        lemma_add_lines_step(w, ls, n - 1);
        lemma_add_lines_prefix(w, ls, n - 1, n - 1);
        let w1 = add_lines(w, ls.take(n - 1))->Ok_0;
        law_add_line_keeps_wf(w1, ls[n - 1]);
    } else {
        assert(ls.take(0) =~= Seq::<LineView<FieldView>>::empty());
    }
}

/// After the card of line `i` is started and before line `j`, the card stays
/// as line `i` made it, its name `c` stays open for it, and no other name is
/// open for it.
proof fn lemma_card_waits(w: BuildView, ls: Seq<LineView<FieldView>>, i: int, j: int, m: int, idx: int, c: u64)
    requires
        build_wf(w),
        w.cards.len() + ls.len() < usize::MAX,
        0 <= i < m <= j < ls.len(),
        add_lines(w, ls.take(j + 1)) is Ok,
        ls[i].data matches Some(d1) && d1.first.0 && key7(d1.trailing) == c,
        idx == add_lines(w, ls.take(i))->Ok_0.cards.len(),
        forall|q: int| #![trigger ls[q]]
            i < q < j ==> (ls[q].data matches Some(d) ==> key7(d.trailing) != c && (d.first.0 || key7(
                d.first.1,
            ) != c)),
    ensures
        ({
            let wm = add_lines(w, ls.take(m))->Ok_0;
            let d1 = ls[i].data.unwrap();
            &&& idx < wm.cards.len()
            &&& wm.cards[idx].data == Some((d1.first.1, d1.fields))
            &&& wm.conts.contains_key(c) && wm.conts[c] == idx
            &&& forall|k: u64| wm.conts.contains_key(k) && k != c ==> wm.conts[k] != idx
        }),
    decreases m,
{
    lemma_add_lines_prefix(w, ls, m, j + 1);
    lemma_add_lines_prefix(w, ls, m - 1, j + 1);
    lemma_add_lines_step(w, ls, m - 1);
    let wp = add_lines(w, ls.take(m - 1))->Ok_0;
    let wm = add_lines(w, ls.take(m))->Ok_0;
    if m == i + 1 {
        let d1 = ls[i].data.unwrap();
        assert(wm.cards[idx] == CardView {
            data: Some((d1.first.1, d1.fields)),
            comment: ls[i].comment,
            eol: eol_or_default(ls[i].eol),
            original: ls[i].original,
        });
        assert forall|k: u64| wm.conts.contains_key(k) && k != c implies wm.conts[k] != idx by {
            assert(wp.conts.contains_key(k));
        }
    } else {
        lemma_card_waits(w, ls, i, j, m - 1, idx, c);
        let l = ls[m - 1];
        assert(i < m - 1 < j);
        match l.data {
            None => {},
            Some(d) => {
                if d.first.0 {
                    assert forall|k: u64| wm.conts.contains_key(k) && k != c implies wm.conts[k] != idx by {
                        if k != key7(d.trailing) {
                            assert(wp.conts.contains_key(k));
                        }
                    }
                } else {
                    let k0 = key7(d.first.1);
                    assert(k0 != c);
                    assert(wp.conts[k0] != idx);
                    assert forall|k: u64| wm.conts.contains_key(k) && k != c implies wm.conts[k] != idx by {
                        if k != key7(d.trailing) {
                            assert(wp.conts.contains_key(k));
                        }
                    }
                }
            },
        }
    }
}

/// Over a whole run of lines: a card started by line `i` with trailing name
/// `c`, and a later line `j` that continues `c`, with no line between them
/// that ends with or continues `c`, make one card: it holds the fields of
/// line `i` then those of line `j`, and line `j` adds no card of its own.
pub proof fn law_card_joins_continuation(w: BuildView, ls: Seq<LineView<FieldView>>, i: int, j: int)
    requires
        build_wf(w),
        w.cards.len() + ls.len() < usize::MAX,
        0 <= i < j < ls.len(),
        add_lines(w, ls.take(j + 1)) is Ok,
        ls[i].data matches Some(d1) && d1.first.0,
        ls[j].data matches Some(d2) && !d2.first.0 && key7(d2.first.1) == key7(ls[i].data.unwrap().trailing),
        forall|q: int| #![trigger ls[q]]
            i < q < j ==> (ls[q].data matches Some(d) ==> key7(d.trailing) != key7(ls[i].data.unwrap().trailing)
                && (d.first.0 || key7(d.first.1) != key7(ls[i].data.unwrap().trailing))),
    ensures
        ({
            let idx = add_lines(w, ls.take(i))->Ok_0.cards.len() as int;
            let wj = add_lines(w, ls.take(j))->Ok_0;
            let w2 = add_lines(w, ls.take(j + 1))->Ok_0;
            let d1 = ls[i].data.unwrap();
            let d2 = ls[j].data.unwrap();
            &&& w2.cards.len() == wj.cards.len()
            &&& idx < w2.cards.len()
            &&& w2.cards[idx].data == Some((d1.first.1, d1.fields + d2.fields))
        }),
{
    let c = key7(ls[i].data.unwrap().trailing);
    lemma_add_lines_prefix(w, ls, i, j + 1);
    let idx = add_lines(w, ls.take(i))->Ok_0.cards.len() as int;
    lemma_card_waits(w, ls, i, j, j, idx, c);
    lemma_add_lines_prefix(w, ls, j, j + 1);
    lemma_add_lines_step(w, ls, j);
}

pub proof fn lemma_comma_width_field(r: ReaderView, width: nat)
    ensures
        comma_width_field(r, width).1.data == r.data,
        comma_width_field(r, width).1.pos >= r.pos,
        r.pos <= r.data.len() ==> comma_width_field(r, width).1.pos <= r.data.len(),
{
    lemma_comma_field(r);
}

pub proof fn lemma_comma_fields(r: ReaderView, count: nat, width: nat)
    ensures
        comma_fields(r, count, width).1.data == r.data,
        comma_fields(r, count, width).1.pos >= r.pos,
        r.pos <= r.data.len() ==> comma_fields(r, count, width).1.pos <= r.data.len(),
    decreases count,
{
    if count > 0 {
        lemma_comma_width_field(r, width);
        let (f, r1) = comma_width_field(r, width);
        if f is Ok {
            lemma_comma_fields(r1, (count - 1) as nat, width);
        }
    }
}

pub proof fn lemma_comma_trailing(r: ReaderView)
    ensures
        comma_trailing(r).1.data == r.data,
        comma_trailing(r).1.pos >= r.pos,
        r.pos <= r.data.len() ==> comma_trailing(r).1.pos <= r.data.len(),
{
    lemma_comma_field(r);
}

/// What is left of a comma separated line: twice the bytes left, and one
/// more for a comment not yet taken.
pub open spec fn comma_measure(s: CommaView) -> int {
    2 * (s.reader.data.len() - s.reader.pos) + if s.reader.comment is Some {
        1int
    } else {
        0int
    }
}

/// Each line read from a comma separated line uses some of it up.
pub proof fn lemma_comma_next(s: CommaView)
    requires
        s.reader.pos <= s.reader.data.len(),
    ensures
        comma_next(s) matches Some((Ok(_), s2)) ==> s2.reader.data == s.reader.data
            && s2.reader.pos <= s2.reader.data.len() && comma_measure(s2) < comma_measure(s),
{
    let r = s.reader;
    lemma_comma_field(r);
    let (f, r1) = comma_field(r);
    if let Some(x) = f {
        if x.len() <= 8 {
            if s.second {
                lemma_comma_fields(r1, 7, 8);
                let (rest, r2) = comma_fields(r1, 7, 8);
                lemma_comma_trailing(r2);
            } else {
                if let Ok(o) = spec_first_field(padded(x, 8)) {
                    let first = match o {
                        Some(f) => f,
                        None => default_first(),
                    };
                    let (count, width) = if first.2 {
                        (4nat, 16nat)
                    } else {
                        (8nat, 8nat)
                    };
                    lemma_comma_fields(r1, count, width);
                    let (fs, r2) = comma_fields(r1, count, width);
                    lemma_comma_trailing(r2);
                }
            }
        }
    }
}

/// Adding a line read (or its error): `None` where parsing its fields would
/// overflow the field reader.
pub open spec fn add_read(w: BuildView, u: Result<LineView<Seq<u8>>, ErrorView>) -> Option<
    Result<BuildView, ErrorView>,
> {
    match u {
        Err(e) => Some(Err(e)),
        Ok(l) => match spec_bulk_line(l) {
            None => None,
            Some(Err(e)) => Some(Err(e)),
            Some(Ok(b)) => Some(add_line(w, b)),
        },
    }
}

/// Adding the lines of a comma separated line in turn. The flag of the
/// result says whether reading stops there: it does where the very first
/// step finds nothing to read.
pub open spec fn comma_lines(s: CommaView, w: BuildView, first: bool) -> Option<
    Result<(BuildView, bool), ErrorView>,
>
    decreases comma_measure(s),
    when s.reader.pos <= s.reader.data.len()
{
    proof {
        lemma_comma_next(s);
    }
    match comma_next(s) {
        None => Some(Ok((w, first))),
        Some((res, s2)) => match add_read(w, res) {
            None => None,
            Some(Err(e)) => Some(Err(e)),
            Some(Ok(w2)) => comma_lines(s2, w2, false),
        },
    }
}

/// The position after the LF that ends the line starting at `at`, or the end.
pub open spec fn line_end(b: Seq<u8>, at: nat) -> nat
    decreases b.len() - at,
{
    if at >= b.len() {
        b.len()
    } else if b[at as int] == LF {
        at + 1
    } else {
        line_end(b, at + 1)
    }
}

pub proof fn lemma_line_end(b: Seq<u8>, at: nat)
    requires
        at < b.len(),
    ensures
        at < line_end(b, at) <= b.len(),
    decreases b.len() - at,
{
    if b[at as int] != LF {
        if at + 1 < b.len() {
            lemma_line_end(b, at + 1);
        } else {
            assert(line_end(b, at + 1) == b.len());
        }
    }
}

/// A line is comma separated where a comma is among its first ten bytes.
pub open spec fn is_comma_line(line: Seq<u8>) -> bool {
    exists|j: int| 0 <= j < line.len() && j < 10 && line[j] == COMMA
}

/// The reader of a comma separated line at its start.
pub open spec fn comma_start(line: Seq<u8>) -> CommaView {
    CommaView {
        reader: ReaderView { data: expand(line, 0), pos: 0, comment: None, eol: None },
        second: false,
        original: line,
    }
}

/// Reading the lines from `at` on into `w`: each line ends after its LF;
/// the first error ends the reading, and so does a comma separated line of
/// which nothing can be read.
pub open spec fn parse_from(b: Seq<u8>, at: nat, w: BuildView) -> Option<Result<BuildView, ErrorView>>
    decreases b.len() - at,
{
    if at >= b.len() {
        Some(Ok(w))
    } else {
        proof {
            lemma_line_end(b, at);
        }
        let e = line_end(b, at);
        let line = b.subrange(at as int, e as int);
        if is_comma_line(line) {
            match comma_lines(comma_start(line), w, true) {
                None => None,
                Some(Err(x)) => Some(Err(x)),
                Some(Ok((w2, stop))) => if stop {
                    Some(Ok(w2))
                } else {
                    parse_from(b, e, w2)
                },
            }
        } else {
            match add_read(w, spec_fixed_line(line)) {
                None => None,
                Some(Err(x)) => Some(Err(x)),
                Some(Ok(w2)) => parse_from(b, e, w2),
            }
        }
    }
}

/// The cards of a bulk data file, or its first error. `None` where reading
/// a field would overflow the field reader.
pub open spec fn spec_parse_bytes(b: Seq<u8>) -> Option<Result<Seq<CardView>, ErrorView>> {
    match parse_from(b, 0, BuildView { cards: Seq::empty(), conts: Map::empty() }) {
        None => None,
        Some(Err(e)) => Some(Err(e)),
        Some(Ok(w)) => Some(Ok(w.cards)),
    }
}

pub open spec fn cards_result(r: &Result<Vec<BulkCard>, Error>) -> Result<Seq<CardView>, ErrorView> {
    match r {
        Ok(v) => Ok(v@.map_values(|c: BulkCard| c@)),
        Err(e) => Err(e@),
    }
}

fn find_line_end(b: &[u8], at: usize) -> (r: usize)
    requires
        at < b@.len(),
    ensures
        r == line_end(b@, at as nat),
{
    let mut j = at;
    while j < b.len()
        invariant
            at <= j <= b@.len(),
            line_end(b@, at as nat) == line_end(b@, j as nat),
        decreases b@.len() - j,
    {
        if b[j] == LF {
            return j + 1;
        }
        j += 1;
    }
    j
}

fn comma_in_first_ten(line: &[u8]) -> (r: bool)
    ensures
        r == is_comma_line(line@),
{
    let mut j: usize = 0;
    while j < line.len() && j < 10
        invariant
            j <= line@.len(),
            forall|i: int| 0 <= i < j ==> line@[i] != COMMA,
        decreases line@.len() - j,
    {
        if line[j] == COMMA {
            return true;
        }
        j += 1;
    }
    false
}

fn add_read_exec(b: &mut CardBuilder, u: Result<super::parser::UnparsedBulkLine, Error>) -> (r: Option<
    Result<(), Error>,
>)
    requires
        old(b).wf(),
    ensures
        final(b).wf(),
        match r {
            None => add_read(old(b)@, line_result(&u)) is None,
            Some(Ok(())) => add_read(old(b)@, line_result(&u)) == Some(
                Ok::<BuildView, ErrorView>(final(b)@),
            ),
            Some(Err(e)) => add_read(old(b)@, line_result(&u)) == Some(
                Err::<BuildView, ErrorView>(e@),
            ),
        },
{
    let u = match u {
        Err(e) => return Some(Err(e)),
        Ok(u) => u,
    };
    match to_bulk_line(u) {
        None => None,
        Some(Err(e)) => Some(Err(e)),
        Some(Ok(l)) => Some(b.add_line(l)),
    }
}

/// Adds the lines of a comma separated line, see [`comma_lines`].
fn read_comma_line(b: &mut CardBuilder, line: &[u8]) -> (r: Option<Result<bool, Error>>)
    requires
        old(b).wf(),
    ensures
        final(b).wf(),
        match r {
            None => comma_lines(comma_start(line@), old(b)@, true) is None,
            Some(Ok(stop)) => comma_lines(comma_start(line@), old(b)@, true) == Some(
                Ok::<(BuildView, bool), ErrorView>((final(b)@, stop)),
            ),
            Some(Err(e)) => comma_lines(comma_start(line@), old(b)@, true) == Some(
                Err::<(BuildView, bool), ErrorView>(e@),
            ),
        },
{
    let mut c = CommaLine::new(line);
    let mut first = true;
    let ghost start = c@;
    loop
        invariant
            b.wf(),
            c.wf(),
            start == comma_start(line@),
            comma_lines(start, old(b)@, true) == comma_lines(c@, b@, first),
        decreases comma_measure(c@),
    {
        proof {
            lemma_comma_next(c@);
        }
        match c.next_line() {
            None => {
                return Some(Ok(first));
            },
            Some(u) => {
                match add_read_exec(b, u) {
                    None => return None,
                    Some(Err(e)) => return Some(Err(e)),
                    Some(Ok(())) => {},
                }
            },
        }
        first = false;
    }
}

/// Reads a bulk data file into cards, see [`spec_parse_bytes`]. `None` where
/// a field would overflow the field reader.
pub fn parse_bytes_checked(input: &[u8]) -> (r: Option<Result<Vec<BulkCard>, Error>>)
    ensures
        match r {
            None => spec_parse_bytes(input@) is None,
            Some(x) => spec_parse_bytes(input@) == Some(cards_result(&x)),
        },
{
    let mut b = CardBuilder::new();
    let ghost w0 = b@;
    let mut at: usize = 0;
    while at < input.len()
        invariant
            b.wf(),
            at <= input@.len(),
            parse_from(input@, 0, w0) == parse_from(input@, at as nat, b@),
            w0 == (BuildView { cards: Seq::empty(), conts: Map::empty() }),
        decreases input@.len() - at,
    {
        proof {
            lemma_line_end(input@, at as nat);
        }
        let e = find_line_end(input, at);
        let line = &input[at..e];
        assert(line@ =~= input@.subrange(at as int, e as int));
        if comma_in_first_ten(line) {
            match read_comma_line(&mut b, line) {
                None => return None,
                Some(Err(e)) => return Some(Err(e)),
                Some(Ok(stop)) => {
                    if stop {
                        return Some(Ok(b.into_cards()));
                    }
                },
            }
        } else {
            let u = parse_fixed_line(line);
            match add_read_exec(&mut b, u) {
                None => return None,
                Some(Err(e)) => return Some(Err(e)),
                Some(Ok(())) => {},
            }
        }
        at = e;
    }
    Some(Ok(b.into_cards()))
}

/// Reads a bulk data file into cards, see [`spec_parse_bytes`].
pub fn parse_bytes(input: &[u8]) -> (r: Result<Vec<BulkCard>, Error>)
    requires
        spec_parse_bytes(input@) is Some,
    ensures
        spec_parse_bytes(input@) == Some(cards_result(&r)),
{
    match parse_bytes_checked(input) {
        Some(r) => r,
        None => Err(Error::InvalidField),
    }
}

// ---------------------------------------------------------------------------
// The lines of a whole input

/// A line as read, with its fields parsed.
pub open spec fn read_one(res: Result<LineView<Seq<u8>>, ErrorView>) -> Option<
    Result<LineView<FieldView>, ErrorView>,
> {
    match res {
        Err(e) => Some(Err(e)),
        Ok(l) => spec_bulk_line(l),
    }
}

/// The lines that a comma separated line stands for, from `s` on, with the
/// flag of [`comma_lines`]: reading stops where the very first step finds
/// nothing to read.
pub open spec fn comma_read(s: CommaView, first: bool) -> Option<
    Result<(Seq<LineView<FieldView>>, bool), ErrorView>,
>
    decreases comma_measure(s),
    when s.reader.pos <= s.reader.data.len()
{
    proof {
        lemma_comma_next(s);
    }
    match comma_next(s) {
        None => Some(Ok((Seq::empty(), first))),
        Some((res, s2)) => match read_one(res) {
            None => None,
            Some(Err(e)) => Some(Err(e)),
            Some(Ok(l)) => match comma_read(s2, false) {
                None => None,
                Some(Err(e)) => Some(Err(e)),
                Some(Ok((ls, stop))) => Some(Ok((seq![l] + ls, stop))),
            },
        },
    }
}

/// The lines of `b` from `at` on, as [`parse_from`] reads them, before any
/// is added to a card.
pub open spec fn read_lines(b: Seq<u8>, at: nat) -> Option<Result<Seq<LineView<FieldView>>, ErrorView>>
    decreases b.len() - at,
{
    if at >= b.len() {
        Some(Ok(Seq::empty()))
    } else {
        proof {
            lemma_line_end(b, at);
        }
        let e = line_end(b, at);
        let line = b.subrange(at as int, e as int);
        if is_comma_line(line) {
            match comma_read(comma_start(line), true) {
                None => None,
                Some(Err(x)) => Some(Err(x)),
                Some(Ok((ls, stop))) => if stop {
                    Some(Ok(ls))
                } else {
                    match read_lines(b, e) {
                        Some(Ok(rest)) => Some(Ok(ls + rest)),
                        other => other,
                    }
                },
            }
        } else {
            match read_one(spec_fixed_line(line)) {
                None => None,
                Some(Err(x)) => Some(Err(x)),
                Some(Ok(l)) => match read_lines(b, e) {
                    Some(Ok(rest)) => Some(Ok(seq![l] + rest)),
                    other => other,
                },
            }
        }
    }
}

/// Adding `a` then `b` is adding `a + b`.
proof fn lemma_add_lines_append(w: BuildView, a: Seq<LineView<FieldView>>, b: Seq<LineView<FieldView>>)
    ensures
        add_lines(w, a + b) == match add_lines(w, a) {
            Err(e) => Err(e),
            Ok(w1) => add_lines(w1, b),
        },
    decreases b.len(),
{
    if b.len() == 0 {
        assert(a + b =~= a);
    } else {
        lemma_add_lines_append(w, a, b.drop_last());
        assert((a + b).drop_last() =~= a + b.drop_last());
        assert((a + b).last() == b.last());
    }
}

proof fn lemma_add_lines_one(w: BuildView, l: LineView<FieldView>, ls: Seq<LineView<FieldView>>)
    ensures
        add_lines(w, seq![l] + ls) == match add_line(w, l) {
            Err(e) => Err(e),
            Ok(w1) => add_lines(w1, ls),
        },
{
    lemma_add_lines_append(w, seq![l], ls);
    assert(seq![l].drop_last() =~= Seq::<LineView<FieldView>>::empty());
    assert(add_lines(w, Seq::<LineView<FieldView>>::empty()) == Ok::<BuildView, ErrorView>(w));
    assert(seq![l].last() == l);
    assert(add_lines(w, seq![l]) == add_line(w, l));
}

proof fn lemma_comma_lines_read(s: CommaView, w: BuildView, first: bool)
    requires
        s.reader.pos <= s.reader.data.len(),
    ensures
        comma_lines(s, w, first) matches Some(Ok((w2, stop))) ==> comma_read(s, first) matches Some(
            Ok((ls, stop2)),
        ) && stop2 == stop && add_lines(w, ls) == Ok::<BuildView, ErrorView>(w2),
    decreases comma_measure(s),
{
    lemma_comma_next(s);
    match comma_next(s) {
        None => {},
        Some((res, s2)) => {
            if let Some(Ok(l)) = read_one(res) {
                if let Ok(w1) = add_line(w, l) {
                    lemma_comma_lines_read(s2, w1, false);
                    if let Some(Ok((ls, _))) = comma_read(s2, false) {
                        lemma_add_lines_one(w, l, ls);
                    }
                }
            }
        },
    }
}

/// Where the whole input reads into cards, its lines read on their own, and
/// adding them in turn gives those cards.
proof fn lemma_parse_from_read(b: Seq<u8>, at: nat, w: BuildView)
    ensures
        parse_from(b, at, w) matches Some(Ok(w2)) ==> read_lines(b, at) matches Some(Ok(ls))
            && add_lines(w, ls) == Ok::<BuildView, ErrorView>(w2),
    decreases b.len() - at,
{
    if at < b.len() {
        lemma_line_end(b, at);
        let e = line_end(b, at);
        let line = b.subrange(at as int, e as int);
        if is_comma_line(line) {
            let s0 = comma_start(line);
            lemma_comma_lines_read(s0, w, true);
            if let Some(Ok((w1, stop))) = comma_lines(s0, w, true) {
                if let Some(Ok((ls, _))) = comma_read(s0, true) {
                    if stop {
                    } else {
                        lemma_parse_from_read(b, e, w1);
                        if let Some(Ok(rest)) = read_lines(b, e) {
                            lemma_add_lines_append(w, ls, rest);
                        }
                    }
                }
            }
        } else {
            if let Some(Ok(l)) = read_one(spec_fixed_line(line)) {
                if let Ok(w1) = add_line(w, l) {
                    lemma_parse_from_read(b, e, w1);
                    if let Some(Ok(rest)) = read_lines(b, e) {
                        lemma_add_lines_one(w, l, rest);
                    }
                }
            }
        }
    }
}

/// From line `from` on to line `m`, where no line continues the name `t`,
/// card `idx` keeps its fields, and no name other than `t` is open for it.
proof fn lemma_card_settled(w: BuildView, ls: Seq<LineView<FieldView>>, n: int, from: int, m: int, idx: int, t: u64)
    requires
        build_wf(w),
        w.cards.len() + ls.len() < usize::MAX,
        0 <= from <= m <= n <= ls.len(),
        add_lines(w, ls.take(n)) is Ok,
        ({
            let wf = add_lines(w, ls.take(from))->Ok_0;
            &&& 0 <= idx < wf.cards.len()
            &&& forall|k: u64| wf.conts.contains_key(k) && k != t ==> wf.conts[k] != idx
        }),
        forall|q: int| #![trigger ls[q]]
            from <= q < n ==> (ls[q].data matches Some(d) ==> d.first.0 || key7(d.first.1) != t),
    ensures
        ({
            let wf = add_lines(w, ls.take(from))->Ok_0;
            let wm = add_lines(w, ls.take(m))->Ok_0;
            &&& idx < wm.cards.len()
            &&& wm.cards[idx] == wf.cards[idx]
            &&& forall|k: u64| wm.conts.contains_key(k) && k != t ==> wm.conts[k] != idx
        }),
    decreases m,
{
    lemma_add_lines_prefix(w, ls, m, n);
    if m > from {
        lemma_card_settled(w, ls, n, from, m - 1, idx, t);
        lemma_add_lines_prefix(w, ls, m - 1, n);
        lemma_add_lines_step(w, ls, m - 1);
        let wp = add_lines(w, ls.take(m - 1))->Ok_0;
        let wm = add_lines(w, ls.take(m))->Ok_0;
        let l = ls[m - 1];
        assert(from <= m - 1 < n);
        assert(idx < wp.cards.len());
        assert(wm == add_line(wp, l)->Ok_0);
        match l.data {
            None => {
                let card = CardView { data: None, comment: l.comment, eol: eol_or_default(l.eol), original: l.original };
                assert(wm.cards == wp.cards.push(card));
                assert(wm.cards[idx] == wp.cards[idx]);
            },
            Some(d) => {
                if !d.first.0 {
                    let k0 = key7(d.first.1);
                    assert(k0 != t);
                    assert(wp.conts.contains_key(k0));
                    assert(wp.conts[k0] != idx);
                    assert(wm.cards[idx] == wp.cards[idx]);
                } else {
                    assert(wm.cards[idx] == wp.cards[idx]);
                }
                assert forall|k: u64| wm.conts.contains_key(k) && k != t implies wm.conts[k] != idx by {
                    if k != key7(d.trailing) {
                        assert(wp.conts.contains_key(k));
                    }
                }
            },
        }
    }
}

/// Line `i` starts a card with trailing name `c` and line `j` continues
/// `c`; no line between them ends with or continues `c`, and no line after
/// `j` continues the trailing name of line `j`.
pub open spec fn joined_pair(ls: Seq<LineView<FieldView>>, i: int, j: int) -> bool {
    &&& 0 <= i < j < ls.len()
    &&& ls[i].data is Some
    &&& ls[j].data is Some
    &&& ls[i].data.unwrap().first.0
    &&& !ls[j].data.unwrap().first.0
    &&& key7(ls[j].data.unwrap().first.1) == key7(ls[i].data.unwrap().trailing)
    &&& forall|q: int| #![trigger ls[q]]
        i < q < j ==> (ls[q].data matches Some(d) ==> key7(d.trailing) != key7(ls[i].data.unwrap().trailing)
            && (d.first.0 || key7(d.first.1) != key7(ls[i].data.unwrap().trailing)))
    &&& forall|q: int| #![trigger ls[q]]
        j < q < ls.len() ==> (ls[q].data matches Some(d) ==> d.first.0 || key7(d.first.1) != key7(
            ls[j].data.unwrap().trailing,
        ))
}

/// Over a whole input: where `b` reads into cards, a card line `i` of `b`
/// with trailing name `c` and a later line `j` that continues `c`, with no
/// line between them that ends with or continues `c`, and no line after `j`
/// that continues the trailing name of line `j`, give one card of the
/// result: it has the name of line `i` and the fields of line `i` then those
/// of line `j`, and it stands after the cards of the lines before `i`.
pub proof fn law_input_card_joins_continuation(b: Seq<u8>, i: int, j: int)
    requires
        spec_parse_bytes(b) is Some,
        spec_parse_bytes(b).unwrap() is Ok,
        read_lines(b, 0) is Some,
        read_lines(b, 0).unwrap() is Ok,
        read_lines(b, 0)->Some_0->Ok_0.len() < usize::MAX,
        joined_pair(read_lines(b, 0)->Some_0->Ok_0, i, j),
    ensures
        ({
            let ls = read_lines(b, 0)->Some_0->Ok_0;
            let cards = spec_parse_bytes(b)->Some_0->Ok_0;
            let w0 = BuildView { cards: Seq::empty(), conts: Map::empty() };
            let idx = add_lines(w0, ls.take(i))->Ok_0.cards.len() as int;
            let d1 = ls[i].data.unwrap();
            let d2 = ls[j].data.unwrap();
            &&& idx < cards.len()
            &&& cards[idx].data == Some((d1.first.1, d1.fields + d2.fields))
        }),
{
    let w0 = BuildView { cards: Seq::empty(), conts: Map::empty() };
    lemma_parse_from_read(b, 0, w0);
    let ls = read_lines(b, 0)->Some_0->Ok_0;
    let wall = parse_from(b, 0, w0)->Some_0->Ok_0;
    assert(ls.take(ls.len() as int) =~= ls);
    let d1 = ls[i].data.unwrap();
    let d2 = ls[j].data.unwrap();
    let c = key7(d1.trailing);
    let t = key7(d2.trailing);
    lemma_add_lines_prefix(w0, ls, j + 1, ls.len() as int);
    law_card_joins_continuation(w0, ls, i, j);
    let idx = add_lines(w0, ls.take(i))->Ok_0.cards.len() as int;
    lemma_card_waits(w0, ls, i, j, j, idx, c);
    lemma_add_lines_prefix(w0, ls, j, ls.len() as int);
    lemma_add_lines_step(w0, ls, j);
    let wj1 = add_lines(w0, ls.take(j + 1))->Ok_0;
    let wj = add_lines(w0, ls.take(j))->Ok_0;
    assert forall|k: u64| wj1.conts.contains_key(k) && k != t implies wj1.conts[k] != idx by {
        if k != c {
            assert(wj.conts.contains_key(k));
        }
    }
    lemma_card_settled(w0, ls, ls.len() as int, j + 1, ls.len() as int, idx, t);
}

} // verus!
