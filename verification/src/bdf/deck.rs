//! Cards read into typed items, and a store of items by id.
use vstd::prelude::*;

use std::collections::HashMap;

use super::cards::{BulkCard, CardView};
use super::error::{Error, ErrorView};
use super::field::{Field, FieldView};
use crate::scan::SPACE;

verus! {

/// The integer readings of a field.
pub trait FieldConv {
    /// The field read: a missing field reads as blank.
    spec fn conv_view(&self) -> FieldView;

    /// A signed integer.
    fn integer(&self) -> (r: Result<i32, Error>)
        ensures
            r == spec_int(self.conv_view()),
    ;

    /// A signed integer, or `value` for a blank field.
    fn int_or(&self, value: i32) -> (r: Result<i32, Error>)
        ensures
            r == (if self.conv_view() is Blank {
                Ok(value)
            } else {
                spec_int(self.conv_view())
            }),
    ;

    /// An id (an unsigned integer).
    fn id(&self) -> (r: Result<u32, Error>)
        ensures
            r == spec_id(self.conv_view()),
    ;

    /// An id, or `value` for a blank field.
    fn id_or(&self, value: u32) -> (r: Result<u32, Error>)
        ensures
            r == (if self.conv_view() is Blank {
                Ok(value)
            } else {
                spec_id(self.conv_view())
            }),
    ;

    /// Degrees of freedom: each digit 1 to 6 of an id marks that component.
    fn dof(&self) -> (r: Result<[bool; 6], Error>)
        ensures
            match r {
                Ok(a) => spec_dof(self.conv_view()) == Some(a@),
                Err(e) => spec_dof(self.conv_view()) is None && e@ == ErrorView::UnexpectedDOF(
                    self.conv_view(),
                ),
            },
    ;
}

/// Reading a signed integer: an integer field, or an id taken as `i32`.
pub open spec fn spec_int(f: FieldView) -> Result<i32, Error> {
    match f {
        FieldView::Int(v) => Ok(v as i32),
        FieldView::IntOrId(v) => Ok(v as u32 as i32),
        _ => Err(Error::UnexpectedField("i32", field_of(f))),
    }
}

/// Reading an id: only an unsigned integer field is one.
pub open spec fn spec_id(f: FieldView) -> Result<u32, Error> {
    match f {
        FieldView::IntOrId(v) => Ok(v as u32),
        _ => Err(Error::UnexpectedField("id", field_of(f))),
    }
}

/// A field with the given model.
pub open spec fn field_of(f: FieldView) -> Field {
    choose|x: Field| x@ == f
}

/// The components marked by the digits of `v`, added to `acc`; `None` where a
/// digit is 0 or above 6.
pub open spec fn dof_digits(v: nat, acc: Seq<bool>) -> Option<Seq<bool>>
    decreases v,
{
    if v == 0 {
        Some(acc)
    } else {
        let d = v % 10;
        if d == 0 || d > 6 {
            None
        } else {
            dof_digits(v / 10, acc.update(d - 1, true))
        }
    }
}

/// Degrees of freedom of a field: none for a blank, the digits of an id.
pub open spec fn spec_dof(f: FieldView) -> Option<Seq<bool>> {
    let none = seq![false, false, false, false, false, false];
    match f {
        FieldView::Blank => Some(none),
        FieldView::IntOrId(v) => dof_digits(v as nat, none),
        _ => None,
    }
}

/// Whether the decimal digit `k` occurs in `v`.
pub open spec fn has_digit(v: nat, k: nat) -> bool
    decreases v,
{
    v > 0 && (v % 10 == k || has_digit(v / 10, k))
}

/// Whether every decimal digit of `v` is one of 1 to 6.
pub open spec fn digits_1_to_6(v: nat) -> bool
    decreases v,
{
    v == 0 || (1 <= v % 10 <= 6 && digits_1_to_6(v / 10))
}

proof fn lemma_dof_digits(v: nat, acc: Seq<bool>)
    requires
        acc.len() == 6,
    ensures
        digits_1_to_6(v) ==> (dof_digits(v, acc) matches Some(s) && s.len() == 6 && forall|k: int|
            0 <= k < 6 ==> s[k] == (acc[k] || has_digit(v, (k + 1) as nat))),
        !digits_1_to_6(v) ==> dof_digits(v, acc) is None,
    decreases v,
{
    if v > 0 {
        let d = v % 10;
        if 1 <= d <= 6 {
            let acc2 = acc.update(d - 1, true);
            lemma_dof_digits(v / 10, acc2);
        }
    }
}

/// The degrees of freedom of an id: where every digit of the id is one of 1
/// to 6, component `k` (counted from 0) is marked exactly where the digit
/// `k + 1` occurs in the id; an id with a digit 0, 7, 8 or 9 is refused; a
/// blank marks none.
pub proof fn law_dof_digits(v: int)
    requires
        v >= 0,
    ensures
        digits_1_to_6(v as nat) ==> (spec_dof(FieldView::IntOrId(v)) matches Some(s) && s.len() == 6
            && forall|k: int| 0 <= k < 6 ==> s[k] == has_digit(v as nat, (k + 1) as nat)),
        !digits_1_to_6(v as nat) ==> spec_dof(FieldView::IntOrId(v)) is None,
        spec_dof(FieldView::Blank) matches Some(s) && s.len() == 6 && forall|k: int| 0 <= k < 6 ==> !s[k],
{
    lemma_dof_digits(v as nat, seq![false, false, false, false, false, false]);
}

fn dof_of(f: &Field) -> (r: Result<[bool; 6], Error>)
    ensures
        match r {
            Ok(a) => spec_dof(f@) == Some(a@),
            Err(e) => spec_dof(f@) is None && e@ == ErrorView::UnexpectedDOF(f@),
        },
{
    let mut res = [false;6];
    assert(res@ =~= seq![false, false, false, false, false, false]);
    match f {
        Field::IntOrId(v) => {
            let mut v = *v;
            while v > 0
                invariant
                    spec_dof(f@) == dof_digits(v as nat, res@),
                    res@.len() == 6,
                decreases v,
            {
                let i = v % 10;
                v = v / 10;
                if i == 0 || i > 6 {
                    return Err(Error::UnexpectedDOF(*f));
                }
                let k = (i - 1) as usize;
                res[k] = true;
            }
            Ok(res)
        },
        Field::Blank => Ok(res),
        _ => Err(Error::UnexpectedDOF(*f)),
    }
}

fn int_of(f: &Field) -> (r: Result<i32, Error>)
    ensures
        r == spec_int(f@),
{
    match f {
        Field::Int(v) => Ok(*v),
        Field::IntOrId(v) => Ok(*v as i32),
        _ => {
            assert(field_of(f@)@ == f@);
            proof {
                lemma_field_of(*f);
            }
            Err(Error::UnexpectedField("i32", *f))
        },
    }
}

fn id_of(f: &Field) -> (r: Result<u32, Error>)
    ensures
        r == spec_id(f@),
{
    match f {
        Field::IntOrId(v) => Ok(*v),
        _ => {
            proof {
                lemma_field_of(*f);
            }
            Err(Error::UnexpectedField("id", *f))
        },
    }
}

/// A field is determined by its model.
pub proof fn lemma_field_of(f: Field)
    ensures
        field_of(f@) == f,
{
    assert(f@ == f@);
    let g = field_of(f@);
    assert(g@ == f@);
    match f {
        Field::Float(a) => {
            assert(g->Float_0@ == a@);
            assert(g->Float_0 == a);
        },
        Field::Double(a) => {
            assert(g->Double_0@ == a@);
            assert(g->Double_0 == a);
        },
        Field::Text(a) => {
            assert(g->Text_0@ == a@);
            assert(g->Text_0 == a);
        },
        _ => {},
    }
}

impl FieldConv for Field {
    open spec fn conv_view(&self) -> FieldView {
        self@
    }

    fn integer(&self) -> (r: Result<i32, Error>) {
        int_of(self)
    }

    fn int_or(&self, value: i32) -> (r: Result<i32, Error>) {
        match self {
            Field::Blank => Ok(value),
            _ => int_of(self),
        }
    }

    fn id(&self) -> (r: Result<u32, Error>) {
        id_of(self)
    }

    fn id_or(&self, value: u32) -> (r: Result<u32, Error>) {
        match self {
            Field::Blank => Ok(value),
            _ => id_of(self),
        }
    }

    fn dof(&self) -> (r: Result<[bool; 6], Error>) {
        dof_of(self)
    }
}

impl FieldConv for Option<Field> {
    open spec fn conv_view(&self) -> FieldView {
        match self {
            Some(f) => f@,
            None => FieldView::Blank,
        }
    }

    fn integer(&self) -> (r: Result<i32, Error>) {
        match self {
            Some(f) => int_of(f),
            None => int_of(&Field::Blank),
        }
    }

    fn int_or(&self, value: i32) -> (r: Result<i32, Error>) {
        match self {
            Some(Field::Blank) | None => Ok(value),
            Some(f) => int_of(f),
        }
    }

    fn id(&self) -> (r: Result<u32, Error>) {
        match self {
            Some(f) => id_of(f),
            None => id_of(&Field::Blank),
        }
    }

    fn id_or(&self, value: u32) -> (r: Result<u32, Error>) {
        match self {
            Some(Field::Blank) | None => Ok(value),
            Some(f) => id_of(f),
        }
    }

    fn dof(&self) -> (r: Result<[bool; 6], Error>) {
        match self {
            Some(f) => dof_of(f),
            None => dof_of(&Field::Blank),
        }
    }
}

/// An item kept in a [`Storage`], found by its id.
pub trait StorageItem: Sized {
    spec fn spec_id(&self) -> u32;

    fn id(&self) -> (r: u32)
        ensures
            r == self.spec_id(),
    ;
}

/// Items by id, in the order they were stored.
pub struct Storage<T> {
    data: Vec<Option<T>>,
    map: HashMap<u32, usize>,
}

impl<T: StorageItem> Storage<T> {
    /// The items by id.
    pub closed spec fn view(&self) -> Map<u32, T> {
        Map::new(|id: u32| self.map@.contains_key(id), |id: u32| self.data@[self.map@[id] as int]->Some_0)
    }

    /// The items in the order they were stored.
    pub closed spec fn order(&self) -> Seq<T> {
        self.data@.filter_map(|o: Option<T>| o)
    }

    /// Each id leads to the slot of its item, and each item to its slot.
    pub closed spec fn wf(&self) -> bool {
        &&& forall|id: u32| #[trigger]
            self.map@.contains_key(id) ==> self.map@[id] < self.data@.len() && self.data@[self.map@[
                id] as int] is Some && self.data@[self.map@[id] as int]->Some_0.spec_id() == id
        &&& forall|i: int| 0 <= i < self.data@.len() && #[trigger] self.data@[i] is Some ==> {
            let id = self.data@[i]->Some_0.spec_id();
            self.map@.contains_key(id) && self.map@[id] == i
        }
    }

    pub fn new() -> (s: Self)
        ensures
            s.wf(),
            s.view() == Map::<u32, T>::empty(),
            s.order() == Seq::<T>::empty(),
            order_matches_view(s.order(), s.view()),
    {
        let s = Storage { data: Vec::new(), map: HashMap::new() };
        assert(s.view() =~= Map::<u32, T>::empty());
        assert(s.data@ =~= Seq::<Option<T>>::empty());
        s
    }

    /// The number of items.
    pub fn len(&self) -> (r: usize)
        requires
            self.wf(),
        ensures
            r == self.view().len(),
    {
        assert(self.view().dom() =~= self.map@.dom());
        self.map.len()
    }

    /// The items in storing order are the items by id: as many, each under
    /// its own id, no id twice, every id's item among them.
    pub proof fn law_order_matches_view(&self)
        requires
            self.wf(),
        ensures
            order_matches_view(self.order(), self.view()),
    {
        broadcast use vstd::std_specs::hash::group_hash_axioms;

        let data = self.data@;
        let map = self.map@;
        lemma_slots_prefix(data, map, data.len() as int);
        assert(data.take(data.len() as int) =~= data);
        let o = self.order();
        let ids = item_ids(o);
        assert(self.view().dom() =~= map.dom());
        assert(ids.to_set() =~= map.dom());
        ids.unique_seq_to_set();
        assert forall|i: int, j: int| 0 <= i < j < o.len() implies o[i].spec_id() != o[j].spec_id() by {
            assert(ids[i] == o[i].spec_id() && ids[j] == o[j].spec_id());
        }
        assert forall|k: u32| #[trigger] self.view().contains_key(k) implies exists|i: int|
            0 <= i < o.len() && o[i].spec_id() == k by {
            assert(ids.to_set().contains(k));
            let w = choose|w: int| 0 <= w < ids.len() && ids[w] == k;
            assert(o[w].spec_id() == k);
        }
    }

    /// The item with id `id`, if there is one.
    pub fn get(&self, id: u32) -> (r: Option<&T>)
        requires
            self.wf(),
        ensures
            match r {
                Some(x) => self.view().contains_key(id) && *x == self.view()[id],
                None => !self.view().contains_key(id),
            },
    {
        broadcast use vstd::std_specs::hash::group_hash_axioms;

        match self.map.get(&id) {
            Some(i) => self.data[*i].as_ref(),
            None => None,
        }
    }
}


/// Emptying the one slot that holds the item with id `k` drops that item
/// from the items in order.
proof fn lemma_drop_slot<T: StorageItem>(s: Seq<Option<T>>, j: int, k: u32)
    requires
        0 <= j < s.len(),
        s[j] is Some,
        s[j]->Some_0.spec_id() == k,
        forall|i: int| 0 <= i < s.len() && i != j && #[trigger] s[i] is Some ==> s[i]->Some_0.spec_id() != k,
    ensures
        s.update(j, None).filter_map(|o: Option<T>| o) == s.filter_map(|o: Option<T>| o).filter(
            |x: T| x.spec_id() != k,
        ),
    decreases s.len(),
{
    reveal(Seq::filter);
    let t = s.update(j, None);
    let a = s.filter_map(|o: Option<T>| o);
    let b = s.drop_last().filter_map(|o: Option<T>| o);
    if j == s.len() - 1 {
        assert(t.drop_last() =~= s.drop_last());
        lemma_filter_keeps(s.drop_last(), k);
        assert(a =~= b + seq![s[j]->Some_0]);
        assert(a.drop_last() =~= b);
        assert(t.filter_map(|o: Option<T>| o) =~= b);
    } else {
        assert(t.drop_last() =~= s.drop_last().update(j, None));
        lemma_drop_slot(s.drop_last(), j, k);
        let c = t.drop_last().filter_map(|o: Option<T>| o);
        if let Some(x) = s.last() {
            assert(s[s.len() - 1] is Some);
            assert(a =~= b + seq![x]);
            assert(a.drop_last() =~= b);
            assert(t.filter_map(|o: Option<T>| o) =~= c + seq![x]);
            assert(a.filter(|x: T| x.spec_id() != k) =~= b.filter(|x: T| x.spec_id() != k).push(x));
        } else {
            assert(a =~= b);
            assert(t.filter_map(|o: Option<T>| o) =~= c);
        }
    }
}

/// Where no item has id `k`, dropping the items with id `k` changes nothing.
proof fn lemma_filter_keeps<T: StorageItem>(s: Seq<Option<T>>, k: u32)
    requires
        forall|i: int| 0 <= i < s.len() && #[trigger] s[i] is Some ==> s[i]->Some_0.spec_id() != k,
    ensures
        s.filter_map(|o: Option<T>| o).filter(|x: T| x.spec_id() != k) == s.filter_map(
            |o: Option<T>| o,
        ),
    decreases s.len(),
{
    reveal(Seq::filter);
    if s.len() > 0 {
        lemma_filter_keeps(s.drop_last(), k);
        assert(s.drop_last().filter_map(|o: Option<T>| o).filter(|x: T| x.spec_id() != k) =~= s.drop_last().filter_map(|o: Option<T>| o));
        if let Some(x) = s.last() {
            assert(s[s.len() - 1] is Some);
            let a = s.drop_last().filter_map(|o: Option<T>| o);
            assert((a + seq![x]).drop_last() =~= a);
        }
    }
}

impl<T: StorageItem> Storage<T> {
    /// Stores `item` in a new slot and empties the slot of the item stored
    /// before with the same id, which it gives back.
    #[verifier::spinoff_prover]
    #[verifier::rlimit(40)]
    fn store(&mut self, item: T) -> (r: Option<T>)
        requires
            old(self).wf(),
        ensures
            final(self).wf(),
            final(self).view() == old(self).view().insert(item.spec_id(), item),
            match r {
                Some(x) => old(self).view().contains_key(item.spec_id()) && x == old(self).view()[item.spec_id()],
                None => !old(self).view().contains_key(item.spec_id()),
            },
            final(self).order() == old(self).order().filter(|x: T| x.spec_id() != item.spec_id()).push(
                item,
            ),
    {
        broadcast use vstd::std_specs::hash::group_hash_axioms;

        let ghost old_data = self.data@;
        let ghost k = item.spec_id();
        let ghost ord = old(self).order();
        assert(ord.filter(|x: T| x.spec_id() != k) == ord.filter(|x: T| x.spec_id() != item.spec_id()))
            by {
            assert((|x: T| x.spec_id() != k) =~= (|x: T| x.spec_id() != item.spec_id()));
        }
        let i = self.data.len();
        let id = item.id();
        self.data.push(Some(item));
        let ghost pushed = self.data@;
        assert(pushed.drop_last() =~= old_data);
        let prev = self.map.insert(id, i);
        match prev {
            Some(j) => {
                proof {
                    assert forall|x: int| 0 <= x < old_data.len() && x != j && #[trigger] old_data[x] is Some
                        implies old_data[x]->Some_0.spec_id() != k by {
                    }
                    lemma_drop_slot(old_data, j as int, k);
                }
                let r = self.data[j].take();
                proof {
                    let dropped = old_data.update(j as int, None);
                    assert(self.data@ =~= dropped.push(Some(item)));
                    assert(self.data@.drop_last() =~= dropped);
                    assert(self.view() =~= old(self).view().insert(k, item));
                    assert(self.data@.filter_map(|o: Option<T>| o) =~= dropped.filter_map(|o: Option<T>| o).push(item));
                }
                r
            },
            None => {
                proof {
                    assert(self.view() =~= old(self).view().insert(k, item));
                    assert forall|x: int| 0 <= x < old_data.len() && #[trigger] old_data[x] is Some
                        implies old_data[x]->Some_0.spec_id() != k by {
                    }
                    lemma_filter_keeps(old_data, k);
                    assert(pushed.filter_map(|o: Option<T>| o) =~= old_data.filter_map(|o: Option<T>| o).push(item));
                }
                None
            },
        }
    }

    /// Stores `item`, and takes out the item stored before with the same id.
    pub fn replace(&mut self, item: T) -> (r: Option<T>)
        requires
            old(self).wf(),
        ensures
            final(self).wf(),
            final(self).view() == old(self).view().insert(item.spec_id(), item),
            match r {
                Some(x) => old(self).view().contains_key(item.spec_id()) && x == old(self).view()[item.spec_id()],
                None => !old(self).view().contains_key(item.spec_id()),
            },
            final(self).order() == old(self).order().filter(|x: T| x.spec_id() != item.spec_id()).push(
                item,
            ),
            final(self).view().len() == old(self).view().len() + if r is None {
                1int
            } else {
                0int
            },
            order_matches_view(final(self).order(), final(self).view()),
    {
        let ghost k = item.spec_id();
        proof {
            old(self).law_order_matches_view();
        }
        let r = self.store(item);
        proof {
            self.law_order_matches_view();
            lemma_insert_len(old(self).view(), k, item);
        }
        r
    }

    /// Stores `item`; where an item with the same id was stored, it is taken
    /// out and `DuplicateCard` is returned, `item` being stored all the same.
    pub fn insert(&mut self, item: T) -> (r: Result<(), Error>)
        requires
            old(self).wf(),
        ensures
            final(self).wf(),
            final(self).view() == old(self).view().insert(item.spec_id(), item),
            final(self).order() == old(self).order().filter(|x: T| x.spec_id() != item.spec_id()).push(
                item,
            ),
            r is Err <==> old(self).view().contains_key(item.spec_id()),
            r matches Err(e) ==> e == Error::DuplicateCard,
            final(self).view().len() == old(self).view().len() + if r is Ok {
                1int
            } else {
                0int
            },
            order_matches_view(final(self).order(), final(self).view()),
    {
        match self.replace(item) {
            Some(_) => Err(Error::DuplicateCard),
            None => Ok(()),
        }
    }

    /// The items in the order they were stored.
    pub fn iter(&self) -> (r: Vec<&T>)
        requires
            self.wf(),
        ensures
            r@.map_values(|x: &T| *x) == self.order(),
            r@.len() == self.view().len(),
            order_matches_view(self.order(), self.view()),
    {
        proof {
            self.law_order_matches_view();
        }
        let mut out: Vec<&T> = Vec::new();
        let mut i: usize = 0;
        while i < self.data.len()
            invariant
                i <= self.data@.len(),
                out@.map_values(|x: &T| *x) == self.data@.take(i as int).filter_map(|o: Option<T>| o),
            decreases self.data@.len() - i,
        {
            let ghost prev = out@.map_values(|x: &T| *x);
            assert(self.data@.take(i + 1).drop_last() =~= self.data@.take(i as int));
            match &self.data[i] {
                Some(x) => {
                    out.push(x);
                    assert(out@.map_values(|x: &T| *x) =~= prev.push(*x));
                },
                None => {},
            }
            i += 1;
        }
        assert(self.data@.take(i as int) =~= self.data@);
        out
    }
}

impl<T: StorageItem + Clone> Storage<T> {
    /// Copies of the items, in the order they were stored.
    pub fn clone_to_vec(&self) -> (r: Vec<T>)
        requires
            self.wf(),
        ensures
            r@.len() == self.order().len(),
            r@.len() == self.view().len(),
            forall|i: int| 0 <= i < r@.len() ==> cloned(self.order()[i], #[trigger] r@[i]),
            order_matches_view(self.order(), self.view()),
    {
        proof {
            self.law_order_matches_view();
        }
        let mut out: Vec<T> = Vec::new();
        let mut i: usize = 0;
        while i < self.data.len()
            invariant
                i <= self.data@.len(),
                out@.len() == self.data@.take(i as int).filter_map(|o: Option<T>| o).len(),
                forall|j: int| 0 <= j < out@.len() ==> cloned(
                    self.data@.take(i as int).filter_map(|o: Option<T>| o)[j],
                    #[trigger] out@[j],
                ),
            decreases self.data@.len() - i,
        {
            let ghost before = self.data@.take(i as int).filter_map(|o: Option<T>| o);
            assert(self.data@.take(i + 1).drop_last() =~= self.data@.take(i as int));
            match &self.data[i] {
                Some(x) => {
                    let c = x.clone();
                    out.push(c);
                    assert(self.data@.take(i + 1).filter_map(|o: Option<T>| o) =~= before.push(*x));
                },
                None => {
                    assert(self.data@.take(i + 1).filter_map(|o: Option<T>| o) =~= before);
                },
            }
            i += 1;
        }
        assert(self.data@.take(i as int) =~= self.data@);
        out
    }
}


/// How the items in storing order match the items by id: as many of them,
/// each the item of its own id, no id twice, and every id's item among them.
pub open spec fn order_matches_view<T: StorageItem>(order: Seq<T>, view: Map<u32, T>) -> bool {
    &&& view.dom().finite()
    &&& order.len() == view.len()
    &&& forall|i: int|
        0 <= i < order.len() ==> view.contains_key(#[trigger] order[i].spec_id()) && view[order[i].spec_id()]
            == order[i]
    &&& forall|i: int, j: int|
        #![trigger order[i], order[j]]
        0 <= i < j < order.len() ==> order[i].spec_id() != order[j].spec_id()
    &&& forall|k: u32| #[trigger]
        view.contains_key(k) ==> exists|i: int| 0 <= i < order.len() && order[i].spec_id() == k
}

pub open spec fn item_ids<T: StorageItem>(o: Seq<T>) -> Seq<u32> {
    o.map_values(|x: T| x.spec_id())
}

/// Storing under a key grows a finite map by one exactly where the key was
/// new.
proof fn lemma_insert_len<T>(m: Map<u32, T>, k: u32, v: T)
    requires
        m.dom().finite(),
    ensures
        m.insert(k, v).len() == m.len() + if m.contains_key(k) {
            0int
        } else {
            1int
        },
{
    assert(m.insert(k, v).dom() =~= m.dom().insert(k));
}

/// What the first `n` slots of a store give, in order: each item is found by
/// its id in a slot before `n`, no id comes twice, and the ids are those whose
/// slot is before `n`.
proof fn lemma_slots_prefix<T: StorageItem>(data: Seq<Option<T>>, map: Map<u32, usize>, n: int)
    requires
        0 <= n <= data.len(),
        forall|id: u32| #[trigger]
            map.contains_key(id) ==> map[id] < data.len() && data[map[id] as int] is Some
                && data[map[id] as int]->Some_0.spec_id() == id,
        forall|i: int|
            0 <= i < data.len() && #[trigger] data[i] is Some ==> map.contains_key(
                data[i]->Some_0.spec_id(),
            ) && map[data[i]->Some_0.spec_id()] == i,
    ensures
        ({
            let o = data.take(n).filter_map(|o: Option<T>| o);
            &&& forall|p: int|
                0 <= p < o.len() ==> map.contains_key(#[trigger] o[p].spec_id()) && map[o[p].spec_id()]
                    < n && data[map[o[p].spec_id()] as int] == Some(o[p])
            &&& item_ids(o).no_duplicates()
            &&& item_ids(o).to_set() == Set::new(|k: u32| map.contains_key(k) && map[k] < n)
        }),
    decreases n,
{
    let o = data.take(n).filter_map(|o: Option<T>| o);
    if n == 0 {
        assert(data.take(0) =~= Seq::<Option<T>>::empty());
        assert(o =~= Seq::<T>::empty());
        assert(item_ids(o).to_set() =~= Set::new(|k: u32| map.contains_key(k) && map[k] < n)) by {
            assert forall|k: u32| !(map.contains_key(k) && map[k] < n) by {}
        }
    } else {
        lemma_slots_prefix(data, map, n - 1);
        let prev = data.take(n - 1).filter_map(|o: Option<T>| o);
        assert(data.take(n).drop_last() =~= data.take(n - 1));
        assert(data.take(n).last() == data[n - 1]);
        match data[n - 1] {
            Some(x) => {
                assert(data[n - 1] is Some);
                let k = x.spec_id();
                assert(o =~= prev.push(x));
                assert(item_ids(o) =~= item_ids(prev).push(k));
                assert(!item_ids(prev).to_set().contains(k));
                assert forall|a: int, b: int|
                    0 <= a < item_ids(o).len() && 0 <= b < item_ids(o).len() && a != b implies item_ids(
                    o,
                )[a] != item_ids(o)[b] by {
                    if a == item_ids(prev).len() {
                        assert(item_ids(prev).to_set().contains(item_ids(prev)[b]));
                    } else if b == item_ids(prev).len() {
                        assert(item_ids(prev).to_set().contains(item_ids(prev)[a]));
                    }
                }
                assert(item_ids(o).to_set() =~= Set::new(|k2: u32| map.contains_key(k2) && map[k2] < n))
                    by {
                    assert forall|k2: u32| #[trigger] item_ids(o).to_set().contains(k2) <==> (
                    map.contains_key(k2) && map[k2] < n) by {
                        if map.contains_key(k2) && map[k2] == n - 1 {
                            assert(k2 == k);
                            assert(item_ids(o)[item_ids(prev).len() as int] == k);
                        }
                        if item_ids(prev).to_set().contains(k2) {
                            let w = choose|w: int| 0 <= w < item_ids(prev).len() && item_ids(prev)[w] == k2;
                            assert(item_ids(o)[w] == k2);
                        }
                        if item_ids(o).to_set().contains(k2) {
                            let w = choose|w: int| 0 <= w < item_ids(o).len() && item_ids(o)[w] == k2;
                            if w < item_ids(prev).len() {
                                assert(item_ids(prev)[w] == k2);
                                assert(item_ids(prev).to_set().contains(k2));
                            }
                        }
                    }
                }
                assert forall|p: int| 0 <= p < o.len() implies map.contains_key(#[trigger] o[p].spec_id())
                    && map[o[p].spec_id()] < n && data[map[o[p].spec_id()] as int] == Some(o[p]) by {
                    if p < prev.len() {
                        assert(o[p] == prev[p]);
                    }
                }
            },
            None => {
                assert(o =~= prev);
                assert(item_ids(o).to_set() =~= Set::new(|k2: u32| map.contains_key(k2) && map[k2] < n))
                    by {
                    assert forall|k2: u32| (map.contains_key(k2) && map[k2] < n) implies map[k2] < n - 1
                        by {
                        if map[k2] == n - 1 {
                            assert(data[map[k2] as int] is Some);
                        }
                    }
                }
            },
        }
    }
}

/// A tetrahedral element: element id, property id and four grid ids.
#[derive(Debug, Clone, Copy, PartialEq)]
pub struct CTETRA {
    pub eid: u32,
    pub pid: u32,
    pub g1: u32,
    pub g2: u32,
    pub g3: u32,
    pub g4: u32,
}

impl StorageItem for CTETRA {
    open spec fn spec_id(&self) -> u32 {
        self.eid
    }

    fn id(&self) -> (r: u32) {
        self.eid
    }
}

/// The card name `CTETRA `.
pub open spec fn ctetra_name() -> Seq<u8> {
    seq![0x43u8, 0x54u8, 0x45u8, 0x54u8, 0x52u8, 0x41u8, 0x20u8]
}

fn ctetra_name_exec() -> (r: [u8; 7])
    ensures
        r@ == ctetra_name(),
{
    let r = [0x43u8, 0x54u8, 0x45u8, 0x54u8, 0x52u8, 0x41u8, 0x20u8];
    assert(r@ =~= ctetra_name());
    r
}

/// Field `k` of a card; past the last field, a blank.
pub open spec fn field_at(fs: Seq<FieldView>, k: int) -> FieldView {
    if 0 <= k < fs.len() {
        fs[k]
    } else {
        FieldView::Blank
    }
}

/// Field `k` read as an id.
pub open spec fn id_at(fs: Seq<FieldView>, k: int) -> Result<u32, ErrorView> {
    match spec_id(field_at(fs, k)) {
        Ok(v) => Ok(v),
        Err(e) => Err(e@),
    }
}

/// A card read as a [`CTETRA`]: it must be named `CTETRA`, and its first six
/// fields are the ids, read in order; the first that is not an id is the
/// error.
pub open spec fn spec_ctetra(c: CardView) -> Result<CTETRA, ErrorView> {
    match c.data {
        None => Err(ErrorView::UnexpectedCardType(ctetra_name(), Seq::new(7, |_i: int| SPACE))),
        Some((t, fs)) => if t != ctetra_name() {
            Err(ErrorView::UnexpectedCardType(ctetra_name(), t))
        } else {
            match id_at(fs, 0) {
                Err(e) => Err(e),
                Ok(eid) => match id_at(fs, 1) {
                    Err(e) => Err(e),
                    Ok(pid) => match id_at(fs, 2) {
                        Err(e) => Err(e),
                        Ok(g1) => match id_at(fs, 3) {
                            Err(e) => Err(e),
                            Ok(g2) => match id_at(fs, 4) {
                                Err(e) => Err(e),
                                Ok(g3) => match id_at(fs, 5) {
                                    Err(e) => Err(e),
                                    Ok(g4) => Ok(CTETRA { eid, pid, g1, g2, g3, g4 }),
                                },
                            },
                        },
                    },
                },
            }
        },
    }
}

fn field_opt(fields: &[Field], k: usize) -> (r: Option<Field>)
    ensures
        r.conv_view() == field_at(fields@.map_values(|f: Field| f@), k as int),
{
    if k < fields.len() {
        Some(fields[k])
    } else {
        None
    }
}

fn id_field(fields: &[Field], k: usize) -> (r: Result<u32, Error>)
    ensures
        match r {
            Ok(v) => id_at(fields@.map_values(|f: Field| f@), k as int) == Ok::<u32, ErrorView>(v),
            Err(e) => id_at(fields@.map_values(|f: Field| f@), k as int) == Err::<u32, ErrorView>(e@),
        },
{
    field_opt(fields, k).id()
}

fn same7(a: &[u8; 7], b: &[u8; 7]) -> (r: bool)
    ensures
        r == (a@ == b@),
{
    let mut i: usize = 0;
    while i < 7
        invariant
            i <= 7,
            forall|j: int| 0 <= j < i ==> a@[j] == b@[j],
        decreases 7 - i,
    {
        if a[i] != b[i] {
            return false;
        }
        i += 1;
    }
    assert(a@ =~= b@);
    true
}

impl CTETRA {
    /// Reads a card as a [`CTETRA`], see [`spec_ctetra`].
    pub fn try_from(card: BulkCard) -> (r: Result<CTETRA, Error>)
        ensures
            match r {
                Ok(t) => spec_ctetra(card@) == Ok::<CTETRA, ErrorView>(t),
                Err(e) => spec_ctetra(card@) == Err::<CTETRA, ErrorView>(e@),
            },
    {
        let name = ctetra_name_exec();
        match card.card_type() {
            None => {
                let blank = [SPACE; 7];
                assert(blank@ =~= Seq::new(7, |_i: int| SPACE));
                return Err(Error::UnexpectedCardType(name, blank));
            },
            Some(t) => {
                if !same7(&t, &name) {
                    return Err(Error::UnexpectedCardType(name, t));
                }
            },
        }
        let fields = card.fields();
        let eid = match id_field(fields, 0) {
            Ok(v) => v,
            Err(e) => return Err(e),
        };
        let pid = match id_field(fields, 1) {
            Ok(v) => v,
            Err(e) => return Err(e),
        };
        let g1 = match id_field(fields, 2) {
            Ok(v) => v,
            Err(e) => return Err(e),
        };
        let g2 = match id_field(fields, 3) {
            Ok(v) => v,
            Err(e) => return Err(e),
        };
        let g3 = match id_field(fields, 4) {
            Ok(v) => v,
            Err(e) => return Err(e),
        };
        let g4 = match id_field(fields, 5) {
            Ok(v) => v,
            Err(e) => return Err(e),
        };
        Ok(CTETRA { eid, pid, g1, g2, g3, g4 })
    }
}

/// A solid property: property id, material id, material coordinate system,
/// and four option fields kept as read.
#[derive(Debug, Clone, Copy, PartialEq)]
pub struct PSOLID {
    pub pid: u32,
    pub mid: u32,
    pub cordm: u32,
    pub integration: Field,
    pub stress: Field,
    pub isop: Field,
    pub fctn: Field,
}

impl StorageItem for PSOLID {
    open spec fn spec_id(&self) -> u32 {
        self.pid
    }

    fn id(&self) -> (r: u32) {
        self.pid
    }
}

/// The card name `PSOLID `.
pub open spec fn psolid_name() -> Seq<u8> {
    seq![0x50u8, 0x53u8, 0x4fu8, 0x4cu8, 0x49u8, 0x44u8, 0x20u8]
}

fn psolid_name_exec() -> (r: [u8; 7])
    ensures
        r@ == psolid_name(),
{
    let r = [0x50u8, 0x53u8, 0x4fu8, 0x4cu8, 0x49u8, 0x44u8, 0x20u8];
    assert(r@ =~= psolid_name());
    r
}

/// A card read as a [`PSOLID`]: it must be named `PSOLID`; the property and
/// material ids come first, then the coordinate system (0 when blank), then
/// the four option fields as they are (blank when missing).
pub open spec fn spec_psolid(c: CardView) -> Result<(u32, u32, u32, FieldView, FieldView, FieldView, FieldView), ErrorView> {
    match c.data {
        None => Err(ErrorView::UnexpectedCardType(psolid_name(), Seq::new(7, |_i: int| SPACE))),
        Some((t, fs)) => if t != psolid_name() {
            Err(ErrorView::UnexpectedCardType(psolid_name(), t))
        } else {
            match id_at(fs, 0) {
                Err(e) => Err(e),
                Ok(pid) => match id_at(fs, 1) {
                    Err(e) => Err(e),
                    Ok(mid) => {
                        let cordm = if field_at(fs, 2) is Blank {
                            Ok(0u32)
                        } else {
                            id_at(fs, 2)
                        };
                        match cordm {
                            Err(e) => Err(e),
                            Ok(cordm) => Ok(
                                (
                                    pid,
                                    mid,
                                    cordm,
                                    field_at(fs, 3),
                                    field_at(fs, 4),
                                    field_at(fs, 5),
                                    field_at(fs, 6),
                                ),
                            ),
                        }
                    },
                },
            }
        },
    }
}

fn field_or_blank(fields: &[Field], k: usize) -> (r: Field)
    ensures
        r@ == field_at(fields@.map_values(|f: Field| f@), k as int),
{
    if k < fields.len() {
        fields[k]
    } else {
        Field::Blank
    }
}

impl PSOLID {
    /// Reads a card as a [`PSOLID`], see [`spec_psolid`].
    pub fn try_from(card: BulkCard) -> (r: Result<PSOLID, Error>)
        ensures
            match r {
                Ok(p) => spec_psolid(card@) == Ok::<
                    (u32, u32, u32, FieldView, FieldView, FieldView, FieldView),
                    ErrorView,
                >((p.pid, p.mid, p.cordm, p.integration@, p.stress@, p.isop@, p.fctn@)),
                Err(e) => spec_psolid(card@) == Err::<
                    (u32, u32, u32, FieldView, FieldView, FieldView, FieldView),
                    ErrorView,
                >(e@),
            },
    {
        let name = psolid_name_exec();
        match card.card_type() {
            None => {
                let blank = [SPACE; 7];
                assert(blank@ =~= Seq::new(7, |_i: int| SPACE));
                return Err(Error::UnexpectedCardType(name, blank));
            },
            Some(t) => {
                if !same7(&t, &name) {
                    return Err(Error::UnexpectedCardType(name, t));
                }
            },
        }
        let fields = card.fields();
        let pid = match id_field(fields, 0) {
            Ok(v) => v,
            Err(e) => return Err(e),
        };
        let mid = match id_field(fields, 1) {
            Ok(v) => v,
            Err(e) => return Err(e),
        };
        let cordm = match field_opt(fields, 2).id_or(0) {
            Ok(v) => v,
            Err(e) => return Err(e),
        };
        Ok(
            PSOLID {
                pid,
                mid,
                cordm,
                integration: field_or_blank(fields, 3),
                stress: field_or_blank(fields, 4),
                isop: field_or_blank(fields, 5),
                fctn: field_or_blank(fields, 6),
            },
        )
    }
}

/// What a store gives back for an id after an item was stored: the item
/// stored last with that id; for any other id, what it gave before.
pub proof fn law_get_after_insert<T: StorageItem>(before: Storage<T>, after: Storage<T>, item: T, other: u32)
    requires
        before.wf(),
        after.view() == before.view().insert(item.spec_id(), item),
    ensures
        after.view().contains_key(item.spec_id()),
        after.view()[item.spec_id()] == item,
        other != item.spec_id() ==> (after.view().contains_key(other) == before.view().contains_key(other)
            && (before.view().contains_key(other) ==> after.view()[other] == before.view()[other])),
{
}

} // verus!
