use vstd::prelude::*;

use crate::atom::{Atom, AtomView};
use crate::map_diff::entries;
use crate::seq_diff::atoms;
use crate::value::{fields_view, Field, FieldView, Record, Value, ValueView};

verus! {

/// The old and new values of one field, tagged with the field's kind.
#[derive(Debug)]
pub enum Pair {
    /// A leaf field, compared by equality.
    Scalar(Atom, Atom),
    /// An ordered sequence, compared position by position.
    Sequence(Vec<Atom>, Vec<Atom>),
    /// A set given by its elements, compared by membership; an element given
    /// twice counts once.
    Members(Vec<Atom>, Vec<Atom>),
    /// A map given by its entries, compared key by key; a repeated key counts
    /// with its last entry.
    Entries(Vec<(Atom, Atom)>, Vec<(Atom, Atom)>),
    /// A nested composite, described field by field.
    Nested(Vec<FieldPair>),
}

/// One field of a composite as the comparison sees it: its name, whether it
/// is skipped, and its old and new values.
///
/// A skipped field is never compared and never reported; it only appears in
/// the snapshot of the new value.
#[derive(Debug)]
pub struct FieldPair {
    pub name: String,
    pub skip: bool,
    pub values: Pair,
}

/// The mathematical value of a [`Pair`].
pub enum PairView {
    Scalar(AtomView, AtomView),
    Sequence(Seq<AtomView>, Seq<AtomView>),
    Members(Seq<AtomView>, Seq<AtomView>),
    Entries(Seq<(AtomView, AtomView)>, Seq<(AtomView, AtomView)>),
    Nested(Seq<FieldPairView>),
}

/// The mathematical value of a [`FieldPair`].
pub struct FieldPairView {
    pub name: Seq<char>,
    pub skip: bool,
    pub values: PairView,
}

pub open spec fn pair_view(p: Pair) -> PairView
    decreases p,
{
    match p {
        Pair::Scalar(a, b) => PairView::Scalar(a@, b@),
        Pair::Sequence(a, b) => PairView::Sequence(atoms(a@), atoms(b@)),
        Pair::Members(a, b) => PairView::Members(atoms(a@), atoms(b@)),
        Pair::Entries(a, b) => PairView::Entries(entries(a@), entries(b@)),
        Pair::Nested(ps) => PairView::Nested(pairs_view(ps@)),
    }
}

pub open spec fn pairs_view(s: Seq<FieldPair>) -> Seq<FieldPairView>
    decreases s,
{
    if s.len() == 0 {
        seq![]
    } else {
        pairs_view(s.drop_last()).push(
            FieldPairView {
                name: s.last().name@,
                skip: s.last().skip,
                values: pair_view(s.last().values),
            },
        )
    }
}

impl View for Pair {
    type V = PairView;

    open spec fn view(&self) -> PairView {
        pair_view(*self)
    }
}

impl View for FieldPair {
    type V = FieldPairView;

    open spec fn view(&self) -> FieldPairView {
        FieldPairView { name: self.name@, skip: self.skip, values: pair_view(self.values) }
    }
}

/// The new side of a field's values.
pub open spec fn new_value(p: PairView) -> ValueView
    decreases p,
{
    match p {
        PairView::Scalar(_, b) => ValueView::Scalar(b),
        PairView::Sequence(_, b) => ValueView::Sequence(b),
        PairView::Members(_, b) => ValueView::Members(b),
        PairView::Entries(_, b) => ValueView::Entries(b),
        PairView::Nested(ps) => ValueView::Record(new_record(ps)),
    }
}

/// The new composite value that `ps` describes: every field, skipped ones
/// included, with its new value.
pub open spec fn new_record(ps: Seq<FieldPairView>) -> Seq<FieldView>
    decreases ps,
{
    if ps.len() == 0 {
        seq![]
    } else {
        new_record(ps.drop_last()).push(
            FieldView { name: ps.last().name, value: new_value(ps.last().values) },
        )
    }
}

fn copy_atoms(s: &Vec<Atom>) -> (r: Vec<Atom>)
    ensures
        atoms(r@) == atoms(s@),
{
    let mut r: Vec<Atom> = Vec::new();
    let mut i: usize = 0;
    while i < s.len()
        invariant
            i <= s.len(),
            r.len() == i,
            forall|k: int| 0 <= k < i ==> r@[k]@ == s@[k]@,
        decreases s.len() - i,
    {
        r.push(s[i].copy());
        i = i + 1;
    }
    assert(atoms(r@) =~= atoms(s@));
    r
}

fn copy_entries(s: &Vec<(Atom, Atom)>) -> (r: Vec<(Atom, Atom)>)
    ensures
        entries(r@) == entries(s@),
{
    let mut r: Vec<(Atom, Atom)> = Vec::new();
    let mut i: usize = 0;
    while i < s.len()
        invariant
            i <= s.len(),
            r.len() == i,
            forall|k: int| 0 <= k < i ==> r@[k].0@ == s@[k].0@ && r@[k].1@ == s@[k].1@,
        decreases s.len() - i,
    {
        r.push((s[i].0.copy(), s[i].1.copy()));
        i = i + 1;
    }
    assert(entries(r@) =~= entries(s@));
    r
}

impl Pair {
    /// A copy of the new side.
    pub fn new_value(&self) -> (r: Value)
        ensures
            r@ == new_value(self@),
        decreases self,
    {
        match self {
            Pair::Scalar(_, b) => Value::Scalar(b.copy()),
            Pair::Sequence(_, b) => Value::Sequence(copy_atoms(b)),
            Pair::Members(_, b) => Value::Members(copy_atoms(b)),
            Pair::Entries(_, b) => Value::Entries(copy_entries(b)),
            Pair::Nested(ps) => Value::Record(new_record_of(ps)),
        }
    }
}

pub proof fn lemma_pairs_view_step(s: Seq<FieldPair>, i: int)
    requires
        0 <= i < s.len(),
    ensures
        pairs_view(s.take(i + 1)) == pairs_view(s.take(i)).push(s[i]@),
{
    assert(s.take(i + 1).drop_last() =~= s.take(i));
}

proof fn lemma_fields_view_push(s: Seq<Field>, f: Field)
    ensures
        fields_view(s.push(f)) == fields_view(s).push(FieldView { name: f.name@, value: f.value@ }),
{
    assert(s.push(f).drop_last() =~= s);
}

proof fn lemma_new_record_push(s: Seq<FieldPairView>, p: FieldPairView)
    ensures
        new_record(s.push(p)) == new_record(s).push(
            FieldView { name: p.name, value: new_value(p.values) },
        ),
{
    assert(s.push(p).drop_last() =~= s);
}

/// A copy of the new composite value that `ps` describes.
pub fn new_record_of(ps: &Vec<FieldPair>) -> (r: Record)
    ensures
        r@ == new_record(pairs_view(ps@)),
    decreases ps,
{
    let ghost pv = pairs_view(ps@);
    let mut fields: Vec<Field> = Vec::new();
    let mut i: usize = 0;
    while i < ps.len()
        invariant
            i <= ps.len(),
            pv == pairs_view(ps@),
            fields_view(fields@) == new_record(pairs_view(ps@.take(i as int))),
        decreases ps.len() - i,
    {
        let value = ps[i].values.new_value();
        let f = Field { name: ps[i].name.clone(), value };
        proof {
            lemma_pairs_view_step(ps@, i as int);
            lemma_fields_view_push(fields@, f);
            lemma_new_record_push(pairs_view(ps@.take(i as int)), ps@[i as int]@);
        }
        fields.push(f);
        i = i + 1;
    }
    assert(ps@.take(ps.len() as int) =~= ps@);
    Record { fields }
}

impl FieldPair {
    /// A leaf field.
    pub fn scalar(name: &str, old: Atom, new: Atom) -> (r: FieldPair)
        ensures
            r@ == (FieldPairView {
                name: name@,
                skip: false,
                values: PairView::Scalar(old@, new@),
            }),
    {
        FieldPair { name: name.to_owned(), skip: false, values: Pair::Scalar(old, new) }
    }

    /// An ordered sequence field.
    pub fn sequence(name: &str, old: Vec<Atom>, new: Vec<Atom>) -> (r: FieldPair)
        ensures
            r@ == (FieldPairView {
                name: name@,
                skip: false,
                values: PairView::Sequence(atoms(old@), atoms(new@)),
            }),
    {
        FieldPair { name: name.to_owned(), skip: false, values: Pair::Sequence(old, new) }
    }

    /// A set field, given by its elements.
    pub fn members(name: &str, old: Vec<Atom>, new: Vec<Atom>) -> (r: FieldPair)
        ensures
            r@ == (FieldPairView {
                name: name@,
                skip: false,
                values: PairView::Members(atoms(old@), atoms(new@)),
            }),
    {
        FieldPair { name: name.to_owned(), skip: false, values: Pair::Members(old, new) }
    }

    /// A map field, given by its entries.
    pub fn entries(name: &str, old: Vec<(Atom, Atom)>, new: Vec<(Atom, Atom)>) -> (r: FieldPair)
        ensures
            r@ == (FieldPairView {
                name: name@,
                skip: false,
                values: PairView::Entries(entries(old@), entries(new@)),
            }),
    {
        FieldPair { name: name.to_owned(), skip: false, values: Pair::Entries(old, new) }
    }

    /// A nested composite field, described by `fields`.
    pub fn nested(name: &str, fields: Vec<FieldPair>) -> (r: FieldPair)
        ensures
            r@ == (FieldPairView {
                name: name@,
                skip: false,
                values: PairView::Nested(pairs_view(fields@)),
            }),
    {
        FieldPair { name: name.to_owned(), skip: false, values: Pair::Nested(fields) }
    }

    /// This field, marked as skipped.
    pub fn skipped(self) -> (r: FieldPair)
        ensures
            r@ == (FieldPairView { skip: true, ..self@ }),
    {
        FieldPair { skip: true, ..self }
    }
}

} // verus!
