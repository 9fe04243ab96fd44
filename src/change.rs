use vstd::prelude::*;

use crate::atom::{Atom, AtomView};
use crate::changed::{Changed, MapChanged};
use crate::value::{FieldView, Record};

verus! {

/// One reported difference between two composite values.
#[derive(Debug)]
pub enum Change {
    /// Some field differs; holds the whole new value. It is the first event
    /// of its composite.
    Snapshot(Record),
    /// `Scalar(field, new_value)`: a leaf field differs.
    Scalar(String, Atom),
    /// `Element(field, change)`: an element of a sequence or set field.
    Element(String, Changed<Atom>),
    /// `Entry(field, change)`: a key of a map field.
    Entry(String, MapChanged<Atom, Atom>),
    /// `Nested(field, changes)`: the changes of a nested composite field.
    Nested(String, Vec<Change>),
}

/// The mathematical value of a [`Change`].
pub enum ChangeView {
    Snapshot(Seq<FieldView>),
    Scalar(Seq<char>, AtomView),
    Element(Seq<char>, Changed<AtomView>),
    Entry(Seq<char>, MapChanged<AtomView, AtomView>),
    Nested(Seq<char>, Seq<ChangeView>),
}

pub open spec fn change_view(c: Change) -> ChangeView
    decreases c,
{
    match c {
        Change::Snapshot(r) => ChangeView::Snapshot(r@),
        Change::Scalar(name, a) => ChangeView::Scalar(name@, a@),
        Change::Element(name, e) => ChangeView::Element(name@, e@),
        Change::Entry(name, e) => ChangeView::Entry(name@, e@),
        Change::Nested(name, subs) => ChangeView::Nested(name@, changes_view(subs@)),
    }
}

/// The mathematical values of a sequence of changes.
pub open spec fn changes_view(s: Seq<Change>) -> Seq<ChangeView>
    decreases s,
{
    if s.len() == 0 {
        seq![]
    } else {
        changes_view(s.drop_last()).push(change_view(s.last()))
    }
}

impl View for Change {
    type V = ChangeView;

    open spec fn view(&self) -> ChangeView {
        change_view(*self)
    }
}

pub proof fn lemma_changes_view_push(s: Seq<Change>, c: Change)
    ensures
        changes_view(s.push(c)) == changes_view(s).push(c@),
{
    assert(s.push(c).drop_last() =~= s);
}

pub proof fn lemma_changes_view_append(a: Seq<Change>, b: Seq<Change>)
    ensures
        changes_view(a + b) == changes_view(a) + changes_view(b),
    decreases b.len(),
{
    if b.len() == 0 {
        assert(a + b =~= a);
        assert(changes_view(a) + changes_view(b) =~= changes_view(a));
    } else {
        lemma_changes_view_append(a, b.drop_last());
        assert((a + b).drop_last() =~= a + b.drop_last());
        assert((a + b).last() == b.last());
        assert(changes_view(a) + changes_view(b) =~= (changes_view(a) + changes_view(b.drop_last())).push(
            change_view(b.last()),
        ));
    }
}

} // verus!
