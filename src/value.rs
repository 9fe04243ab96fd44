use vstd::prelude::*;

use crate::atom::{Atom, AtomView};
use crate::map_diff::entries;
use crate::seq_diff::atoms;

verus! {

/// One value of a composite: a scalar, a sequence, a set (`Members`), a map
/// (`Entries`), or a nested composite.
///
/// A set is given by its elements, where an element given twice counts
/// once; a map by its entries, where a repeated key counts with its last
/// entry.
#[derive(Debug)]
pub enum Value {
    Scalar(Atom),
    Sequence(Vec<Atom>),
    Members(Vec<Atom>),
    Entries(Vec<(Atom, Atom)>),
    Record(Record),
}

/// A named field of a composite value.
#[derive(Debug)]
pub struct Field {
    pub name: String,
    pub value: Value,
}

/// A composite value: its fields, in declaration order.
#[derive(Debug)]
pub struct Record {
    pub fields: Vec<Field>,
}

/// The mathematical value of a [`Value`].
pub enum ValueView {
    Scalar(AtomView),
    Sequence(Seq<AtomView>),
    Members(Seq<AtomView>),
    Entries(Seq<(AtomView, AtomView)>),
    Record(Seq<FieldView>),
}

/// The mathematical value of a [`Field`].
pub struct FieldView {
    pub name: Seq<char>,
    pub value: ValueView,
}

pub open spec fn value_view(v: Value) -> ValueView
    decreases v,
{
    match v {
        Value::Scalar(a) => ValueView::Scalar(a@),
        Value::Sequence(s) => ValueView::Sequence(atoms(s@)),
        Value::Members(s) => ValueView::Members(atoms(s@)),
        Value::Entries(s) => ValueView::Entries(entries(s@)),
        Value::Record(r) => ValueView::Record(fields_view(r.fields@)),
    }
}

pub open spec fn fields_view(s: Seq<Field>) -> Seq<FieldView>
    decreases s,
{
    if s.len() == 0 {
        seq![]
    } else {
        fields_view(s.drop_last()).push(
            FieldView { name: s.last().name@, value: value_view(s.last().value) },
        )
    }
}

impl View for Value {
    type V = ValueView;

    open spec fn view(&self) -> ValueView {
        value_view(*self)
    }
}

impl View for Record {
    type V = Seq<FieldView>;

    open spec fn view(&self) -> Seq<FieldView> {
        fields_view(self.fields@)
    }
}

/// The position of the first of the first `end` fields named `name`, or -1.
pub open spec fn first_named(fields: Seq<FieldView>, name: Seq<char>, end: int) -> int
    decreases end,
{
    if end <= 0 {
        -1
    } else if first_named(fields, name, end - 1) >= 0 {
        first_named(fields, name, end - 1)
    } else if fields[end - 1].name == name {
        end - 1
    } else {
        -1
    }
}

proof fn lemma_fields_view_index(s: Seq<Field>, k: int)
    requires
        0 <= k < s.len(),
    ensures
        fields_view(s).len() == s.len(),
        fields_view(s)[k] == (FieldView { name: s[k].name@, value: s[k].value@ }),
    decreases s.len(),
{
    if k < s.len() - 1 {
        lemma_fields_view_index(s.drop_last(), k);
    } else {
        lemma_fields_view_len(s.drop_last());
    }
}

proof fn lemma_fields_view_len(s: Seq<Field>)
    ensures
        fields_view(s).len() == s.len(),
    decreases s.len(),
{
    if s.len() > 0 {
        lemma_fields_view_len(s.drop_last());
    }
}

proof fn lemma_first_named_stable(fields: Seq<FieldView>, name: Seq<char>, a: int, b: int)
    requires
        a <= b,
        first_named(fields, name, a) >= 0,
    ensures
        first_named(fields, name, b) == first_named(fields, name, a),
    decreases b - a,
{
    if a < b {
        lemma_first_named_stable(fields, name, a, b - 1);
    }
}

impl Record {
    /// The value of the first field named `name`, if any.
    pub fn get(&self, name: &str) -> (r: Option<&Value>)
        ensures
            match r {
                Some(v) => {
                    let k = first_named(self@, name@, self@.len() as int);
                    k >= 0 && self@[k].value == v@
                },
                None => first_named(self@, name@, self@.len() as int) < 0,
            },
    {
        proof {
            lemma_fields_view_len(self.fields@);
        }
        let key = name.to_owned();
        let mut i: usize = 0;
        while i < self.fields.len()
            invariant
                key@ == name@,
                i <= self.fields.len(),
                self@.len() == self.fields.len(),
                first_named(self@, name@, i as int) < 0,
            decreases self.fields.len() - i,
        {
            proof {
                lemma_fields_view_index(self.fields@, i as int);
            }
            if self.fields[i].name == key {
                proof {
                    lemma_first_named_stable(self@, name@, i + 1, self@.len() as int);
                }
                return Some(&self.fields[i].value);
            }
            i = i + 1;
        }
        None
    }
}

} // verus!
