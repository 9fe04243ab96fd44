use vstd::prelude::*;

verus! {

/// A leaf value: the content of a scalar field, or one element of a
/// sequence, set or map field. Atoms are compared by exact equality.
#[derive(Debug, Clone)]
pub enum Atom {
    Int(i64),
    UInt(u64),
    Bool(bool),
    Char(char),
    Text(String),
}

/// The mathematical value of an [`Atom`]: text is seen as its characters.
pub enum AtomView {
    Int(i64),
    UInt(u64),
    Bool(bool),
    Char(char),
    Text(Seq<char>),
}

impl View for Atom {
    type V = AtomView;

    open spec fn view(&self) -> AtomView {
        match self {
            Atom::Int(x) => AtomView::Int(*x),
            Atom::UInt(x) => AtomView::UInt(*x),
            Atom::Bool(b) => AtomView::Bool(*b),
            Atom::Char(c) => AtomView::Char(*c),
            Atom::Text(s) => AtomView::Text(s@),
        }
    }
}

impl Atom {
    /// A text atom holding a copy of `s`.
    pub fn text(s: &str) -> (r: Atom)
        ensures
            r@ == AtomView::Text(s@),
    {
        Atom::Text(s.to_owned())
    }

    /// A copy of this atom.
    pub fn copy(&self) -> (r: Atom)
        ensures
            r == *self,
            r@ == self@,
    {
        match self {
            Atom::Int(x) => Atom::Int(*x),
            Atom::UInt(x) => Atom::UInt(*x),
            Atom::Bool(b) => Atom::Bool(*b),
            Atom::Char(c) => Atom::Char(*c),
            Atom::Text(s) => Atom::Text(s.clone()),
        }
    }
}

impl PartialEq for Atom {
    fn eq(&self, other: &Atom) -> (r: bool)
        ensures
            r == (self@ == other@),
    {
        match (self, other) {
            (Atom::Int(a), Atom::Int(b)) => *a == *b,
            (Atom::UInt(a), Atom::UInt(b)) => *a == *b,
            (Atom::Bool(a), Atom::Bool(b)) => *a == *b,
            (Atom::Char(a), Atom::Char(b)) => *a == *b,
            (Atom::Text(a), Atom::Text(b)) => *a == *b,
            _ => false,
        }
    }
}

impl vstd::std_specs::cmp::PartialEqSpecImpl for Atom {
    open spec fn obeys_eq_spec() -> bool {
        true
    }

    open spec fn eq_spec(&self, other: &Atom) -> bool {
        self@ == other@
    }
}

impl Eq for Atom {
}

} // verus!
