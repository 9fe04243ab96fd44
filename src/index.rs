use vstd::hash_map::{HashMapWithView, StringHashMap};
use vstd::prelude::*;

use crate::atom::{Atom, AtomView};

verus! {

broadcast use vstd::std_specs::hash::group_hash_axioms;

/// A hash map from atoms to positions, giving expected constant-time
/// lookups. Each kind of atom lives in a map keyed by a type that hashes
/// by value.
pub struct AtomIndex {
    ints: HashMapWithView<i64, usize>,
    uints: HashMapWithView<u64, usize>,
    bools: HashMapWithView<bool, usize>,
    chars: HashMapWithView<u32, usize>,
    texts: StringHashMap<usize>,
}

impl AtomIndex {
    /// Whether `a` has an entry.
    pub closed spec fn has(&self, a: AtomView) -> bool {
        match a {
            AtomView::Int(x) => self.ints@.contains_key(x),
            AtomView::UInt(x) => self.uints@.contains_key(x),
            AtomView::Bool(b) => self.bools@.contains_key(b),
            AtomView::Char(c) => self.chars@.contains_key(c as u32),
            AtomView::Text(s) => self.texts@.contains_key(s),
        }
    }

    /// The position stored for `a`, where it has an entry.
    pub closed spec fn at(&self, a: AtomView) -> usize {
        match a {
            AtomView::Int(x) => self.ints@[x],
            AtomView::UInt(x) => self.uints@[x],
            AtomView::Bool(b) => self.bools@[b],
            AtomView::Char(c) => self.chars@[c as u32],
            AtomView::Text(s) => self.texts@[s],
        }
    }
}

impl View for AtomIndex {
    type V = Map<AtomView, usize>;

    closed spec fn view(&self) -> Map<AtomView, usize> {
        Map::new(|a: AtomView| self.has(a), |a: AtomView| self.at(a))
    }
}

impl AtomIndex {
    pub fn new() -> (r: AtomIndex)
        ensures
            r@ == Map::<AtomView, usize>::empty(),
    {
        let r = AtomIndex {
            ints: HashMapWithView::new(),
            uints: HashMapWithView::new(),
            bools: HashMapWithView::new(),
            chars: HashMapWithView::new(),
            texts: StringHashMap::new(),
        };
        assert(r@ =~= Map::<AtomView, usize>::empty());
        r
    }

    /// The position stored for `a`, if any.
    pub fn get(&self, a: &Atom) -> (r: Option<usize>)
        ensures
            r == (if self@.contains_key(a@) {
                Some(self@[a@])
            } else {
                None
            }),
    {
        let found = match a {
            Atom::Int(x) => self.ints.get(x),
            Atom::UInt(x) => self.uints.get(x),
            Atom::Bool(b) => self.bools.get(b),
            Atom::Char(c) => {
                let k: u32 = *c as u32;
                self.chars.get(&k)
            },
            Atom::Text(s) => self.texts.get(s.as_str()),
        };
        match found {
            Some(i) => Some(*i),
            None => None,
        }
    }

    /// Stores position `i` for `a`, replacing any earlier entry.
    pub fn insert(&mut self, a: &Atom, i: usize)
        ensures
            final(self)@ == old(self)@.insert(a@, i),
    {
        match a {
            Atom::Int(x) => self.ints.insert(*x, i),
            Atom::UInt(x) => self.uints.insert(*x, i),
            Atom::Bool(b) => self.bools.insert(*b, i),
            Atom::Char(c) => {
                let k: u32 = *c as u32;
                self.chars.insert(k, i)
            },
            Atom::Text(s) => self.texts.insert(s.clone(), i),
        }
        assert(self@ =~= old(self)@.insert(a@, i));
    }
}

} // verus!
