use vstd::prelude::*;

verus! {

/// A change to one element of a sequence or set field.
///
/// The positioned variants are reported for sequences, the unpositioned
/// ones for sets. The third field of `AddedAt` and `RemovedAt` is reserved
/// and always zero.
#[derive(Debug, Clone, PartialEq)]
pub enum Changed<T> {
    /// The element is in the new set only.
    Added(T),
    /// The element is in the old set only.
    Removed(T),
    /// `AddedAt(new_index, value, reserved)`: the element at `new_index` of
    /// the new sequence has no partner in the old one.
    AddedAt(usize, T, usize),
    /// `RemovedAt(old_index, value, reserved)`: the element at `old_index` of
    /// the old sequence has no partner in the new one.
    RemovedAt(usize, T, usize),
    /// `Moved(value, old_index, new_index)`: the element kept its value but
    /// not its position.
    Moved(T, usize, usize),
}

impl<T: View> View for Changed<T> {
    type V = Changed<T::V>;

    open spec fn view(&self) -> Changed<T::V> {
        match self {
            Changed::Added(v) => Changed::Added(v@),
            Changed::Removed(v) => Changed::Removed(v@),
            Changed::AddedAt(i, v, c) => Changed::AddedAt(*i, v@, *c),
            Changed::RemovedAt(i, v, c) => Changed::RemovedAt(*i, v@, *c),
            Changed::Moved(v, i, j) => Changed::Moved(v@, *i, *j),
        }
    }
}

/// A change to one key of a map field.
#[derive(Debug, Clone, PartialEq)]
pub enum MapChanged<K, V> {
    /// `AddedEntry(key, new_value)`: the key is in the new map only.
    AddedEntry(K, V),
    /// `RemovedEntry(key, old_value)`: the key is in the old map only.
    RemovedEntry(K, V),
    /// The key is in both maps, with unequal values.
    ChangedEntry(K),
}

impl<K: View, V: View> View for MapChanged<K, V> {
    type V = MapChanged<K::V, V::V>;

    open spec fn view(&self) -> MapChanged<K::V, V::V> {
        match self {
            MapChanged::AddedEntry(k, v) => MapChanged::AddedEntry(k@, v@),
            MapChanged::RemovedEntry(k, v) => MapChanged::RemovedEntry(k@, v@),
            MapChanged::ChangedEntry(k) => MapChanged::ChangedEntry(k@),
        }
    }
}

} // verus!
