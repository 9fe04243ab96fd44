use vstd::prelude::*;

use crate::atom::{Atom, AtomView};
use crate::changed::MapChanged;
use crate::index::AtomIndex;

verus! {

/// The mathematical values of a map's entries.
pub open spec fn entries(s: Seq<(Atom, Atom)>) -> Seq<(AtomView, AtomView)> {
    s.map_values(|e: (Atom, Atom)| (e.0@, e.1@))
}

/// The mathematical values of a sequence of entry changes.
pub open spec fn map_changed_views(s: Seq<MapChanged<Atom, Atom>>) -> Seq<
    MapChanged<AtomView, AtomView>,
> {
    s.map_values(|c: MapChanged<Atom, Atom>| c@)
}

/// The last of the first `end` entries of `s` with key `k`, or -1.
///
/// A map is given by its entries; where a key repeats, its last entry
/// counts, as when the entries are inserted in order.
pub open spec fn last_entry<K, V>(s: Seq<(K, V)>, k: K, end: int) -> int
    decreases end,
{
    if end <= 0 {
        -1
    } else if s[end - 1].0 == k {
        end - 1
    } else {
        last_entry(s, k, end - 1)
    }
}

/// Map `s` has key `k`.
pub open spec fn has_key<K, V>(s: Seq<(K, V)>, k: K) -> bool {
    last_entry(s, k, s.len() as int) >= 0
}

/// The value of key `k` in map `s`, where it has that key.
pub open spec fn value_of<K, V>(s: Seq<(K, V)>, k: K) -> V {
    s[last_entry(s, k, s.len() as int)].1
}

/// What old entry `i` reports: nothing when a later entry has its key;
/// otherwise `RemovedEntry` when the new map lacks its key, `ChangedEntry`
/// when it holds another value for it.
pub open spec fn old_entry_event<K, V>(o: Seq<(K, V)>, n: Seq<(K, V)>, i: int) -> Seq<
    MapChanged<K, V>,
> {
    let (k, v) = o[i];
    if last_entry(o, k, o.len() as int) != i {
        seq![]
    } else if !has_key(n, k) {
        seq![MapChanged::RemovedEntry(k, v)]
    } else if value_of(n, k) != v {
        seq![MapChanged::ChangedEntry(k)]
    } else {
        seq![]
    }
}

/// What new entry `j` reports: `AddedEntry` when it is the last entry of
/// its key and the old map lacks that key.
pub open spec fn new_entry_event<K, V>(o: Seq<(K, V)>, n: Seq<(K, V)>, j: int) -> Seq<
    MapChanged<K, V>,
> {
    let (k, v) = n[j];
    if last_entry(n, k, n.len() as int) == j && !has_key(o, k) {
        seq![MapChanged::AddedEntry(k, v)]
    } else {
        seq![]
    }
}

/// The reports of the old entries before `end`, in order.
pub open spec fn old_entry_events<K, V>(o: Seq<(K, V)>, n: Seq<(K, V)>, end: int) -> Seq<
    MapChanged<K, V>,
>
    decreases end,
{
    if end <= 0 {
        seq![]
    } else {
        old_entry_events(o, n, end - 1) + old_entry_event(o, n, end - 1)
    }
}

/// The reports of the new entries before `end`, in order.
pub open spec fn new_entry_events<K, V>(o: Seq<(K, V)>, n: Seq<(K, V)>, end: int) -> Seq<
    MapChanged<K, V>,
>
    decreases end,
{
    if end <= 0 {
        seq![]
    } else {
        new_entry_events(o, n, end - 1) + new_entry_event(o, n, end - 1)
    }
}

/// The changes from map `o` to map `n`: the reports of the old entries, then
/// those of the new ones.
pub open spec fn map_changes<K, V>(o: Seq<(K, V)>, n: Seq<(K, V)>) -> Seq<MapChanged<K, V>> {
    old_entry_events(o, n, o.len() as int) + new_entry_events(o, n, n.len() as int)
}

pub proof fn lemma_last_entry<K, V>(s: Seq<(K, V)>, k: K, end: int)
    requires
        0 <= end <= s.len(),
    ensures
        -1 <= last_entry(s, k, end) < end,
        last_entry(s, k, end) >= 0 ==> s[last_entry(s, k, end)].0 == k,
    decreases end,
{
    if end > 0 {
        lemma_last_entry(s, k, end - 1);
    }
}

/// An index from each key of `s` to its last entry.
fn key_index(s: &Vec<(Atom, Atom)>) -> (r: AtomIndex)
    ensures
        forall|k: AtomView| #[trigger]
            r@.contains_key(k) <==> has_key(entries(s@), k),
        forall|k: AtomView| #[trigger]
            r@.contains_key(k) ==> r@[k] == last_entry(entries(s@), k, s.len() as int),
{
    let ghost e = entries(s@);
    let mut index = AtomIndex::new();
    let mut i: usize = 0;
    while i < s.len()
        invariant
            e == entries(s@),
            i <= s.len(),
            forall|k: AtomView| #[trigger]
                index@.contains_key(k) <==> last_entry(e, k, i as int) >= 0,
            forall|k: AtomView| #[trigger]
                index@.contains_key(k) ==> index@[k] == last_entry(e, k, i as int),
        decreases s.len() - i,
    {
        assert(e[i as int].0 == s@[i as int].0@);
        index.insert(&s[i].0, i);
        i = i + 1;
    }
    index
}

/// Compares two maps given by their entries, where a repeated key counts
/// with its last entry. Each old key that the new map lacks is reported
/// `RemovedEntry`, each that the new map holds with another value
/// `ChangedEntry`, in the order of the old entries; then each new key that
/// the old map lacks is reported `AddedEntry`. A key with the same value in
/// both maps is not reported.
pub fn diff_map(old: &Vec<(Atom, Atom)>, new: &Vec<(Atom, Atom)>) -> (r: Vec<MapChanged<Atom, Atom>>)
    ensures
        map_changed_views(r@) == map_changes(entries(old@), entries(new@)),
{
    let ghost o = entries(old@);
    let ghost n = entries(new@);
    let mut out: Vec<MapChanged<Atom, Atom>> = Vec::new();
    let new_keys = key_index(new);
    let old_keys = key_index(old);
    let mut i: usize = 0;
    while i < old.len()
        invariant
            o == entries(old@),
            n == entries(new@),
            i <= old.len(),
            forall|k: AtomView| #[trigger] old_keys@.contains_key(k) <==> has_key(o, k),
            forall|k: AtomView| #[trigger]
                old_keys@.contains_key(k) ==> old_keys@[k] == last_entry(o, k, old.len() as int),
            forall|k: AtomView| #[trigger] new_keys@.contains_key(k) <==> has_key(n, k),
            forall|k: AtomView| #[trigger]
                new_keys@.contains_key(k) ==> new_keys@[k] == last_entry(n, k, new.len() as int),
            map_changed_views(out@) == old_entry_events(o, n, i as int),
        decreases old.len() - i,
    {
        let (k, v) = (&old[i].0, &old[i].1);
        assert(o[i as int] == (k@, v@));
        let last = match old_keys.get(k) {
            Some(p) => p == i,
            None => false,
        };
        if last {
            match new_keys.get(k) {
                None => {
                    out.push(MapChanged::RemovedEntry(k.copy(), v.copy()));
                },
                Some(p) => {
                    proof {
                        lemma_last_entry(n, k@, n.len() as int);
                    }
                    assert(n[p as int].1 == new@[p as int].1@);
                    if new[p].1 != *v {
                        out.push(MapChanged::ChangedEntry(k.copy()));
                    }
                },
            }
        }
        assert(map_changed_views(out@) =~= old_entry_events(o, n, i + 1));
        i = i + 1;
    }
    let mut j: usize = 0;
    while j < new.len()
        invariant
            o == entries(old@),
            n == entries(new@),
            j <= new.len(),
            forall|k: AtomView| #[trigger] new_keys@.contains_key(k) <==> has_key(n, k),
            forall|k: AtomView| #[trigger]
                new_keys@.contains_key(k) ==> new_keys@[k] == last_entry(n, k, new.len() as int),
            forall|k: AtomView| #[trigger] old_keys@.contains_key(k) <==> has_key(o, k),
            map_changed_views(out@) == old_entry_events(o, n, o.len() as int) + new_entry_events(
                o,
                n,
                j as int,
            ),
        decreases new.len() - j,
    {
        let (k, v) = (&new[j].0, &new[j].1);
        assert(n[j as int] == (k@, v@));
        let ghost step = new_entry_event(o, n, j as int);
        let ghost before = old_entry_events(o, n, o.len() as int) + new_entry_events(o, n, j as int);
        assert(new_entry_events(o, n, j + 1) == new_entry_events(o, n, j as int) + step);
        let last = match new_keys.get(k) {
            Some(p) => p == j,
            None => false,
        };
        let found = old_keys.get(k);
        if last && found.is_none() {
            out.push(MapChanged::AddedEntry(k.copy(), v.copy()));
        }
        assert(map_changed_views(out@) =~= before + step);
        j = j + 1;
    }
    out
}

} // verus!
