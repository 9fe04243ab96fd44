use vstd::prelude::*;

use crate::atom::{Atom, AtomView};
use crate::changed::Changed;
use crate::index::AtomIndex;

verus! {

/// The mathematical values of a sequence of atoms.
pub open spec fn atoms(s: Seq<Atom>) -> Seq<AtomView> {
    s.map_values(|a: Atom| a@)
}

/// The mathematical values of a sequence of element changes.
pub open spec fn changed_views(s: Seq<Changed<Atom>>) -> Seq<Changed<AtomView>> {
    s.map_values(|c: Changed<Atom>| c@)
}

/// How many positions before `end` hold `v`.
pub open spec fn occurrences<A>(s: Seq<A>, v: A, end: int) -> nat
    decreases end,
{
    if end <= 0 {
        0
    } else {
        occurrences(s, v, end - 1) + if s[end - 1] == v {
            1nat
        } else {
            0nat
        }
    }
}

/// The rank of position `k`: how many equal elements come before it.
pub open spec fn rank<A>(s: Seq<A>, k: int) -> nat {
    occurrences(s, s[k], k)
}

/// Old position `i` is matched with new position `j`: they hold the same
/// value, and as many equal elements come before each of them. Occurrences
/// of one value are thus matched first to first, second to second, and so on.
pub open spec fn paired<A>(o: Seq<A>, n: Seq<A>, i: int, j: int) -> bool {
    &&& 0 <= i < o.len()
    &&& 0 <= j < n.len()
    &&& o[i] == n[j]
    &&& rank(o, i) == rank(n, j)
}

/// New position `j` has a partner in the old sequence.
pub open spec fn new_matched<A>(o: Seq<A>, n: Seq<A>, j: int) -> bool {
    rank(n, j) < occurrences(o, n[j], o.len() as int)
}

/// Old position `i` has a partner in the new sequence.
pub open spec fn old_matched<A>(o: Seq<A>, n: Seq<A>, i: int) -> bool {
    rank(o, i) < occurrences(n, o[i], n.len() as int)
}

/// The old position matched with new position `j`.
pub open spec fn partner<A>(o: Seq<A>, n: Seq<A>, j: int) -> int {
    choose|i: int| paired(o, n, i, j)
}

/// What new position `j` reports: a move when its partner stood elsewhere,
/// nothing when it stood at the same index, an addition when it has none.
pub open spec fn new_event<A>(o: Seq<A>, n: Seq<A>, j: int) -> Seq<Changed<A>> {
    if new_matched(o, n, j) {
        let i = partner(o, n, j);
        if i != j {
            seq![Changed::Moved(n[j], i as usize, j as usize)]
        } else {
            seq![]
        }
    } else {
        seq![Changed::AddedAt(j as usize, n[j], 0)]
    }
}

/// What old position `i` reports: a removal when it has no partner.
pub open spec fn old_event<A>(o: Seq<A>, n: Seq<A>, i: int) -> Seq<Changed<A>> {
    if old_matched(o, n, i) {
        seq![]
    } else {
        seq![Changed::RemovedAt(i as usize, o[i], 0)]
    }
}

/// The reports of the new positions before `end`, in order.
pub open spec fn new_events<A>(o: Seq<A>, n: Seq<A>, end: int) -> Seq<Changed<A>>
    decreases end,
{
    if end <= 0 {
        seq![]
    } else {
        new_events(o, n, end - 1) + new_event(o, n, end - 1)
    }
}

/// The reports of the old positions before `end`, in order.
pub open spec fn old_events<A>(o: Seq<A>, n: Seq<A>, end: int) -> Seq<Changed<A>>
    decreases end,
{
    if end <= 0 {
        seq![]
    } else {
        old_events(o, n, end - 1) + old_event(o, n, end - 1)
    }
}

/// The changes from sequence `o` to sequence `n`: the reports of all new
/// positions, then those of all old positions.
pub open spec fn sequence_changes<A>(o: Seq<A>, n: Seq<A>) -> Seq<Changed<A>> {
    new_events(o, n, n.len() as int) + old_events(o, n, o.len() as int)
}

pub proof fn lemma_occurrences_monotonic<A>(s: Seq<A>, v: A, a: int, b: int)
    requires
        a <= b,
    ensures
        occurrences(s, v, a) <= occurrences(s, v, b),
    decreases b - a,
{
    if a < b {
        lemma_occurrences_monotonic(s, v, a, b - 1);
    }
}

/// Two positions holding the same value have different ranks.
pub proof fn lemma_rank_distinct<A>(s: Seq<A>, a: int, b: int)
    requires
        0 <= a < s.len(),
        0 <= b < s.len(),
        a != b,
        s[a] == s[b],
    ensures
        rank(s, a) != rank(s, b),
{
    if a < b {
        lemma_occurrences_monotonic(s, s[a], a + 1, b);
    } else {
        lemma_occurrences_monotonic(s, s[b], b + 1, a);
    }
}

/// Every rank below the number of occurrences belongs to some position.
pub proof fn lemma_rank_exists<A>(s: Seq<A>, v: A, r: nat, end: int) -> (k: int)
    requires
        end <= s.len(),
        r < occurrences(s, v, end),
    ensures
        0 <= k < end,
        s[k] == v,
        rank(s, k) == r,
    decreases end,
{
    if r < occurrences(s, v, end - 1) {
        lemma_rank_exists(s, v, r, end - 1)
    } else {
        end - 1
    }
}

/// A matched new position is paired with exactly its partner.
pub proof fn lemma_partner<A>(o: Seq<A>, n: Seq<A>, i: int, j: int)
    requires
        paired(o, n, i, j),
    ensures
        new_matched(o, n, j),
        partner(o, n, j) == i,
{
    lemma_occurrences_monotonic(o, o[i], i + 1, o.len() as int);
    let p = partner(o, n, j);
    assert(paired(o, n, p, j));
    if p != i {
        lemma_rank_distinct(o, p, i);
    }
}

/// Compares two sequences element by element, by value.
///
/// Each new element is matched with the earliest old occurrence of its
/// value that no earlier new element took. A matched element at another
/// index is reported as `Moved`, a matched one at the same index not at
/// all; an unmatched new element is `AddedAt`, an unmatched old one
/// `RemovedAt`. The additions and moves come first, in new order, then the
/// removals, in old order.
pub fn diff_sequence(old: &Vec<Atom>, new: &Vec<Atom>) -> (r: Vec<Changed<Atom>>)
    ensures
        changed_views(r@) == sequence_changes(atoms(old@), atoms(new@)),
{
    let ghost o = atoms(old@);
    let ghost n = atoms(new@);
    // One queue per distinct old value, holding its old positions in order.
    let mut index = AtomIndex::new();
    let mut queues: Vec<Vec<usize>> = Vec::new();
    let ghost mut values: Seq<AtomView> = seq![];
    let mut i: usize = 0;
    while i < old.len()
        invariant
            o == atoms(old@),
            0 <= i <= old.len(),
            queues.len() == values.len(),
            forall|g: int| #![trigger values[g]]
                0 <= g < values.len() ==> index@.contains_key(values[g]) && index@[values[g]] == g,
            forall|v: AtomView| #[trigger]
                index@.contains_key(v) ==> index@[v] < values.len() && values[index@[v] as int] == v,
            forall|v: AtomView| #[trigger]
                index@.contains_key(v) <==> occurrences(o, v, i as int) > 0,
            forall|g: int| #![trigger queues@[g]]
                0 <= g < queues.len() ==> queues@[g]@.len() == occurrences(o, values[g], i as int),
            forall|g: int, r: int| #![trigger queues@[g]@[r]]
                0 <= g < queues.len() && 0 <= r < queues@[g]@.len() ==> {
                    &&& queues@[g]@[r] < i
                    &&& o[queues@[g]@[r] as int] == values[g]
                    &&& rank(o, queues@[g]@[r] as int) == r
                },
        decreases old.len() - i,
    {
        let ghost v = o[i as int];
        assert(old@[i as int]@ == v);
        assert(forall|w: AtomView|
            occurrences(o, w, i + 1) == occurrences(o, w, i as int) + if w == v {
                1nat
            } else {
                0nat
            });
        match index.get(&old[i]) {
            Some(g) => {
                let mut q: Vec<usize> = Vec::new();
                queues.set_and_swap(g, &mut q);
                q.push(i);
                queues.set_and_swap(g, &mut q);
            },
            None => {
                let g = queues.len();
                let mut q: Vec<usize> = Vec::new();
                q.push(i);
                queues.push(q);
                index.insert(&old[i], g);
                proof {
                    values = values.push(v);
                }
            },
        }
        i = i + 1;
    }
    // How many positions of each queue new elements have taken so far.
    let mut taken: Vec<usize> = Vec::new();
    let mut g: usize = 0;
    while g < queues.len()
        invariant
            taken.len() == g,
            g <= queues.len(),
            forall|k: int| 0 <= k < g ==> taken@[k] == 0,
        decreases queues.len() - g,
    {
        taken.push(0);
        g = g + 1;
    }
    // The old positions that some new element took.
    let mut used: Vec<bool> = Vec::new();
    let mut k: usize = 0;
    while k < old.len()
        invariant
            used.len() == k,
            k <= old.len(),
            forall|x: int| 0 <= x < k ==> !used@[x],
        decreases old.len() - k,
    {
        used.push(false);
        k = k + 1;
    }
    assert forall|y: int| 0 <= y < o.len() implies rank(o, y) < occurrences(o, o[y], o.len() as int) by {
        lemma_occurrences_monotonic(o, o[y], y + 1, o.len() as int);
    }
    let mut out: Vec<Changed<Atom>> = Vec::new();
    // Each new element takes the front of its value's queue, if any is left.
    let mut j: usize = 0;
    while j < new.len()
        invariant
            o == atoms(old@),
            n == atoms(new@),
            0 <= j <= new.len(),
            queues.len() == values.len(),
            taken.len() == values.len(),
            used.len() == old.len(),
            forall|g: int| #![trigger values[g]]
                0 <= g < values.len() ==> index@.contains_key(values[g]) && index@[values[g]] == g,
            forall|v: AtomView| #[trigger]
                index@.contains_key(v) ==> index@[v] < values.len() && values[index@[v] as int] == v,
            forall|v: AtomView| #[trigger]
                index@.contains_key(v) <==> occurrences(o, v, o.len() as int) > 0,
            forall|g: int| #![trigger queues@[g]]
                0 <= g < queues.len() ==> queues@[g]@.len() == occurrences(o, values[g], o.len() as int),
            forall|g: int, r: int| #![trigger queues@[g]@[r]]
                0 <= g < queues.len() && 0 <= r < queues@[g]@.len() ==> {
                    &&& queues@[g]@[r] < o.len()
                    &&& o[queues@[g]@[r] as int] == values[g]
                    &&& rank(o, queues@[g]@[r] as int) == r
                },
            forall|g: int| #![trigger taken@[g]]
                0 <= g < taken.len() ==> taken@[g] <= queues@[g]@.len() && (taken@[g] == queues@[g]@.len()
                    || taken@[g] == occurrences(n, values[g], j as int)) && taken@[g] <= occurrences(n, values[g], j as int),
            forall|y: int| #![trigger used@[y]]
                0 <= y < old.len() ==> (used@[y] <==> rank(o, y) < occurrences(n, o[y], j as int)),
            forall|y: int| 0 <= y < o.len() ==> rank(o, y) < occurrences(o, o[y], o.len() as int),
            changed_views(out@) == new_events(o, n, j as int),
        decreases new.len() - j,
    {
        let ghost v = n[j as int];
        assert(new@[j as int]@ == v);
        assert(forall|w: AtomView|
            occurrences(n, w, j + 1) == occurrences(n, w, j as int) + if w == v {
                1nat
            } else {
                0nat
            });
        let mut matched = false;
        match index.get(&new[j]) {
            Some(g) => {
                let c = taken[g];
                if c < queues[g].len() {
                    let oi = queues[g][c];
                    proof {
                        lemma_partner(o, n, oi as int, j as int);
                        assert forall|x: int| 0 <= x < o.len() && x != oi && o[x] == v implies rank(o, x)
                            != rank(o, oi as int) by {
                            lemma_rank_distinct(o, x, oi as int);
                        }
                    }
                    taken.set(g, c + 1);
                    used.set(oi, true);
                    if oi != j {
                        out.push(Changed::Moved(new[j].copy(), oi, j));
                    }
                    matched = true;
                }
            },
            None => {},
        }
        if !matched {
            out.push(Changed::AddedAt(j, new[j].copy(), 0));
        }
        proof {
            assert(changed_views(out@) =~= new_events(o, n, j + 1));
        }
        j = j + 1;
    }
    // Old elements that no new element took are removed.
    let mut x: usize = 0;
    while x < old.len()
        invariant
            o == atoms(old@),
            n == atoms(new@),
            0 <= x <= old.len(),
            used.len() == old.len(),
            forall|y: int| #![trigger used@[y]]
                0 <= y < old.len() ==> (used@[y] <==> rank(o, y) < occurrences(n, o[y], n.len() as int)),
            changed_views(out@) == new_events(o, n, n.len() as int) + old_events(o, n, x as int),
        decreases old.len() - x,
    {
        assert(old@[x as int]@ == o[x as int]);
        if !used[x] {
            out.push(Changed::RemovedAt(x, old[x].copy(), 0));
        }
        proof {
            let ev = old_event(o, n, x as int);
            assert(old_events(o, n, x + 1) == old_events(o, n, x as int) + ev);
            assert(used@[x as int] <==> old_matched(o, n, x as int));
            assert(changed_views(out@) =~= new_events(o, n, n.len() as int) + old_events(o, n, x as int) + ev);
            assert(changed_views(out@) =~= new_events(o, n, n.len() as int) + old_events(o, n, x + 1));
        }
        x = x + 1;
    }
    out
}

} // verus!
