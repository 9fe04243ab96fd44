use vstd::prelude::*;

use crate::atom::{Atom, AtomView};
use crate::changed::Changed;
use crate::index::AtomIndex;
use crate::seq_diff::{atoms, changed_views};

verus! {

/// The report of a set element: `Added` where `added`, else `Removed`.
pub open spec fn membership<A>(v: A, added: bool) -> Changed<A> {
    if added {
        Changed::Added(v)
    } else {
        Changed::Removed(v)
    }
}

/// The last of the first `end` positions of `s` holding `v`, or -1.
pub open spec fn last_at<A>(s: Seq<A>, v: A, end: int) -> int
    decreases end,
{
    if end <= 0 {
        -1
    } else if s[end - 1] == v {
        end - 1
    } else {
        last_at(s, v, end - 1)
    }
}

/// The elements among the first `end` of `a` that `b` lacks, each reported
/// as added (where `added`) or removed, in the order of `a`. An element that
/// `a` repeats is reported once, at its last position.
pub open spec fn missing<A>(a: Seq<A>, b: Seq<A>, end: int, added: bool) -> Seq<Changed<A>>
    decreases end,
{
    if end <= 0 {
        seq![]
    } else {
        missing(a, b, end - 1, added) + if b.contains(a[end - 1]) || last_at(
            a,
            a[end - 1],
            a.len() as int,
        ) != end - 1 {
            seq![]
        } else {
            seq![membership(a[end - 1], added)]
        }
    }
}

/// The changes from set `o` to set `n`: each element of `o` that `n` lacks
/// is `Removed`, then each element of `n` that `o` lacks is `Added`.
pub open spec fn set_changes<A>(o: Seq<A>, n: Seq<A>) -> Seq<Changed<A>> {
    missing(o, n, o.len() as int, false) + missing(n, o, n.len() as int, true)
}

/// An index from each element of `s` to its last position.
fn index_of(s: &Vec<Atom>) -> (r: AtomIndex)
    ensures
        forall|v: AtomView| #[trigger] r@.contains_key(v) <==> atoms(s@).contains(v),
        forall|v: AtomView| #[trigger]
            r@.contains_key(v) ==> r@[v] == last_at(atoms(s@), v, s.len() as int),
{
    let ghost e = atoms(s@);
    let mut index = AtomIndex::new();
    let mut i: usize = 0;
    while i < s.len()
        invariant
            e == atoms(s@),
            i <= s.len(),
            forall|v: AtomView| #[trigger]
                index@.contains_key(v) <==> exists|p: int| 0 <= p < i && s@[p]@ == v,
            forall|v: AtomView| #[trigger]
                index@.contains_key(v) ==> index@[v] == last_at(e, v, i as int),
        decreases s.len() - i,
    {
        assert(e[i as int] == s@[i as int]@);
        index.insert(&s[i], i);
        proof {
            assert forall|v: AtomView| #[trigger] index@.contains_key(v) implies exists|p: int|
                0 <= p < i + 1 && s@[p]@ == v by {
                if v == s@[i as int]@ {
                    assert(s@[i as int]@ == v);
                }
            }
        }
        i = i + 1;
    }
    proof {
        assert forall|v: AtomView| #[trigger] index@.contains_key(v) implies atoms(s@).contains(v) by {
            let p = choose|p: int| 0 <= p < s.len() && s@[p]@ == v;
            assert(atoms(s@)[p] == v);
        }
        assert forall|v: AtomView| atoms(s@).contains(v) implies #[trigger] index@.contains_key(v) by {
            let p = choose|p: int| 0 <= p < s.len() && atoms(s@)[p] == v;
            assert(s@[p]@ == v);
        }
    }
    index
}

/// Appends to `out`, for each element of `a` that `b` lacks, an `Added`
/// (where `added`) or a `Removed` event.
fn push_missing(a: &Vec<Atom>, b: &Vec<Atom>, added: bool, out: &mut Vec<Changed<Atom>>)
    ensures
        changed_views(final(out)@) == changed_views(old(out)@) + missing(
            atoms(a@),
            atoms(b@),
            a.len() as int,
            added,
        ),
{
    let ghost start = changed_views(out@);
    let index = index_of(b);
    let own = index_of(a);
    let mut i: usize = 0;
    while i < a.len()
        invariant
            i <= a.len(),
            forall|v: AtomView| #[trigger] index@.contains_key(v) <==> atoms(b@).contains(v),
            forall|v: AtomView| #[trigger] own@.contains_key(v) <==> atoms(a@).contains(v),
            forall|v: AtomView| #[trigger]
                own@.contains_key(v) ==> own@[v] == last_at(atoms(a@), v, a.len() as int),
            changed_views(out@) == start + missing(atoms(a@), atoms(b@), i as int, added),
        decreases a.len() - i,
    {
        let ghost v = atoms(a@)[i as int];
        assert(v == a@[i as int]@);
        assert(atoms(a@).contains(v));
        let ghost step = if atoms(b@).contains(v) || last_at(atoms(a@), v, a.len() as int) != i {
            seq![]
        } else {
            seq![membership(v, added)]
        };
        assert(missing(atoms(a@), atoms(b@), i + 1, added) == missing(atoms(a@), atoms(b@), i as int, added)
            + step);
        let last = match own.get(&a[i]) {
            Some(p) => p == i,
            None => false,
        };
        let found = index.get(&a[i]);
        if last && found.is_none() {
            if added {
                out.push(Changed::Added(a[i].copy()));
            } else {
                out.push(Changed::Removed(a[i].copy()));
            }
        }
        assert(changed_views(out@) =~= start + missing(atoms(a@), atoms(b@), i as int, added) + step);
        i = i + 1;
    }
}

/// Compares two sets given by their elements: each element of `old` that
/// `new` lacks is reported `Removed`, then each element of `new` that `old`
/// lacks is reported `Added`. A repeated element is reported once.
pub fn diff_set(old: &Vec<Atom>, new: &Vec<Atom>) -> (r: Vec<Changed<Atom>>)
    ensures
        changed_views(r@) == set_changes(atoms(old@), atoms(new@)),
{
    let mut out: Vec<Changed<Atom>> = Vec::new();
    push_missing(old, new, false, &mut out);
    push_missing(new, old, true, &mut out);
    assert(changed_views(out@) =~= set_changes(atoms(old@), atoms(new@)));
    out
}

} // verus!
