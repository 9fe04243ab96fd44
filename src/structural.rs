use vstd::prelude::*;

use crate::atom::{Atom, AtomView};
use crate::change::{
    changes_view, lemma_changes_view_append, lemma_changes_view_push, Change, ChangeView,
};
use crate::changed::{Changed, MapChanged};
use crate::descriptor::{
    lemma_pairs_view_step, new_record, new_record_of, pairs_view, FieldPair, FieldPairView, Pair,
    PairView,
};
use crate::map_diff::{diff_map, map_changed_views, map_changes};
use crate::seq_diff::{changed_views, diff_sequence, sequence_changes};
use crate::set_diff::{diff_set, set_changes};

verus! {

/// The element changes of field `name`, each tagged with the field.
pub open spec fn tag_elements(name: Seq<char>, cs: Seq<Changed<AtomView>>) -> Seq<ChangeView> {
    cs.map_values(|c: Changed<AtomView>| ChangeView::Element(name, c))
}

/// The entry changes of field `name`, each tagged with the field.
pub open spec fn tag_entries(name: Seq<char>, cs: Seq<MapChanged<AtomView, AtomView>>) -> Seq<
    ChangeView,
> {
    cs.map_values(|c: MapChanged<AtomView, AtomView>| ChangeView::Entry(name, c))
}

/// The changes that one field reports: none for a skipped field; for a
/// scalar, its new value when it differs; for a sequence, set or map, one
/// event per changed element or key; for a nested composite, one `Nested`
/// event holding the composite's own changes, when there are any.
pub open spec fn field_changes(p: FieldPairView) -> Seq<ChangeView>
    decreases p,
{
    if p.skip {
        seq![]
    } else {
        match p.values {
            PairView::Scalar(a, b) => if a != b {
                seq![ChangeView::Scalar(p.name, b)]
            } else {
                seq![]
            },
            PairView::Sequence(a, b) => tag_elements(p.name, sequence_changes(a, b)),
            PairView::Members(a, b) => tag_elements(p.name, set_changes(a, b)),
            PairView::Entries(a, b) => tag_entries(p.name, map_changes(a, b)),
            PairView::Nested(ps) => {
                let fe = fields_changes(ps);
                if fe.len() > 0 {
                    seq![ChangeView::Nested(p.name, seq![ChangeView::Snapshot(new_record(ps))] + fe)]
                } else {
                    seq![]
                }
            },
        }
    }
}

/// The changes of all fields, in declaration order.
pub open spec fn fields_changes(ps: Seq<FieldPairView>) -> Seq<ChangeView>
    decreases ps,
{
    if ps.len() == 0 {
        seq![]
    } else {
        fields_changes(ps.drop_last()) + field_changes(ps.last())
    }
}

/// The changes of a composite value: nothing when no field reports a change;
/// otherwise a snapshot of the new value, then the changes of the fields.
pub open spec fn record_changes(ps: Seq<FieldPairView>) -> Seq<ChangeView> {
    let fe = fields_changes(ps);
    if fe.len() > 0 {
        seq![ChangeView::Snapshot(new_record(ps))] + fe
    } else {
        seq![]
    }
}

fn copy_changed(c: &Changed<Atom>) -> (r: Changed<Atom>)
    ensures
        r@ == c@,
{
    match c {
        Changed::Added(v) => Changed::Added(v.copy()),
        Changed::Removed(v) => Changed::Removed(v.copy()),
        Changed::AddedAt(i, v, k) => Changed::AddedAt(*i, v.copy(), *k),
        Changed::RemovedAt(i, v, k) => Changed::RemovedAt(*i, v.copy(), *k),
        Changed::Moved(v, i, j) => Changed::Moved(v.copy(), *i, *j),
    }
}

fn copy_map_changed(c: &MapChanged<Atom, Atom>) -> (r: MapChanged<Atom, Atom>)
    ensures
        r@ == c@,
{
    match c {
        MapChanged::AddedEntry(k, v) => MapChanged::AddedEntry(k.copy(), v.copy()),
        MapChanged::RemovedEntry(k, v) => MapChanged::RemovedEntry(k.copy(), v.copy()),
        MapChanged::ChangedEntry(k) => MapChanged::ChangedEntry(k.copy()),
    }
}

/// Appends the element changes `cs` of field `name` to `out`.
fn push_elements(name: &String, cs: &Vec<Changed<Atom>>, out: &mut Vec<Change>)
    ensures
        changes_view(final(out)@) == changes_view(old(out)@) + tag_elements(name@, changed_views(cs@)),
{
    let ghost start = changes_view(out@);
    let mut i: usize = 0;
    while i < cs.len()
        invariant
            i <= cs.len(),
            changes_view(out@) == start + tag_elements(name@, changed_views(cs@.take(i as int))),
        decreases cs.len() - i,
    {
        let c = Change::Element(name.clone(), copy_changed(&cs[i]));
        proof {
            lemma_changes_view_push(out@, c);
            assert(tag_elements(name@, changed_views(cs@.take(i + 1))) =~= tag_elements(
                name@,
                changed_views(cs@.take(i as int)),
            ).push(c@));
        }
        out.push(c);
        i = i + 1;
    }
    assert(cs@.take(cs.len() as int) =~= cs@);
}

/// Appends the entry changes `cs` of field `name` to `out`.
fn push_entries(name: &String, cs: &Vec<MapChanged<Atom, Atom>>, out: &mut Vec<Change>)
    ensures
        changes_view(final(out)@) == changes_view(old(out)@) + tag_entries(name@, map_changed_views(cs@)),
{
    let ghost start = changes_view(out@);
    let mut i: usize = 0;
    while i < cs.len()
        invariant
            i <= cs.len(),
            changes_view(out@) == start + tag_entries(name@, map_changed_views(cs@.take(i as int))),
        decreases cs.len() - i,
    {
        let c = Change::Entry(name.clone(), copy_map_changed(&cs[i]));
        proof {
            lemma_changes_view_push(out@, c);
            assert(tag_entries(name@, map_changed_views(cs@.take(i + 1))) =~= tag_entries(
                name@,
                map_changed_views(cs@.take(i as int)),
            ).push(c@));
        }
        out.push(c);
        i = i + 1;
    }
    assert(cs@.take(cs.len() as int) =~= cs@);
}

/// Appends the changes that field `p` reports to `out`.
fn push_field_changes(p: &FieldPair, out: &mut Vec<Change>)
    ensures
        changes_view(final(out)@) == changes_view(old(out)@) + field_changes(p@),
    decreases p,
{
    if p.skip {
        assert(changes_view(out@) + field_changes(p@) =~= changes_view(out@));
        return ;
    }
    match &p.values {
        Pair::Scalar(a, b) => {
            if *a != *b {
                let c = Change::Scalar(p.name.clone(), b.copy());
                proof {
                    lemma_changes_view_push(out@, c);
                }
                out.push(c);
            } else {
                assert(changes_view(out@) + field_changes(p@) =~= changes_view(out@));
            }
        },
        Pair::Sequence(a, b) => {
            let cs = diff_sequence(a, b);
            push_elements(&p.name, &cs, out);
        },
        Pair::Members(a, b) => {
            let cs = diff_set(a, b);
            push_elements(&p.name, &cs, out);
        },
        Pair::Entries(a, b) => {
            let cs = diff_map(a, b);
            push_entries(&p.name, &cs, out);
        },
        Pair::Nested(ps) => {
            let subs = diff_fields(ps);
            if subs.len() > 0 {
                let c = Change::Nested(p.name.clone(), subs);
                proof {
                    lemma_changes_view_push(out@, c);
                }
                out.push(c);
            } else {
                assert(changes_view(out@) + field_changes(p@) =~= changes_view(out@));
            }
        },
    }
}

proof fn lemma_fields_changes_step(ps: Seq<FieldPair>, i: int)
    requires
        0 <= i < ps.len(),
    ensures
        fields_changes(pairs_view(ps.take(i + 1))) == fields_changes(pairs_view(ps.take(i)))
            + field_changes(ps[i]@),
{
    assert(ps.take(i + 1).drop_last() =~= ps.take(i));
    let pv = pairs_view(ps.take(i + 1));
    assert(pv.drop_last() =~= pairs_view(ps.take(i)));
}

/// Compares the old and new values of a composite, field by field.
///
/// Returns nothing when no field reports a change. Otherwise the first event
/// is a snapshot of the whole new value, followed by the changes of each
/// field in declaration order: a skipped field reports nothing; a scalar
/// reports its new value when it differs; a sequence, set or map reports
/// each changed element or key under the field's name; a nested composite
/// reports one `Nested` event that holds its own changes, snapshot first.
pub fn diff_fields(ps: &Vec<FieldPair>) -> (r: Vec<Change>)
    ensures
        changes_view(r@) == record_changes(pairs_view(ps@)),
        r@.len() > 0 <==> fields_changes(pairs_view(ps@)).len() > 0,
        r@.len() > 0 ==> r@[0] is Snapshot,
    decreases ps,
{
    let mut fe: Vec<Change> = Vec::new();
    let mut i: usize = 0;
    while i < ps.len()
        invariant
            i <= ps.len(),
            changes_view(fe@) == fields_changes(pairs_view(ps@.take(i as int))),
        decreases ps.len() - i,
    {
        proof {
            lemma_fields_changes_step(ps@, i as int);
            lemma_pairs_view_step(ps@, i as int);
        }
        push_field_changes(&ps[i], &mut fe);
        i = i + 1;
    }
    assert(ps@.take(ps.len() as int) =~= ps@);
    if fe.len() == 0 {
        assert(changes_view(fe@).len() == 0);
        return fe;
    }
    let mut out: Vec<Change> = Vec::new();
    let snapshot = Change::Snapshot(new_record_of(ps));
    proof {
        lemma_changes_view_push(out@, snapshot);
    }
    out.push(snapshot);
    proof {
        lemma_changes_view_append(out@, fe@);
    }
    out.append(&mut fe);
    out
}

/// A type whose values can be compared field by field.
///
/// `describe` lists the fields of `Self` in declaration order, each with its
/// kind, whether it is skipped, and its value in `old` and in `new`.
pub trait HasChanges {
    fn describe(old: &Self, new: &Self) -> Vec<FieldPair>;
}

/// Compares `old` with `new` field by field, as [`diff_fields`] does on
/// their description.
pub fn diff_changes<T: HasChanges>(old: &T, new: &T) -> (r: Vec<Change>)
    ensures
        exists|ps: Seq<FieldPairView>| changes_view(r@) == record_changes(ps),
        r@.len() > 0 ==> r@[0] is Snapshot,
{
    let ps = T::describe(old, new);
    diff_fields(&ps)
}

} // verus!
