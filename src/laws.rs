use vstd::prelude::*;

use crate::atom::AtomView;
use crate::change::ChangeView;
use crate::changed::{Changed, MapChanged};
use crate::descriptor::{new_record, FieldPairView, PairView};
use crate::map_diff::{
    has_key, lemma_last_entry, last_entry, map_changes, new_entry_event, new_entry_events, old_entry_event,
    old_entry_events, value_of,
};
use crate::seq_diff::{
    lemma_occurrences_monotonic, lemma_partner, lemma_rank_distinct, lemma_rank_exists, new_event,
    new_events, new_matched, old_event, old_events, old_matched, paired, partner, rank,
    sequence_changes,
};
use crate::set_diff::{last_at, membership, missing, set_changes};
use crate::structural::{field_changes, fields_changes, record_changes};

verus! {

/// A field's old and new values are the same, as when a value is compared
/// with itself.
pub open spec fn unchanged(p: PairView) -> bool
    decreases p,
{
    match p {
        PairView::Scalar(a, b) => a == b,
        PairView::Sequence(a, b) => a == b,
        PairView::Members(a, b) => a == b,
        PairView::Entries(a, b) => a == b,
        PairView::Nested(ps) => all_unchanged(ps),
    }
}

/// Every field that is not skipped has the same old and new values; skipped
/// fields may differ.
pub open spec fn all_unchanged(ps: Seq<FieldPairView>) -> bool
    decreases ps,
{
    ps.len() == 0 || (all_unchanged(ps.drop_last()) && (ps.last().skip || unchanged(
        ps.last().values,
    )))
}

proof fn lemma_sequence_same<A>(s: Seq<A>)
    ensures
        sequence_changes(s, s) == Seq::<Changed<A>>::empty(),
{
    assert forall|k: int| 0 <= k < s.len() implies new_event(s, s, k) == Seq::<Changed<A>>::empty()
        && old_event(s, s, k) == Seq::<Changed<A>>::empty() by {
        assert(paired(s, s, k, k));
        lemma_partner(s, s, k, k);
    }
    lemma_new_events_empty(s, s.len() as int);
    lemma_old_events_empty(s, s.len() as int);
}

proof fn lemma_new_events_empty<A>(s: Seq<A>, end: int)
    requires
        end <= s.len(),
        forall|k: int| 0 <= k < s.len() ==> new_event(s, s, k) == Seq::<Changed<A>>::empty(),
    ensures
        new_events(s, s, end) == Seq::<Changed<A>>::empty(),
    decreases end,
{
    if end > 0 {
        lemma_new_events_empty(s, end - 1);
        assert(new_events(s, s, end) =~= Seq::<Changed<A>>::empty());
    }
}

proof fn lemma_old_events_empty<A>(s: Seq<A>, end: int)
    requires
        end <= s.len(),
        forall|k: int| 0 <= k < s.len() ==> old_event(s, s, k) == Seq::<Changed<A>>::empty(),
    ensures
        old_events(s, s, end) == Seq::<Changed<A>>::empty(),
    decreases end,
{
    if end > 0 {
        lemma_old_events_empty(s, end - 1);
        assert(old_events(s, s, end) =~= Seq::<Changed<A>>::empty());
    }
}

proof fn lemma_missing_same<A>(s: Seq<A>, end: int, added: bool)
    requires
        end <= s.len(),
    ensures
        missing(s, s, end, added) == Seq::<Changed<A>>::empty(),
    decreases end,
{
    if end > 0 {
        lemma_missing_same(s, end - 1, added);
        assert(s.contains(s[end - 1]));
        assert(missing(s, s, end, added) =~= Seq::<Changed<A>>::empty());
    }
}

/// A position holding key `k` is at or before the last entry of `k`.
proof fn lemma_last_entry_covers<K, V>(s: Seq<(K, V)>, x: int, end: int)
    requires
        0 <= x < end <= s.len(),
    ensures
        x <= last_entry(s, s[x].0, end),
    decreases end,
{
    if end > x + 1 {
        lemma_last_entry_covers(s, x, end - 1);
    }
}

proof fn lemma_map_same<K, V>(s: Seq<(K, V)>)
    ensures
        map_changes(s, s) == Seq::<MapChanged<K, V>>::empty(),
{
    lemma_entry_events_empty(s, s.len() as int);
}

proof fn lemma_entry_events_empty<K, V>(s: Seq<(K, V)>, end: int)
    requires
        0 <= end <= s.len(),
    ensures
        old_entry_events(s, s, end) == Seq::<MapChanged<K, V>>::empty(),
        new_entry_events(s, s, end) == Seq::<MapChanged<K, V>>::empty(),
    decreases end,
{
    if end > 0 {
        lemma_entry_events_empty(s, end - 1);
        lemma_last_entry_covers(s, end - 1, s.len() as int);
        assert(has_key(s, s[end - 1].0));
        assert(old_entry_events(s, s, end) =~= Seq::<MapChanged<K, V>>::empty());
        assert(new_entry_events(s, s, end) =~= Seq::<MapChanged<K, V>>::empty());
    }
}

proof fn lemma_field_unchanged(p: FieldPairView)
    requires
        p.skip || unchanged(p.values),
    ensures
        field_changes(p) == Seq::<ChangeView>::empty(),
    decreases p,
{
    if !p.skip {
        match p.values {
            PairView::Scalar(a, b) => {},
            PairView::Sequence(a, b) => {
                lemma_sequence_same(a);
                assert(field_changes(p) =~= Seq::<ChangeView>::empty());
            },
            PairView::Members(a, b) => {
                lemma_missing_same(a, a.len() as int, false);
                lemma_missing_same(a, a.len() as int, true);
                assert(set_changes(a, b) =~= Seq::<Changed<AtomView>>::empty());
                assert(field_changes(p) =~= Seq::<ChangeView>::empty());
            },
            PairView::Entries(a, b) => {
                lemma_map_same(a);
                assert(field_changes(p) =~= Seq::<ChangeView>::empty());
            },
            PairView::Nested(ps) => {
                lemma_fields_unchanged(ps);
            },
        }
    }
}

proof fn lemma_fields_unchanged(ps: Seq<FieldPairView>)
    requires
        all_unchanged(ps),
    ensures
        fields_changes(ps) == Seq::<ChangeView>::empty(),
    decreases ps,
{
    if ps.len() > 0 {
        lemma_fields_unchanged(ps.drop_last());
        lemma_field_unchanged(ps.last());
        assert(fields_changes(ps) =~= Seq::<ChangeView>::empty());
    }
}

/// Comparing a value with itself reports nothing: when every field that is
/// not skipped has equal old and new values, at every level of nesting,
/// there is no snapshot and no field event, whatever the skipped fields
/// hold.
pub proof fn lemma_no_op(ps: Seq<FieldPairView>)
    requires
        all_unchanged(ps),
    ensures
        record_changes(ps) == Seq::<ChangeView>::empty(),
{
    lemma_fields_unchanged(ps);
}

proof fn lemma_field_no_snapshot(p: FieldPairView)
    ensures
        forall|k: int| 0 <= k < field_changes(p).len() ==> !(#[trigger] field_changes(p)[k] is Snapshot),
{
}

proof fn lemma_fields_no_snapshot(ps: Seq<FieldPairView>)
    ensures
        forall|k: int| 0 <= k < fields_changes(ps).len() ==> !(#[trigger] fields_changes(ps)[k] is Snapshot),
    decreases ps,
{
    if ps.len() > 0 {
        lemma_fields_no_snapshot(ps.drop_last());
        lemma_field_no_snapshot(ps.last());
        let a = fields_changes(ps.drop_last());
        let b = field_changes(ps.last());
        assert forall|k: int| 0 <= k < fields_changes(ps).len() implies !(
        #[trigger] fields_changes(ps)[k] is Snapshot) by {
            if k < a.len() {
                assert(fields_changes(ps)[k] == a[k]);
            } else {
                assert(fields_changes(ps)[k] == b[k - a.len()]);
            }
        }
    }
}

/// A composite reports a snapshot exactly when at least one of its fields
/// reports a change; the snapshot then holds the whole new value, comes
/// first, and is the only snapshot at that level.
pub proof fn lemma_snapshot_gating(ps: Seq<FieldPairView>)
    ensures
        (exists|k: int| 0 <= k < record_changes(ps).len() && #[trigger] record_changes(ps)[k] is Snapshot)
            <==> fields_changes(ps).len() > 0,
        record_changes(ps).len() > 0 ==> record_changes(ps)[0] == ChangeView::Snapshot(new_record(ps)),
        forall|k: int| 1 <= k < record_changes(ps).len() ==> !(#[trigger] record_changes(ps)[k] is Snapshot),
{
    lemma_fields_no_snapshot(ps);
    let fe = fields_changes(ps);
    if fe.len() > 0 {
        assert(record_changes(ps)[0] is Snapshot);
        assert forall|k: int| 1 <= k < record_changes(ps).len() implies !(
        #[trigger] record_changes(ps)[k] is Snapshot) by {
            assert(record_changes(ps)[k] == fe[k - 1]);
        }
    }
}

/// Some event of `s` satisfies `f`.
pub open spec fn any_event<A>(s: Seq<Changed<A>>, f: spec_fn(Changed<A>) -> bool) -> bool {
    exists|k: int| 0 <= k < s.len() && f(#[trigger] s[k])
}

/// A removal of old position `i`.
pub open spec fn removal_of<A>(i: int) -> spec_fn(Changed<A>) -> bool {
    |c: Changed<A>|
        match c {
            Changed::RemovedAt(x, _, _) => x == i,
            _ => false,
        }
}

/// An addition at new position `j`.
pub open spec fn addition_at<A>(j: int) -> spec_fn(Changed<A>) -> bool {
    |c: Changed<A>|
        match c {
            Changed::AddedAt(x, _, _) => x == j,
            _ => false,
        }
}

/// A move from old position `i` to new position `j`.
pub open spec fn move_of<A>(i: int, j: int) -> spec_fn(Changed<A>) -> bool {
    |c: Changed<A>|
        match c {
            Changed::Moved(_, x, y) => x == i && y == j,
            _ => false,
        }
}

proof fn lemma_any_concat<A>(a: Seq<Changed<A>>, b: Seq<Changed<A>>, f: spec_fn(Changed<A>) -> bool)
    ensures
        any_event(a + b, f) == (any_event(a, f) || any_event(b, f)),
{
    let s = a + b;
    if any_event(s, f) {
        let k = choose|k: int| 0 <= k < s.len() && f(#[trigger] s[k]);
        if k < a.len() {
            assert(s[k] == a[k]);
        } else {
            assert(s[k] == b[k - a.len()]);
        }
    }
    if any_event(a, f) {
        let k = choose|k: int| 0 <= k < a.len() && f(#[trigger] a[k]);
        assert(s[k] == a[k]);
    }
    if any_event(b, f) {
        let k = choose|k: int| 0 <= k < b.len() && f(#[trigger] b[k]);
        assert(s[k + a.len()] == b[k]);
    }
}

proof fn lemma_any_single<A>(s: Seq<Changed<A>>, f: spec_fn(Changed<A>) -> bool)
    requires
        s.len() <= 1,
    ensures
        any_event(s, f) == (s.len() == 1 && f(s[0])),
{
    if s.len() == 1 {
        assert(f(s[0]) ==> 0 <= 0 < s.len() && f(s[0]));
    }
}

proof fn lemma_any_new_events<A>(o: Seq<A>, n: Seq<A>, end: int, f: spec_fn(Changed<A>) -> bool)
    requires
        0 <= end,
    ensures
        any_event(new_events(o, n, end), f) <==> exists|j: int|
            0 <= j < end && #[trigger] any_event(new_event(o, n, j), f),
    decreases end,
{
    if end > 0 {
        lemma_any_new_events(o, n, end - 1, f);
        lemma_any_concat(new_events(o, n, end - 1), new_event(o, n, end - 1), f);
        if any_event(new_events(o, n, end), f) {
            if !any_event(new_event(o, n, end - 1), f) {
                let j = choose|j: int| 0 <= j < end - 1 && #[trigger] any_event(new_event(o, n, j), f);
                assert(0 <= j < end && any_event(new_event(o, n, j), f));
            }
        }
        if exists|j: int| 0 <= j < end && #[trigger] any_event(new_event(o, n, j), f) {
            let j = choose|j: int| 0 <= j < end && #[trigger] any_event(new_event(o, n, j), f);
            if j < end - 1 {
                assert(0 <= j < end - 1 && any_event(new_event(o, n, j), f));
            }
        }
    }
}

proof fn lemma_any_old_events<A>(o: Seq<A>, n: Seq<A>, end: int, f: spec_fn(Changed<A>) -> bool)
    requires
        0 <= end,
    ensures
        any_event(old_events(o, n, end), f) <==> exists|i: int|
            0 <= i < end && #[trigger] any_event(old_event(o, n, i), f),
    decreases end,
{
    if end > 0 {
        lemma_any_old_events(o, n, end - 1, f);
        lemma_any_concat(old_events(o, n, end - 1), old_event(o, n, end - 1), f);
        if any_event(old_events(o, n, end), f) {
            if !any_event(old_event(o, n, end - 1), f) {
                let i = choose|i: int| 0 <= i < end - 1 && #[trigger] any_event(old_event(o, n, i), f);
                assert(0 <= i < end && any_event(old_event(o, n, i), f));
            }
        }
        if exists|i: int| 0 <= i < end && #[trigger] any_event(old_event(o, n, i), f) {
            let i = choose|i: int| 0 <= i < end && #[trigger] any_event(old_event(o, n, i), f);
            if i < end - 1 {
                assert(0 <= i < end - 1 && any_event(old_event(o, n, i), f));
            }
        }
    }
}

proof fn lemma_matched_partner_range<A>(o: Seq<A>, n: Seq<A>, j: int)
    requires
        0 <= j < n.len(),
        new_matched(o, n, j),
    ensures
        paired(o, n, partner(o, n, j), j),
{
    let i = lemma_rank_exists(o, n[j], rank(n, j), o.len() as int);
    assert(paired(o, n, i, j));
}

/// Old position `i` is matched with some new position exactly when its
/// rank is below the number of its value's occurrences in the new sequence.
proof fn lemma_old_matched<A>(o: Seq<A>, n: Seq<A>, i: int)
    requires
        0 <= i < o.len(),
    ensures
        old_matched(o, n, i) <==> exists|j: int| paired(o, n, i, j),
{
    if old_matched(o, n, i) {
        let j = lemma_rank_exists(n, o[i], rank(o, i), n.len() as int);
        assert(paired(o, n, i, j));
    }
    if exists|j: int| paired(o, n, i, j) {
        let j = choose|j: int| paired(o, n, i, j);
        lemma_occurrences_monotonic(n, n[j], j + 1, n.len() as int);
    }
}

/// Every old position is either matched with a new position or reported
/// removed, never both; every new position is either matched with an old
/// position or reported added, never both. The matching is one-to-one, and a
/// matched pair is reported as a move exactly when its positions differ.
pub proof fn lemma_sequence_partition<A>(o: Seq<A>, n: Seq<A>)
    requires
        o.len() <= usize::MAX,
        n.len() <= usize::MAX,
    ensures
        forall|i: int|
            0 <= i < o.len() ==> (#[trigger] any_event(sequence_changes(o, n), removal_of(i))
                <==> !exists|j: int| paired(o, n, i, j)),
        forall|j: int|
            0 <= j < n.len() ==> (#[trigger] any_event(sequence_changes(o, n), addition_at(j))
                <==> !exists|i: int| paired(o, n, i, j)),
        forall|i: int, j: int|
            0 <= i < o.len() && 0 <= j < n.len() ==> (#[trigger] any_event(
                sequence_changes(o, n),
                move_of(i, j),
            ) <==> paired(o, n, i, j) && i != j),
        forall|i: int, j1: int, j2: int|
            #![trigger paired(o, n, i, j1), paired(o, n, i, j2)]
            paired(o, n, i, j1) && paired(o, n, i, j2) ==> j1 == j2,
        forall|i1: int, i2: int, j: int|
            #![trigger paired(o, n, i1, j), paired(o, n, i2, j)]
            paired(o, n, i1, j) && paired(o, n, i2, j) ==> i1 == i2,
{
    let ne = new_events(o, n, n.len() as int);
    let oe = old_events(o, n, o.len() as int);
    assert forall|i: int, j1: int, j2: int| paired(o, n, i, j1) && paired(o, n, i, j2) implies j1
        == j2 by {
        if j1 != j2 {
            lemma_rank_distinct(n, j1, j2);
        }
    }
    assert forall|i1: int, i2: int, j: int| paired(o, n, i1, j) && paired(o, n, i2, j) implies i1
        == i2 by {
        if i1 != i2 {
            lemma_rank_distinct(o, i1, i2);
        }
    }
    assert forall|i: int| 0 <= i < o.len() implies (#[trigger] any_event(
        sequence_changes(o, n),
        removal_of(i),
    ) <==> !exists|j: int| paired(o, n, i, j)) by {
        let f = removal_of::<A>(i);
        lemma_any_concat(ne, oe, f);
        lemma_any_new_events(o, n, n.len() as int, f);
        lemma_any_old_events(o, n, o.len() as int, f);
        assert forall|j: int| 0 <= j < n.len() implies !#[trigger] any_event(new_event(o, n, j), f) by {
            lemma_any_single(new_event(o, n, j), f);
        }
        assert forall|x: int| 0 <= x < o.len() implies (#[trigger] any_event(old_event(o, n, x), f)
            <==> x == i && !old_matched(o, n, i)) by {
            lemma_any_single(old_event(o, n, x), f);
        }
        assert(any_event(old_event(o, n, i), f) <==> !old_matched(o, n, i));
        lemma_old_matched(o, n, i);
    }
    assert forall|j: int| 0 <= j < n.len() implies (#[trigger] any_event(
        sequence_changes(o, n),
        addition_at(j),
    ) <==> !exists|i: int| paired(o, n, i, j)) by {
        let f = addition_at::<A>(j);
        lemma_any_concat(ne, oe, f);
        lemma_any_new_events(o, n, n.len() as int, f);
        lemma_any_old_events(o, n, o.len() as int, f);
        assert forall|x: int| 0 <= x < n.len() implies (#[trigger] any_event(new_event(o, n, x), f)
            <==> x == j && !new_matched(o, n, j)) by {
            lemma_any_single(new_event(o, n, x), f);
        }
        assert forall|x: int| 0 <= x < o.len() implies !#[trigger] any_event(old_event(o, n, x), f) by {
            lemma_any_single(old_event(o, n, x), f);
        }
        assert(any_event(new_event(o, n, j), f) <==> !new_matched(o, n, j));
        if new_matched(o, n, j) {
            lemma_matched_partner_range(o, n, j);
        } else if exists|i: int| paired(o, n, i, j) {
            let i = choose|i: int| paired(o, n, i, j);
            lemma_partner(o, n, i, j);
        }
    }
    assert forall|i: int, j: int| 0 <= i < o.len() && 0 <= j < n.len() implies (#[trigger] any_event(
        sequence_changes(o, n),
        move_of(i, j),
    ) <==> paired(o, n, i, j) && i != j) by {
        let f = move_of::<A>(i, j);
        lemma_any_concat(ne, oe, f);
        lemma_any_new_events(o, n, n.len() as int, f);
        lemma_any_old_events(o, n, o.len() as int, f);
        assert forall|x: int| 0 <= x < n.len() implies (#[trigger] any_event(new_event(o, n, x), f)
            <==> x == j && new_matched(o, n, j) && partner(o, n, j) == i && i != j) by {
            lemma_any_single(new_event(o, n, x), f);
            if new_matched(o, n, x) {
                lemma_matched_partner_range(o, n, x);
            }
        }
        assert forall|x: int| 0 <= x < o.len() implies !#[trigger] any_event(old_event(o, n, x), f) by {
            lemma_any_single(old_event(o, n, x), f);
        }
        assert(any_event(new_event(o, n, j), f) <==> new_matched(o, n, j) && partner(o, n, j) == i
            && i != j);
        if new_matched(o, n, j) {
            lemma_matched_partner_range(o, n, j);
        }
        if paired(o, n, i, j) {
            lemma_partner(o, n, i, j);
        }
    }
}

/// The old position that a sequence change names, or -1.
pub open spec fn old_index<A>(c: Changed<A>) -> int {
    match c {
        Changed::Moved(_, i, _) => i as int,
        Changed::RemovedAt(i, _, _) => i as int,
        _ => -1,
    }
}

/// The new position that a sequence change names, or -1.
pub open spec fn new_index<A>(c: Changed<A>) -> int {
    match c {
        Changed::Moved(_, _, j) => j as int,
        Changed::AddedAt(j, _, _) => j as int,
        _ => -1,
    }
}

proof fn lemma_new_events_indices<A>(o: Seq<A>, n: Seq<A>, end: int)
    requires
        0 <= end <= n.len(),
        o.len() <= usize::MAX,
        n.len() <= usize::MAX,
    ensures
        forall|p: int|
            0 <= p < new_events(o, n, end).len() ==> {
                let c = #[trigger] new_events(o, n, end)[p];
                &&& 0 <= new_index(c) < end
                &&& c is Moved || c is AddedAt
                &&& c is Moved ==> paired(o, n, old_index(c), new_index(c))
            },
        forall|p: int, q: int|
            0 <= p < q < new_events(o, n, end).len() ==> new_index(
                #[trigger] new_events(o, n, end)[p],
            ) != new_index(#[trigger] new_events(o, n, end)[q]),
    decreases end,
{
    if end > 0 {
        lemma_new_events_indices(o, n, end - 1);
        let m = new_events(o, n, end - 1);
        let e = new_event(o, n, end - 1);
        let s = new_events(o, n, end);
        assert(s == m + e);
        if new_matched(o, n, end - 1) {
            lemma_matched_partner_range(o, n, end - 1);
        }
        assert forall|p: int| 0 <= p < s.len() implies {
            let c = #[trigger] s[p];
            &&& 0 <= new_index(c) < end
            &&& c is Moved || c is AddedAt
            &&& c is Moved ==> paired(o, n, old_index(c), new_index(c))
        } by {
            if p < m.len() {
                assert(s[p] == m[p]);
            } else {
                assert(s[p] == e[0]);
            }
        }
        assert forall|p: int, q: int| 0 <= p < q < s.len() implies new_index(#[trigger] s[p])
            != new_index(#[trigger] s[q]) by {
            if q < m.len() {
                assert(s[p] == m[p] && s[q] == m[q]);
            } else {
                assert(s[p] == m[p] && s[q] == e[0]);
            }
        }
    }
}

proof fn lemma_old_events_indices<A>(o: Seq<A>, n: Seq<A>, end: int)
    requires
        0 <= end <= o.len(),
        o.len() <= usize::MAX,
    ensures
        forall|p: int|
            0 <= p < old_events(o, n, end).len() ==> {
                let c = #[trigger] old_events(o, n, end)[p];
                &&& 0 <= old_index(c) < end
                &&& c is RemovedAt
                &&& !old_matched(o, n, old_index(c))
            },
        forall|p: int, q: int|
            0 <= p < q < old_events(o, n, end).len() ==> old_index(
                #[trigger] old_events(o, n, end)[p],
            ) != old_index(#[trigger] old_events(o, n, end)[q]),
    decreases end,
{
    if end > 0 {
        lemma_old_events_indices(o, n, end - 1);
        let m = old_events(o, n, end - 1);
        let e = old_event(o, n, end - 1);
        let s = old_events(o, n, end);
        assert(s == m + e);
        assert forall|p: int| 0 <= p < s.len() implies {
            let c = #[trigger] s[p];
            &&& 0 <= old_index(c) < end
            &&& c is RemovedAt
            &&& !old_matched(o, n, old_index(c))
        } by {
            if p < m.len() {
                assert(s[p] == m[p]);
            } else {
                assert(s[p] == e[0]);
            }
        }
        assert forall|p: int, q: int| 0 <= p < q < s.len() implies old_index(#[trigger] s[p])
            != old_index(#[trigger] s[q]) by {
            if q < m.len() {
                assert(s[p] == m[p] && s[q] == m[q]);
            } else {
                assert(s[p] == m[p] && s[q] == e[0]);
            }
        }
    }
}

/// Each position is named by at most one sequence change: no two changes
/// name the same old position, no two name the same new position, and every
/// position named lies within its sequence.
pub proof fn lemma_sequence_positions_once<A>(o: Seq<A>, n: Seq<A>)
    requires
        o.len() <= usize::MAX,
        n.len() <= usize::MAX,
    ensures
        forall|p: int|
            0 <= p < sequence_changes(o, n).len() ==> old_index(#[trigger] sequence_changes(o, n)[p])
                < o.len() && new_index(sequence_changes(o, n)[p]) < n.len(),
        forall|p: int, q: int|
            0 <= p < q < sequence_changes(o, n).len() && old_index(
                #[trigger] sequence_changes(o, n)[p],
            ) >= 0 ==> old_index(sequence_changes(o, n)[p]) != old_index(
                #[trigger] sequence_changes(o, n)[q],
            ),
        forall|p: int, q: int|
            0 <= p < q < sequence_changes(o, n).len() && new_index(
                #[trigger] sequence_changes(o, n)[p],
            ) >= 0 ==> new_index(sequence_changes(o, n)[p]) != new_index(
                #[trigger] sequence_changes(o, n)[q],
            ),
{
    let ne = new_events(o, n, n.len() as int);
    let oe = old_events(o, n, o.len() as int);
    let s = sequence_changes(o, n);
    lemma_new_events_indices(o, n, n.len() as int);
    lemma_old_events_indices(o, n, o.len() as int);
    assert forall|p: int| 0 <= p < s.len() implies old_index(#[trigger] s[p]) < o.len() && new_index(
        s[p],
    ) < n.len() by {
        if p < ne.len() {
            assert(s[p] == ne[p]);
        } else {
            assert(s[p] == oe[p - ne.len()]);
        }
    }
    assert forall|p: int, q: int|
        0 <= p < q < s.len() && old_index(#[trigger] s[p]) >= 0 implies old_index(s[p]) != old_index(
        #[trigger] s[q],
    ) by {
        if q < ne.len() {
            assert(s[p] == ne[p] && s[q] == ne[q]);
            if ne[p] is Moved && ne[q] is Moved && old_index(ne[p]) == old_index(ne[q]) {
                let i = old_index(ne[p]);
                assert(paired(o, n, i, new_index(ne[p])) && paired(o, n, i, new_index(ne[q])));
                if new_index(ne[p]) != new_index(ne[q]) {
                    lemma_rank_distinct(n, new_index(ne[p]), new_index(ne[q]));
                }
            }
        } else if p >= ne.len() {
            assert(s[p] == oe[p - ne.len()] && s[q] == oe[q - ne.len()]);
        } else {
            assert(s[p] == ne[p] && s[q] == oe[q - ne.len()]);
            let i = old_index(ne[p]);
            if oe[q - ne.len()] is RemovedAt && old_index(oe[q - ne.len()]) == i && ne[p] is Moved {
                lemma_occurrences_monotonic(n, n[new_index(ne[p])], new_index(ne[p]) + 1, n.len() as int);
            }
        }
    }
    assert forall|p: int, q: int|
        0 <= p < q < s.len() && new_index(#[trigger] s[p]) >= 0 implies new_index(s[p]) != new_index(
        #[trigger] s[q],
    ) by {
        if q < ne.len() {
            assert(s[p] == ne[p] && s[q] == ne[q]);
        } else if p >= ne.len() {
            assert(s[p] == oe[p - ne.len()]);
        } else {
            assert(s[p] == ne[p] && s[q] == oe[q - ne.len()]);
        }
    }
}

proof fn lemma_fields_changes_only(ps: Seq<FieldPairView>, f: int, end: int)
    requires
        0 <= f < ps.len(),
        0 <= end <= ps.len(),
        forall|g: int|
            0 <= g < ps.len() && g != f ==> #[trigger] field_changes(ps[g]) == Seq::<ChangeView>::empty(),
    ensures
        fields_changes(ps.take(end)) == if f < end {
            field_changes(ps[f])
        } else {
            Seq::<ChangeView>::empty()
        },
    decreases end,
{
    if end > 0 {
        lemma_fields_changes_only(ps, f, end - 1);
        assert(ps.take(end).drop_last() =~= ps.take(end - 1));
        assert(ps.take(end).last() == ps[end - 1]);
        if end - 1 == f {
            assert(fields_changes(ps.take(end)) =~= field_changes(ps[f]));
        } else {
            assert(field_changes(ps[end - 1]) == Seq::<ChangeView>::empty());
            assert(fields_changes(ps.take(end)) =~= fields_changes(ps.take(end - 1)));
        }
    } else {
        assert(ps.take(end) =~= Seq::<FieldPairView>::empty());
    }
}

/// A change confined to one nested composite field is reported as exactly
/// one `Nested` event under that field's name, after the parent's snapshot,
/// and never as a scalar change of the parent. The nested events start with
/// the snapshot of the nested value.
pub proof fn lemma_recursive_nesting(ps: Seq<FieldPairView>, f: int)
    requires
        0 <= f < ps.len(),
        !ps[f].skip,
        ps[f].values is Nested,
        fields_changes(ps[f].values->Nested_0).len() > 0,
        forall|g: int|
            0 <= g < ps.len() && g != f ==> #[trigger] ps[g].skip || unchanged(ps[g].values),
    ensures
        record_changes(ps) == seq![
            ChangeView::Snapshot(new_record(ps)),
            ChangeView::Nested(ps[f].name, record_changes(ps[f].values->Nested_0)),
        ],
        record_changes(ps[f].values->Nested_0)[0] == ChangeView::Snapshot(
            new_record(ps[f].values->Nested_0),
        ),
{
    let sub = ps[f].values->Nested_0;
    assert forall|g: int| 0 <= g < ps.len() && g != f implies #[trigger] field_changes(ps[g])
        == Seq::<ChangeView>::empty() by {
        lemma_field_unchanged(ps[g]);
    }
    lemma_fields_changes_only(ps, f, ps.len() as int);
    assert(ps.take(ps.len() as int) =~= ps);
    assert(field_changes(ps[f]) == seq![ChangeView::Nested(ps[f].name, record_changes(sub))]);
    assert(record_changes(ps) =~= seq![
        ChangeView::Snapshot(new_record(ps)),
        ChangeView::Nested(ps[f].name, record_changes(sub)),
    ]);
}

/// A nested composite field that is not skipped reports exactly one event,
/// `Nested` with the nested value's own changes, when those are not empty,
/// and nothing otherwise; it never reports a `Scalar` event. A composite's
/// field events are those of its fields, in order.
pub proof fn lemma_nested_field(p: FieldPairView)
    requires
        !p.skip,
        p.values is Nested,
    ensures
        field_changes(p) == if record_changes(p.values->Nested_0).len() > 0 {
            seq![ChangeView::Nested(p.name, record_changes(p.values->Nested_0))]
        } else {
            Seq::<ChangeView>::empty()
        },
        forall|ps: Seq<FieldPairView>|
            #![trigger fields_changes(ps)]
            ps.len() > 0 ==> fields_changes(ps) == fields_changes(ps.drop_last()) + field_changes(
                ps.last(),
            ),
{
}

proof fn lemma_last_at<A>(s: Seq<A>, v: A, x: int, end: int)
    requires
        0 <= x < end <= s.len(),
        s[x] == v,
    ensures
        x <= last_at(s, v, end) < end,
        s[last_at(s, v, end)] == v,
    decreases end,
{
    if end > x + 1 && s[end - 1] != v {
        lemma_last_at(s, v, x, end - 1);
    }
}

proof fn lemma_missing_members<A>(a: Seq<A>, b: Seq<A>, end: int, added: bool)
    requires
        0 <= end <= a.len(),
    ensures
        forall|k: int|
            0 <= k < missing(a, b, end, added).len() ==> exists|x: int|
                0 <= x < end && !b.contains(a[x]) && last_at(a, a[x], a.len() as int) == x
                    && #[trigger] missing(a, b, end, added)[k] == membership(a[x], added),
        forall|x: int|
            0 <= x < end && !b.contains(a[x]) && last_at(a, a[x], a.len() as int) == x
                ==> missing(a, b, end, added).contains(#[trigger] membership(a[x], added)),
    decreases end,
{
    if end > 0 {
        lemma_missing_members(a, b, end - 1, added);
        let m = missing(a, b, end - 1, added);
        let s = missing(a, b, end, added);
        assert forall|k: int| 0 <= k < s.len() implies exists|x: int|
            0 <= x < end && !b.contains(a[x]) && last_at(a, a[x], a.len() as int) == x
                && #[trigger] s[k] == membership(a[x], added) by {
            if k < m.len() {
                assert(s[k] == m[k]);
                let x = choose|x: int|
                    0 <= x < end - 1 && !b.contains(a[x]) && last_at(a, a[x], a.len() as int) == x
                        && #[trigger] m[k] == membership(a[x], added);
                assert(0 <= x < end && s[k] == membership(a[x], added));
            } else {
                assert(s[k] == membership(a[end - 1], added));
            }
        }
        assert forall|x: int|
            0 <= x < end && !b.contains(a[x]) && last_at(a, a[x], a.len() as int) == x implies s.contains(
            #[trigger] membership(a[x], added),
        ) by {
            if x < end - 1 {
                let k = choose|k: int| 0 <= k < m.len() && m[k] == membership(a[x], added);
                assert(s[k] == m[k]);
            } else {
                assert(s[m.len() as int] == membership(a[x], added));
            }
        }
    }
}

/// A set comparison reports `Removed(v)` exactly for the elements `v` of
/// the old set that the new one lacks, and `Added(v)` exactly for the
/// elements of the new set that the old one lacks; so no element is reported
/// both added and removed.
pub proof fn lemma_set_membership<A>(o: Seq<A>, n: Seq<A>)
    ensures
        forall|v: A|
            #[trigger] set_changes(o, n).contains(Changed::Removed(v)) <==> o.contains(v)
                && !n.contains(v),
        forall|v: A|
            #[trigger] set_changes(o, n).contains(Changed::Added(v)) <==> n.contains(v)
                && !o.contains(v),
        forall|v: A|
            !(set_changes(o, n).contains(Changed::Removed(v)) && #[trigger] set_changes(
                o,
                n,
            ).contains(Changed::Added(v))),
{
    let r = missing(o, n, o.len() as int, false);
    let a = missing(n, o, n.len() as int, true);
    let s = set_changes(o, n);
    lemma_missing_members(o, n, o.len() as int, false);
    lemma_missing_members(n, o, n.len() as int, true);
    assert forall|v: A| #[trigger] s.contains(Changed::Removed(v)) <==> o.contains(v) && !n.contains(v) by {
        if s.contains(Changed::Removed(v)) {
            let k = choose|k: int| 0 <= k < s.len() && s[k] == Changed::Removed(v);
            if k < r.len() {
                assert(s[k] == r[k]);
                let x = choose|x: int|
                    0 <= x < o.len() && !n.contains(o[x]) && last_at(o, o[x], o.len() as int) == x
                        && #[trigger] r[k] == membership(o[x], false);
                assert(o[x] == v);
            } else {
                assert(s[k] == a[k - r.len()]);
                let x = choose|x: int|
                    0 <= x < n.len() && !o.contains(n[x]) && last_at(n, n[x], n.len() as int) == x
                        && #[trigger] a[k - r.len()] == membership(n[x], true);
            }
        }
        if o.contains(v) && !n.contains(v) {
            let y = choose|y: int| 0 <= y < o.len() && o[y] == v;
            lemma_last_at(o, v, y, o.len() as int);
            let x = last_at(o, v, o.len() as int);
            assert(r.contains(membership(o[x], false)));
            let k = choose|k: int| 0 <= k < r.len() && r[k] == membership(o[x], false);
            assert(s[k] == r[k]);
        }
    }
    assert forall|v: A| #[trigger] s.contains(Changed::Added(v)) <==> n.contains(v) && !o.contains(v) by {
        if s.contains(Changed::Added(v)) {
            let k = choose|k: int| 0 <= k < s.len() && s[k] == Changed::Added(v);
            if k < r.len() {
                assert(s[k] == r[k]);
                let x = choose|x: int|
                    0 <= x < o.len() && !n.contains(o[x]) && last_at(o, o[x], o.len() as int) == x
                        && #[trigger] r[k] == membership(o[x], false);
            } else {
                assert(s[k] == a[k - r.len()]);
                let x = choose|x: int|
                    0 <= x < n.len() && !o.contains(n[x]) && last_at(n, n[x], n.len() as int) == x
                        && #[trigger] a[k - r.len()] == membership(n[x], true);
                assert(n[x] == v);
            }
        }
        if n.contains(v) && !o.contains(v) {
            let y = choose|y: int| 0 <= y < n.len() && n[y] == v;
            lemma_last_at(n, v, y, n.len() as int);
            let x = last_at(n, v, n.len() as int);
            assert(a.contains(membership(n[x], true)));
            let k = choose|k: int| 0 <= k < a.len() && a[k] == membership(n[x], true);
            assert(s[k + r.len()] == a[k]);
        }
    }
}

/// The key that a map change is about.
pub open spec fn event_key<K, V>(c: MapChanged<K, V>) -> K {
    match c {
        MapChanged::AddedEntry(k, _) => k,
        MapChanged::RemovedEntry(k, _) => k,
        MapChanged::ChangedEntry(k) => k,
    }
}

#[verifier::spinoff_prover]
#[verifier::rlimit(40)]
proof fn lemma_old_entry_events_keys<K, V>(o: Seq<(K, V)>, n: Seq<(K, V)>, end: int)
    requires
        0 <= end <= o.len(),
    ensures
        forall|p: int|
            0 <= p < old_entry_events(o, n, end).len() ==> exists|x: int|
                0 <= x < end && old_entry_event(o, n, x).len() == 1 && #[trigger] old_entry_events(
                    o,
                    n,
                    end,
                )[p] == old_entry_event(o, n, x)[0],
        forall|x: int|
            0 <= x < end && #[trigger] old_entry_event(o, n, x).len() == 1 ==> old_entry_events(
                o,
                n,
                end,
            ).contains(old_entry_event(o, n, x)[0]),
        forall|p: int, q: int|
            0 <= p < q < old_entry_events(o, n, end).len() ==> event_key(
                #[trigger] old_entry_events(o, n, end)[p],
            ) != event_key(#[trigger] old_entry_events(o, n, end)[q]),
    decreases end,
{
    if end > 0 {
        lemma_old_entry_events_keys(o, n, end - 1);
        let m = old_entry_events(o, n, end - 1);
        let e = old_entry_event(o, n, end - 1);
        let s = old_entry_events(o, n, end);
        assert(s == m + e);
        assert forall|p: int| 0 <= p < s.len() implies exists|x: int|
            0 <= x < end && old_entry_event(o, n, x).len() == 1 && #[trigger] s[p] == old_entry_event(
                o,
                n,
                x,
            )[0] by {
            if p < m.len() {
                assert(s[p] == m[p]);
                let x = choose|x: int|
                    0 <= x < end - 1 && old_entry_event(o, n, x).len() == 1 && #[trigger] m[p]
                        == old_entry_event(o, n, x)[0];
                assert(0 <= x < end && old_entry_event(o, n, x).len() == 1 && s[p]
                    == old_entry_event(o, n, x)[0]);
            } else {
                assert(e.len() == 1);
                assert(s[p] == e[0]);
                assert(0 <= end - 1 < end && old_entry_event(o, n, end - 1).len() == 1 && s[p]
                    == old_entry_event(o, n, end - 1)[0]);
            }
        }
        assert forall|x: int| 0 <= x < end && #[trigger] old_entry_event(o, n, x).len() == 1 implies s.contains(
            old_entry_event(o, n, x)[0],
        ) by {
            if x < end - 1 {
                let k = choose|k: int| 0 <= k < m.len() && m[k] == old_entry_event(o, n, x)[0];
                assert(s[k] == m[k]);
            } else {
                assert(s[m.len() as int] == e[0]);
            }
        }
        assert forall|p: int, q: int| 0 <= p < q < s.len() implies event_key(#[trigger] s[p])
            != event_key(#[trigger] s[q]) by {
            if q < m.len() {
                assert(s[p] == m[p] && s[q] == m[q]);
            } else {
                assert(s[q] == e[0]);
                assert(s[p] == m[p]);
                let x = choose|x: int|
                    0 <= x < end - 1 && old_entry_event(o, n, x).len() == 1 && #[trigger] m[p]
                        == old_entry_event(o, n, x)[0];
                assert(event_key(m[p]) == o[x].0);
                assert(event_key(e[0]) == o[end - 1].0);
                if o[x].0 == o[end - 1].0 {
                    lemma_last_entry_covers(o, end - 1, o.len() as int);
                }
            }
        }
    }
}

proof fn lemma_new_entry_events_keys<K, V>(o: Seq<(K, V)>, n: Seq<(K, V)>, end: int)
    requires
        0 <= end <= n.len(),
    ensures
        forall|p: int|
            0 <= p < new_entry_events(o, n, end).len() ==> exists|x: int|
                0 <= x < end && new_entry_event(o, n, x).len() == 1 && #[trigger] new_entry_events(
                    o,
                    n,
                    end,
                )[p] == new_entry_event(o, n, x)[0],
        forall|x: int|
            0 <= x < end && #[trigger] new_entry_event(o, n, x).len() == 1 ==> new_entry_events(
                o,
                n,
                end,
            ).contains(new_entry_event(o, n, x)[0]),
        forall|p: int, q: int|
            0 <= p < q < new_entry_events(o, n, end).len() ==> event_key(
                #[trigger] new_entry_events(o, n, end)[p],
            ) != event_key(#[trigger] new_entry_events(o, n, end)[q]),
    decreases end,
{
    if end > 0 {
        lemma_new_entry_events_keys(o, n, end - 1);
        let m = new_entry_events(o, n, end - 1);
        let e = new_entry_event(o, n, end - 1);
        let s = new_entry_events(o, n, end);
        assert(s == m + e);
        assert forall|p: int| 0 <= p < s.len() implies exists|x: int|
            0 <= x < end && new_entry_event(o, n, x).len() == 1 && #[trigger] s[p] == new_entry_event(
                o,
                n,
                x,
            )[0] by {
            if p < m.len() {
                assert(s[p] == m[p]);
                let x = choose|x: int|
                    0 <= x < end - 1 && new_entry_event(o, n, x).len() == 1 && #[trigger] m[p]
                        == new_entry_event(o, n, x)[0];
                assert(0 <= x < end && new_entry_event(o, n, x).len() == 1 && s[p]
                    == new_entry_event(o, n, x)[0]);
            } else {
                assert(s[p] == e[0]);
            }
        }
        assert forall|x: int| 0 <= x < end && #[trigger] new_entry_event(o, n, x).len() == 1 implies s.contains(
            new_entry_event(o, n, x)[0],
        ) by {
            if x < end - 1 {
                let k = choose|k: int| 0 <= k < m.len() && m[k] == new_entry_event(o, n, x)[0];
                assert(s[k] == m[k]);
            } else {
                assert(s[m.len() as int] == e[0]);
            }
        }
        assert forall|p: int, q: int| 0 <= p < q < s.len() implies event_key(#[trigger] s[p])
            != event_key(#[trigger] s[q]) by {
            if q < m.len() {
                assert(s[p] == m[p] && s[q] == m[q]);
            } else {
                assert(s[q] == e[0]);
                assert(s[p] == m[p]);
                let x = choose|x: int|
                    0 <= x < end - 1 && new_entry_event(o, n, x).len() == 1 && #[trigger] m[p]
                        == new_entry_event(o, n, x)[0];
                assert(event_key(m[p]) == n[x].0);
                assert(event_key(e[0]) == n[end - 1].0);
                if n[x].0 == n[end - 1].0 {
                    lemma_last_entry_covers(n, end - 1, n.len() as int);
                }
            }
        }
    }
}

/// A map comparison reports each key at most once: `RemovedEntry` with its
/// old value exactly when only the old map has it, `ChangedEntry` exactly
/// when both have it with unequal values, `AddedEntry` with its new value
/// exactly when only the new map has it, and nothing otherwise. A repeated
/// key counts with its last entry.
pub proof fn lemma_map_one_event_per_key<K, V>(o: Seq<(K, V)>, n: Seq<(K, V)>)
    ensures
        forall|p: int, q: int|
            0 <= p < q < map_changes(o, n).len() ==> event_key(#[trigger] map_changes(o, n)[p])
                != event_key(#[trigger] map_changes(o, n)[q]),
        forall|k: K|
            has_key(o, k) && !has_key(n, k) ==> #[trigger] map_changes(o, n).contains(
                MapChanged::RemovedEntry(k, value_of(o, k)),
            ),
        forall|k: K|
            has_key(o, k) && has_key(n, k) && value_of(o, k) != value_of(n, k)
                ==> #[trigger] map_changes(o, n).contains(MapChanged::ChangedEntry(k)),
        forall|k: K|
            !has_key(o, k) && has_key(n, k) ==> #[trigger] map_changes(o, n).contains(
                MapChanged::AddedEntry(k, value_of(n, k)),
            ),
        forall|p: int|
            0 <= p < map_changes(o, n).len() ==> match #[trigger] map_changes(o, n)[p] {
                MapChanged::RemovedEntry(k, v) => has_key(o, k) && value_of(o, k) == v && !has_key(
                    n,
                    k,
                ),
                MapChanged::ChangedEntry(k) => has_key(o, k) && has_key(n, k) && value_of(o, k)
                    != value_of(n, k),
                MapChanged::AddedEntry(k, v) => has_key(n, k) && value_of(n, k) == v && !has_key(
                    o,
                    k,
                ),
            },
{
    let a = old_entry_events(o, n, o.len() as int);
    let b = new_entry_events(o, n, n.len() as int);
    let s = map_changes(o, n);
    lemma_old_entry_events_keys(o, n, o.len() as int);
    lemma_new_entry_events_keys(o, n, n.len() as int);
    assert forall|p: int| 0 <= p < s.len() implies match #[trigger] s[p] {
        MapChanged::RemovedEntry(k, v) => has_key(o, k) && value_of(o, k) == v && !has_key(n, k),
        MapChanged::ChangedEntry(k) => has_key(o, k) && has_key(n, k) && value_of(o, k) != value_of(
            n,
            k,
        ),
        MapChanged::AddedEntry(k, v) => has_key(n, k) && value_of(n, k) == v && !has_key(o, k),
    } by {
        if p < a.len() {
            assert(s[p] == a[p]);
            let x = choose|x: int|
                0 <= x < o.len() && old_entry_event(o, n, x).len() == 1 && #[trigger] a[p]
                    == old_entry_event(o, n, x)[0];
            assert(last_entry(o, o[x].0, o.len() as int) == x);
        } else {
            assert(s[p] == b[p - a.len()]);
            let x = choose|x: int|
                0 <= x < n.len() && new_entry_event(o, n, x).len() == 1 && #[trigger] b[p - a.len()]
                    == new_entry_event(o, n, x)[0];
            assert(last_entry(n, n[x].0, n.len() as int) == x);
        }
    }
    assert forall|p: int, q: int| 0 <= p < q < s.len() implies event_key(#[trigger] s[p])
        != event_key(#[trigger] s[q]) by {
        if q < a.len() {
            assert(s[p] == a[p] && s[q] == a[q]);
        } else if p >= a.len() {
            assert(s[p] == b[p - a.len()] && s[q] == b[q - a.len()]);
        } else {
            assert(s[p] == a[p] && s[q] == b[q - a.len()]);
            let x = choose|x: int|
                0 <= x < o.len() && old_entry_event(o, n, x).len() == 1 && #[trigger] a[p]
                    == old_entry_event(o, n, x)[0];
            let y = choose|y: int|
                0 <= y < n.len() && new_entry_event(o, n, y).len() == 1 && #[trigger] b[q - a.len()]
                    == new_entry_event(o, n, y)[0];
            assert(event_key(a[p]) == o[x].0);
            assert(last_entry(o, o[x].0, o.len() as int) == x);
            assert(event_key(b[q - a.len()]) == n[y].0);
        }
    }
    assert forall|k: K| has_key(o, k) && !has_key(n, k) implies #[trigger] s.contains(
        MapChanged::RemovedEntry(k, value_of(o, k)),
    ) by {
        let x = last_entry(o, k, o.len() as int);
        lemma_last_entry(o, k, o.len() as int);
        assert(old_entry_event(o, n, x).len() == 1);
        let i = choose|i: int| 0 <= i < a.len() && a[i] == old_entry_event(o, n, x)[0];
        assert(s[i] == a[i]);
    }
    assert forall|k: K|
        has_key(o, k) && has_key(n, k) && value_of(o, k) != value_of(n, k) implies #[trigger] s.contains(
        MapChanged::ChangedEntry(k),
    ) by {
        let x = last_entry(o, k, o.len() as int);
        lemma_last_entry(o, k, o.len() as int);
        assert(old_entry_event(o, n, x).len() == 1);
        let i = choose|i: int| 0 <= i < a.len() && a[i] == old_entry_event(o, n, x)[0];
        assert(s[i] == a[i]);
    }
    assert forall|k: K| !has_key(o, k) && has_key(n, k) implies #[trigger] s.contains(
        MapChanged::AddedEntry(k, value_of(n, k)),
    ) by {
        let x = last_entry(n, k, n.len() as int);
        lemma_last_entry(n, k, n.len() as int);
        assert(new_entry_event(o, n, x).len() == 1);
        let i = choose|i: int| 0 <= i < b.len() && b[i] == new_entry_event(o, n, x)[0];
        assert(s[i + a.len()] == b[i]);
    }
}

/// A sequence comparison that reports nothing was given equal sequences.
pub proof fn lemma_sequence_silent_means_equal<A>(o: Seq<A>, n: Seq<A>)
    requires
        sequence_changes(o, n).len() == 0,
    ensures
        o == n,
{
    let all = |c: Changed<A>| true;
    let ne = new_events(o, n, n.len() as int);
    let oe = old_events(o, n, o.len() as int);
    lemma_any_concat(ne, oe, all);
    lemma_any_new_events(o, n, n.len() as int, all);
    lemma_any_old_events(o, n, o.len() as int, all);
    assert forall|j: int| 0 <= j < n.len() implies j < o.len() && o[j] == n[j] by {
        lemma_any_single(new_event(o, n, j), all);
        if !any_event(new_event(o, n, j), all) {
            lemma_matched_partner_range(o, n, j);
        } else {
            assert(any_event(sequence_changes(o, n), all));
        }
    }
    assert forall|i: int| #![trigger o[i]] 0 <= i < o.len() implies i < n.len() by {
        lemma_any_single(old_event(o, n, i), all);
        if !any_event(old_event(o, n, i), all) {
            lemma_old_matched(o, n, i);
            let j = choose|j: int| paired(o, n, i, j);
            lemma_any_single(new_event(o, n, j), all);
            if !any_event(new_event(o, n, j), all) {
                lemma_matched_partner_range(o, n, j);
                lemma_partner(o, n, i, j);
            } else {
                assert(any_event(sequence_changes(o, n), all));
            }
        } else {
            assert(any_event(sequence_changes(o, n), all));
        }
    }
    assert(o =~= n);
}

/// A field's old and new values differ: unequal scalars or sequences, sets
/// with different members, maps with different keys or values, or a nested
/// composite in which some field that is not skipped differs.
pub open spec fn differs(p: PairView) -> bool
    decreases p,
{
    match p {
        PairView::Scalar(a, b) => a != b,
        PairView::Sequence(a, b) => a != b,
        PairView::Members(a, b) => exists|v: AtomView| a.contains(v) != b.contains(v),
        PairView::Entries(a, b) => exists|k: AtomView|
            has_key(a, k) != has_key(b, k) || (has_key(a, k) && has_key(b, k) && value_of(a, k)
                != value_of(b, k)),
        PairView::Nested(ps) => any_differs(ps),
    }
}

/// Some field of `ps` that is not skipped differs.
pub open spec fn any_differs(ps: Seq<FieldPairView>) -> bool
    decreases ps,
{
    ps.len() > 0 && (any_differs(ps.drop_last()) || (!ps.last().skip && differs(ps.last().values)))
}

proof fn lemma_field_differs(p: FieldPairView)
    requires
        !p.skip,
        differs(p.values),
    ensures
        field_changes(p).len() > 0,
    decreases p,
{
    match p.values {
        PairView::Scalar(a, b) => {},
        PairView::Sequence(a, b) => {
            if sequence_changes(a, b).len() == 0 {
                lemma_sequence_silent_means_equal(a, b);
            }
        },
        PairView::Members(a, b) => {
            lemma_set_membership(a, b);
            let v = choose|v: AtomView| a.contains(v) != b.contains(v);
            if a.contains(v) {
                assert(set_changes(a, b).contains(Changed::Removed(v)));
            } else {
                assert(set_changes(a, b).contains(Changed::Added(v)));
            }
        },
        PairView::Entries(a, b) => {
            lemma_map_one_event_per_key(a, b);
            let k = choose|k: AtomView|
                has_key(a, k) != has_key(b, k) || (has_key(a, k) && has_key(b, k) && value_of(a, k)
                    != value_of(b, k));
            if has_key(a, k) && !has_key(b, k) {
                assert(map_changes(a, b).contains(MapChanged::RemovedEntry(k, value_of(a, k))));
            } else if !has_key(a, k) && has_key(b, k) {
                assert(map_changes(a, b).contains(MapChanged::AddedEntry(k, value_of(b, k))));
            } else {
                assert(map_changes(a, b).contains(MapChanged::ChangedEntry(k)));
            }
        },
        PairView::Nested(ps) => {
            lemma_fields_differ(ps);
        },
    }
}

proof fn lemma_fields_differ(ps: Seq<FieldPairView>)
    requires
        any_differs(ps),
    ensures
        fields_changes(ps).len() > 0,
    decreases ps,
{
    if any_differs(ps.drop_last()) {
        lemma_fields_differ(ps.drop_last());
    } else {
        lemma_field_differs(ps.last());
    }
}

/// A composite whose fields that are not skipped differ somewhere reports a
/// snapshot of its new value followed by at least one field event; one whose
/// fields that are not skipped are all unchanged reports nothing, whatever
/// its skipped fields hold.
pub proof fn lemma_snapshot_iff_difference(ps: Seq<FieldPairView>)
    ensures
        any_differs(ps) ==> record_changes(ps).len() >= 2 && record_changes(ps)[0]
            == ChangeView::Snapshot(new_record(ps)),
        all_unchanged(ps) ==> record_changes(ps).len() == 0,
{
    if any_differs(ps) {
        lemma_fields_differ(ps);
    }
    if all_unchanged(ps) {
        lemma_no_op(ps);
    }
}

} // verus!
