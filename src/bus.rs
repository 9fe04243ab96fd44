use std::collections::VecDeque;
use std::sync::mpsc::{Receiver, Sender};
use vstd::prelude::*;

use crate::field_paths::FieldName;

verus! {

/// Declares `std::sync::mpsc::Sender`, the sending half of a channel, which
/// is held and passed on without looking inside.
#[verifier::external_type_specification]
#[verifier::external_body]
#[verifier::reject_recursive_types(T)]
pub struct ExSender<T>(Sender<T>);

/// Declares `std::sync::mpsc::Receiver`, the receiving half of a channel,
/// which is handed to the subscriber.
#[verifier::external_type_specification]
#[verifier::external_body]
#[verifier::reject_recursive_types(T)]
pub struct ExReceiver<T>(Receiver<T>);

/// Relies on `std::sync::mpsc::channel`: a new channel, as its sending and
/// its receiving half.
#[verifier::external_body]
fn channel() -> (Sender<String>, Receiver<String>) {
    std::sync::mpsc::channel()
}

/// Relies on `Sender::send`: hands `message` to the channel, and tells
/// whether the receiving half was still there to take it.
#[verifier::external_body]
fn send(tx: &Sender<String>, message: String) -> (delivered: bool) {
    tx.send(message).is_ok()
}

/// The elements of `items` whose mark is set, in their order.
pub open spec fn marked<T>(items: Seq<T>, marks: Seq<bool>) -> Seq<T>
    decreases items.len(),
{
    if items.len() == 0 {
        seq![]
    } else {
        marked(items.drop_last(), marks) + if marks[items.len() - 1] {
            seq![items.last()]
        } else {
            seq![]
        }
    }
}

proof fn lemma_marked_step<T>(items: Seq<T>, marks: Seq<bool>, i: int)
    requires
        0 <= i < items.len(),
    ensures
        marked(items.take(i + 1), marks) == marked(items.take(i), marks) + if marks[i] {
            seq![items[i]]
        } else {
            seq![]
        },
{
    assert(items.take(i + 1).drop_last() =~= items.take(i));
}

/// Keeps the items whose mark is set, in their order, and drops the others.
pub fn keep_marked<T>(items: &mut VecDeque<T>, marks: &Vec<bool>)
    requires
        marks.len() == old(items)@.len(),
    ensures
        final(items)@ == marked(old(items)@, marks@),
{
    let ghost all = items@;
    let count = items.len();
    let mut i: usize = 0;
    assert(all.take(0) =~= Seq::<T>::empty());
    assert(all.subrange(0, count as int) =~= all);
    while i < count
        invariant
            i <= count,
            count == all.len(),
            marks.len() == count,
            items@ == all.subrange(i as int, count as int) + marked(all.take(i as int), marks@),
        decreases count - i,
    {
        proof {
            lemma_marked_step(all, marks@, i as int);
        }
        if let Some(item) = items.pop_front() {
            if marks[i] {
                items.push_back(item);
            }
        }
        assert(items@ =~= all.subrange(i + 1, count as int) + marked(all.take(i + 1), marks@));
        i = i + 1;
    }
    assert(all.take(count as int) =~= all);
    assert(items@ =~= marked(all, marks@));
}

/// One send of a published value: the sender it went to, the value, and
/// whether the receiving half was still there to take it.
pub type SendRecord = (Sender<String>, Seq<char>, bool);

/// `sends` went to `senders`, one each and in their order, all carrying
/// `value`.
pub open spec fn sent_to(sends: Seq<SendRecord>, senders: Seq<Sender<String>>, value: Seq<char>) -> bool {
    &&& sends.len() == senders.len()
    &&& forall|i: int| 0 <= i < sends.len() ==> (#[trigger] sends[i]).0 == senders[i] && sends[i].1 == value
}

/// Whether each of `sends` was taken by its receiver.
pub open spec fn outcomes(sends: Seq<SendRecord>) -> Seq<bool> {
    sends.map_values(|r: SendRecord| r.2)
}

/// The subscribers of one path.
struct Subscription {
    path: String,
    senders: VecDeque<Sender<String>>,
}

/// Delivers the new value of a field to everyone who subscribed to its path.
pub struct ChangeEventBus {
    subs: Vec<Subscription>,
    sent: Ghost<Seq<SendRecord>>,
}

impl View for ChangeEventBus {
    /// Each subscribed path with its subscribers, in order of subscription.
    type V = Seq<(Seq<char>, Seq<Sender<String>>)>;

    closed spec fn view(&self) -> Seq<(Seq<char>, Seq<Sender<String>>)> {
        self.subs@.map_values(|s: Subscription| (s.path@, s.senders@))
    }
}

impl ChangeEventBus {
    /// Every send this bus has made, in order.
    pub closed spec fn log(&self) -> Seq<SendRecord> {
        self.sent@
    }

    /// The subscribed paths are distinct.
    pub open spec fn well_formed(&self) -> bool {
        forall|a: int, b: int| 0 <= a < b < self@.len() ==> self@[a].0 != self@[b].0
    }

    /// A bus without subscribers.
    pub fn new() -> (r: ChangeEventBus)
        ensures
            r@ == Seq::<(Seq<char>, Seq<Sender<String>>)>::empty(),
            r.log() == Seq::<SendRecord>::empty(),
            r.well_formed(),
    {
        let r = ChangeEventBus { subs: Vec::new(), sent: Ghost(Seq::empty()) };
        assert(r@ =~= Seq::<(Seq<char>, Seq<Sender<String>>)>::empty());
        r
    }

    /// The position of `path` among the subscribed paths, if any.
    fn find(&self, path: &String) -> (r: Option<usize>)
        ensures
            match r {
                Some(k) => k < self@.len() && self@[k as int].0 == path@,
                None => forall|k: int| 0 <= k < self@.len() ==> self@[k].0 != path@,
            },
    {
        let mut k: usize = 0;
        while k < self.subs.len()
            invariant
                k <= self.subs.len(),
                self@.len() == self.subs.len(),
                forall|x: int| 0 <= x < k ==> self@[x].0 != path@,
            decreases self.subs.len() - k,
        {
            assert(self@[k as int].0 == self.subs@[k as int].path@);
            if self.subs[k].path == *path {
                return Some(k);
            }
            k = k + 1;
        }
        None
    }

    /// Subscribes to the path `field`: every value published for that path
    /// from now on arrives at the returned receiver.
    pub fn subscribe(&mut self, field: FieldName) -> (rx: Receiver<String>)
        requires
            old(self).well_formed(),
        ensures
            final(self).well_formed(),
            final(self).log() == old(self).log(),
            forall|k: int|
                0 <= k < old(self)@.len() && old(self)@[k].0 == field@ ==> exists|tx: Sender<String>|
                    final(self)@ == old(self)@.update(k, (field@, old(self)@[k].1.push(tx))),
            (forall|k: int| 0 <= k < old(self)@.len() ==> old(self)@[k].0 != field@) ==> exists|
                tx: Sender<String>,
            | final(self)@ == old(self)@.push((field@, seq![tx])),
    {
        let ghost before = self@;
        let path = field.as_str().to_owned();
        let (tx, rx) = channel();
        match self.find(&path) {
            Some(k) => {
                let ghost t = tx;
                let mut sub = Subscription { path: String::new(), senders: VecDeque::new() };
                self.subs.set_and_swap(k, &mut sub);
                sub.senders.push_back(tx);
                self.subs.set_and_swap(k, &mut sub);
                proof {
                    assert(self@ =~= before.update(k as int, (field@, before[k as int].1.push(t))));
                    assert forall|x: int|
                        0 <= x < before.len() && before[x].0 == field@ implies exists|
                        tx: Sender<String>,
                    | self@ == before.update(x, (field@, before[x].1.push(tx))) by {
                        assert(x == k);
                    }
                }
            },
            None => {
                let ghost t = tx;
                let mut senders = VecDeque::new();
                senders.push_back(tx);
                self.subs.push(Subscription { path, senders });
                proof {
                    assert(self@ =~= before.push((field@, seq![t])));
                }
            },
        }
        rx
    }

    /// Publishes `new_value` for `path`: each subscriber of exactly that
    /// path, in order, is sent one copy, and is kept exactly when its
    /// receiver took it. Nothing is sent to other paths, whose subscribers
    /// stay as they are.
    pub fn publish(&mut self, path: &str, new_value: String)
        requires
            old(self).well_formed(),
        ensures
            final(self).well_formed(),
            final(self)@.len() == old(self)@.len(),
            forall|k: int| 0 <= k < old(self)@.len() ==> #[trigger] final(self)@[k].0 == old(self)@[k].0,
            forall|k: int|
                0 <= k < old(self)@.len() && old(self)@[k].0 != path@ ==> #[trigger] final(self)@[k]
                    == old(self)@[k],
            forall|k: int|
                #![trigger old(self)@[k]]
                0 <= k < old(self)@.len() && old(self)@[k].0 == path@ ==> {
                    let fresh = final(self).log().skip(old(self).log().len() as int);
                    &&& final(self).log() == old(self).log() + fresh
                    &&& sent_to(fresh, old(self)@[k].1, new_value@)
                    &&& final(self)@[k].1 == marked(old(self)@[k].1, outcomes(fresh))
                },
            (forall|k: int| 0 <= k < old(self)@.len() ==> old(self)@[k].0 != path@)
                ==> final(self).log() == old(self).log(),
    {
        let ghost before = self@;
        let ghost old_subs = self.subs@;
        let ghost log_before = self.sent@;
        let key = path.to_owned();
        if let Some(k) = self.find(&key) {
            let mut sub = Subscription { path: String::new(), senders: VecDeque::new() };
            self.subs.set_and_swap(k, &mut sub);
            let ghost name = sub.path@;
            assert(name == before[k as int].0);
            let ghost all = sub.senders@;
            let ghost mut fresh: Seq<SendRecord> = seq![];
            let mut delivered: Vec<bool> = Vec::new();
            let mut i: usize = 0;
            while i < sub.senders.len()
                invariant
                    all == sub.senders@,
                    i <= all.len(),
                    delivered.len() == i,
                    sent_to(fresh, all.take(i as int), new_value@),
                    outcomes(fresh) == delivered@,
                decreases all.len() - i,
            {
                let ok = send(&sub.senders[i], new_value.clone());
                proof {
                    fresh = fresh.push((all[i as int], new_value@, ok));
                    assert(all.take(i + 1) =~= all.take(i as int).push(all[i as int]));
                }
                delivered.push(ok);
                assert(outcomes(fresh) =~= delivered@);
                i = i + 1;
            }
            assert(all.take(all.len() as int) =~= all);
            keep_marked(&mut sub.senders, &delivered);
            let ghost done = sub;
            self.subs.set_and_swap(k, &mut sub);
            self.sent = Ghost(log_before + fresh);
            assert(self.subs@ =~= old_subs.update(k as int, done));
            assert(self@ =~= before.update(k as int, (name, marked(all, delivered@))));
            assert(self.sent@.skip(log_before.len() as int) =~= fresh);
            assert forall|x: int|
                #![trigger before[x]]
                0 <= x < before.len() && before[x].0 == path@ implies {
                let f = self.log().skip(log_before.len() as int);
                &&& self.log() == log_before + f
                &&& sent_to(f, before[x].1, new_value@)
                &&& self@[x].1 == marked(before[x].1, outcomes(f))
            } by {
                assert(x == k);
            }
        } else {
            assert(forall|x: int| 0 <= x < before.len() ==> before[x].0 != path@);
        }
    }
}

} // verus!
