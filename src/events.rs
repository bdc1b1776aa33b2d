//! Events and the queue that holds them until their time comes.
use crate::world::Entity;
use vstd::prelude::*;

verus! {

/// Something that happens in the simulation at a point of simulated time.
#[derive(Debug)]
pub enum Event {
    /// A command with a human-readable description.
    Command(String),
    /// The message entity has reached its destination.
    MessageArrived(Entity),
}

/// An event with the time it is due and the sequence number it was given
/// when scheduled.
#[derive(Debug)]
pub struct Scheduled {
    pub at: u64,
    pub seq: u64,
    pub event: Event,
}

/// `a` comes before `b`: earlier time, or the same time and scheduled earlier.
pub open spec fn key_before(a: Scheduled, b: Scheduled) -> bool {
    a.at < b.at || (a.at == b.at && a.seq < b.seq)
}

/// `after` is `before` with `item` inserted behind every entry due at or
/// before `item.at` and ahead of every entry due later.
pub open spec fn inserted_in_order(before: Seq<Scheduled>, after: Seq<Scheduled>, item: Scheduled) -> bool {
    exists|p: int|
        0 <= p <= before.len() && after == before.insert(p, item) && (forall|k: int|
            0 <= k < p ==> before[k].at <= item.at) && (forall|k: int|
            p <= k < before.len() ==> before[k].at > item.at)
}

/// Scheduled events in ascending `(at, seq)` order.
#[derive(Debug)]
pub struct EventQueue {
    entries: Vec<Scheduled>,
    next_seq: u64,
}

impl EventQueue {
    pub closed spec fn view_entries(&self) -> Seq<Scheduled> {
        self.entries@
    }

    pub closed spec fn next_seq_spec(&self) -> u64 {
        self.next_seq
    }

    /// Entries stand in strictly ascending key order and every sequence number
    /// handed out is below the next one.
    pub closed spec fn wf(&self) -> bool {
        &&& forall|a: int, b: int|
            0 <= a < b < self.entries@.len() ==> key_before(self.entries@[a], self.entries@[b])
        &&& forall|a: int| 0 <= a < self.entries@.len() ==> self.entries@[a].seq < self.next_seq
    }

    pub fn new() -> (q: Self)
        ensures
            q.wf(),
            q.view_entries() == Seq::<Scheduled>::empty(),
            q.next_seq_spec() == 0,
    {
        EventQueue { entries: Vec::new(), next_seq: 0 }
    }

    pub fn len(&self) -> (r: usize)
        ensures
            r == self.view_entries().len(),
    {
        self.entries.len()
    }

    /// Inserts `event` due at `at`, after every entry due at or before `at`
    /// and before every entry due later; it gets the next sequence number.
    pub fn schedule(&mut self, event: Event, at: u64)
        requires
            old(self).wf(),
            old(self).next_seq_spec() < u64::MAX,
        ensures
            final(self).wf(),
            final(self).next_seq_spec() == old(self).next_seq_spec() + 1,
            inserted_in_order(
                old(self).view_entries(),
                final(self).view_entries(),
                Scheduled { at, seq: old(self).next_seq_spec(), event },
            ),
    {
        let mut i: usize = 0;
        while i < self.entries.len() && self.entries[i].at <= at
            invariant
                0 <= i <= self.entries@.len(),
                forall|k: int| 0 <= k < i ==> self.entries@[k].at <= at,
            decreases self.entries@.len() - i,
        {
            i = i + 1;
        }
        let ghost old_entries = self.entries@;
        let item = Scheduled { at, seq: self.next_seq, event };
        let ghost new_item = item;
        proof {
            if i < old_entries.len() {
                assert forall|k: int| i <= k < old_entries.len() implies old_entries[k].at > at by {
                    if k > i {
                        assert(key_before(old_entries[i as int], old_entries[k]));
                    }
                }
            }
        }
        self.entries.insert(i, item);
        self.next_seq = self.next_seq + 1;
        proof {
            let s = self.entries@;
            assert(s == old_entries.insert(i as int, new_item));
            assert forall|a: int, b: int| 0 <= a < b < s.len() implies key_before(s[a], s[b]) by {
                if b < i {
                    assert(s[a] == old_entries[a] && s[b] == old_entries[b]);
                } else if b == i {
                    assert(s[a] == old_entries[a]);
                } else if a == i {
                    assert(s[b] == old_entries[b - 1]);
                } else if a < i {
                    assert(s[a] == old_entries[a] && s[b] == old_entries[b - 1]);
                } else {
                    assert(s[a] == old_entries[a - 1] && s[b] == old_entries[b - 1]);
                }
            }
            assert forall|a: int| 0 <= a < s.len() implies s[a].seq < self.next_seq by {
                if a < i {
                    assert(s[a] == old_entries[a]);
                } else if a > i {
                    assert(s[a] == old_entries[a - 1]);
                }
            }
            assert(old_entries == old(self).view_entries());
            assert(new_item == Scheduled { at, seq: old(self).next_seq_spec(), event });
            assert(forall|k: int| 0 <= k < i ==> old_entries[k].at <= at);
            assert(forall|k: int| i <= k < old_entries.len() ==> old_entries[k].at > at);
            assert(inserted_in_order(old_entries, s, new_item));
        }
    }

    /// Removes and returns, in queue order, every entry due at or before
    /// `upto`.
    pub fn drain_due(&mut self, upto: u64) -> (r: Vec<Scheduled>)
        requires
            old(self).wf(),
        ensures
            final(self).wf(),
            final(self).next_seq_spec() == old(self).next_seq_spec(),
            r@ + final(self).view_entries() == old(self).view_entries(),
            forall|k: int| 0 <= k < r@.len() ==> r@[k].at <= upto,
            forall|k: int|
                0 <= k < final(self).view_entries().len() ==> final(self).view_entries()[k].at
                    > upto,
            forall|a: int, b: int| 0 <= a < b < r@.len() ==> key_before(r@[a], r@[b]),
    {
        let mut i: usize = 0;
        while i < self.entries.len() && self.entries[i].at <= upto
            invariant
                0 <= i <= self.entries@.len(),
                forall|k: int| 0 <= k < i ==> self.entries@[k].at <= upto,
            decreases self.entries@.len() - i,
        {
            i = i + 1;
        }
        let ghost old_entries = self.entries@;
        proof {
            if i < old_entries.len() {
                assert forall|k: int| i <= k < old_entries.len() implies old_entries[k].at
                    > upto by {
                    if k > i {
                        assert(key_before(old_entries[i as int], old_entries[k]));
                    }
                }
            }
        }
        let mut due = self.entries.split_off(i);
        std::mem::swap(&mut due, &mut self.entries);
        proof {
            assert(due@ + self.entries@ =~= old_entries);
            assert forall|k: int| 0 <= k < self.entries@.len() implies self.entries@[k].at
                > upto by {
                assert(self.entries@[k] == old_entries[k + i]);
            }
            assert forall|a: int, b: int|
                0 <= a < b < self.entries@.len() implies key_before(
                self.entries@[a],
                self.entries@[b],
            ) by {
                assert(self.entries@[a] == old_entries[a + i]);
                assert(self.entries@[b] == old_entries[b + i]);
            }
            assert forall|a: int| 0 <= a < self.entries@.len() implies self.entries@[a].seq
                < self.next_seq by {
                assert(self.entries@[a] == old_entries[a + i]);
            }
            assert forall|a: int, b: int| 0 <= a < b < due@.len() implies key_before(
                due@[a],
                due@[b],
            ) by {
                assert(due@[a] == old_entries[a]);
                assert(due@[b] == old_entries[b]);
            }
        }
        due
    }
}

} // verus!
