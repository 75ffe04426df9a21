use vstd::prelude::*;

use crate::event::Event;

verus! {

/// The records after one more is pushed into a ring of `capacity` slots:
/// when the ring is full the oldest record makes room.
pub open spec fn ring_push(records: Seq<Event>, capacity: nat, e: Event) -> Seq<Event> {
    if records.len() < capacity {
        records.push(e)
    } else {
        records.drop_first().push(e)
    }
}

/// A bounded, lossy queue of events from the classifier to the daemon.
/// The producer never waits: on overflow the oldest record is dropped and
/// counted.
pub struct PerfRing {
    records: Vec<Event>,
    capacity: usize,
    dropped: u64,
}

impl View for PerfRing {
    type V = Seq<Event>;

    closed spec fn view(&self) -> Seq<Event> {
        self.records@
    }
}

impl PerfRing {
    pub closed spec fn capacity(&self) -> nat {
        self.capacity as nat
    }

    pub closed spec fn dropped(&self) -> nat {
        self.dropped as nat
    }

    pub closed spec fn wf(&self) -> bool {
        &&& 0 < self.capacity
        &&& self.records@.len() <= self.capacity
    }

    /// An empty ring of `capacity` slots.
    pub fn new(capacity: usize) -> (r: PerfRing)
        requires
            capacity > 0,
        ensures
            r.wf(),
            r@ == Seq::<Event>::empty(),
            r.capacity() == capacity,
            r.dropped() == 0,
    {
        PerfRing { records: Vec::new(), capacity, dropped: 0 }
    }

    /// The number of records waiting.
    pub fn len(&self) -> (r: usize)
        ensures
            r == self@.len(),
    {
        self.records.len()
    }

    /// The number of records lost to overflow so far (saturating).
    pub fn dropped_count(&self) -> (r: u64)
        ensures
            r == self.dropped(),
    {
        self.dropped
    }

    /// Adds a record, dropping the oldest one when the ring is full.
    pub fn push(&mut self, e: Event)
        requires
            old(self).wf(),
        ensures
            final(self).wf(),
            final(self).capacity() == old(self).capacity(),
            final(self)@ == ring_push(old(self)@, old(self).capacity(), e),
            final(self).dropped() == (if old(self)@.len() < old(self).capacity() {
                old(self).dropped()
            } else if old(self).dropped() < u64::MAX {
                old(self).dropped() + 1
            } else {
                old(self).dropped()
            }),
    {
        if self.records.len() < self.capacity {
            self.records.push(e);
        } else {
            self.records.remove(0);
            self.records.push(e);
            if self.dropped < u64::MAX {
                self.dropped = self.dropped + 1;
            }
        }
    }

    /// Takes every waiting record, oldest first.
    pub fn drain(&mut self) -> (r: Vec<Event>)
        requires
            old(self).wf(),
        ensures
            final(self).wf(),
            final(self).capacity() == old(self).capacity(),
            final(self).dropped() == old(self).dropped(),
            r@ == old(self)@,
            final(self)@ == Seq::<Event>::empty(),
    {
        let r = self.records.split_off(0);
        r
    }
}

} // verus!
