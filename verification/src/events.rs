//! The queue of scheduled datagram deliveries.
//!
//! Every accepted send becomes an event carrying the datagram and the
//! timestamp at which the network delivers it.  Events leave the queue
//! in timestamp order; among equal timestamps the earliest-inserted
//! leaves first, which keeps a run deterministic for a fixed seed and
//! insertion sequence.

use vstd::prelude::*;

use crate::addr::SockAddr;
use crate::Timestamp;

verus! {

/// A delivery scheduled for `timestamp`: the payload travels from
/// `sender` to `receiver`.
pub struct NetworkEvent {
    pub timestamp: Timestamp,
    pub sender: SockAddr,
    pub receiver: SockAddr,
    pub data: Vec<u8>,
}

/// The pending deliveries, in insertion order.
pub struct EventQueue {
    v: Vec<NetworkEvent>,
}

impl EventQueue {
    /// The pending events, in insertion order.
    pub closed spec fn spec_events(self) -> Seq<NetworkEvent> {
        self.v@
    }

    pub fn new() -> (r: EventQueue)
        ensures
            r.spec_events() =~= Seq::<NetworkEvent>::empty(),
    {
        EventQueue { v: Vec::new() }
    }

    /// Schedule a delivery.
    pub fn push(&mut self, e: NetworkEvent)
        ensures
            final(self).spec_events() == old(self).spec_events().push(e),
    {
        self.v.push(e);
    }

    /// The position of the earliest pending event — the first among
    /// equals.
    fn min_position(&self) -> (m: usize)
        requires
            self.spec_events().len() > 0,
        ensures
            m < self.spec_events().len(),
            forall|k: int|
                0 <= k < self.spec_events().len() ==> self.spec_events()[m as int].timestamp.nanos
                    <= #[trigger] self.spec_events()[k].timestamp.nanos,
            forall|k: int|
                0 <= k < m ==> self.spec_events()[m as int].timestamp.nanos
                    < #[trigger] self.spec_events()[k].timestamp.nanos,
    {
        let mut best: usize = 0;
        let n = self.v.len();
        let mut i: usize = 1;
        while i < n
            invariant
                n == self.v@.len(),
                0 < n,
                best < i <= n,
                forall|k: int|
                    0 <= k < i ==> self.v@[best as int].timestamp.nanos
                        <= #[trigger] self.v@[k].timestamp.nanos,
                forall|k: int|
                    0 <= k < best ==> self.v@[best as int].timestamp.nanos
                        < #[trigger] self.v@[k].timestamp.nanos,
            decreases n - i,
        {
            if self.v[i].timestamp.nanos < self.v[best].timestamp.nanos {
                best = i;
            }
            i = i + 1;
        }
        best
    }

    /// The timestamp of the earliest pending delivery, if any.
    pub fn next_timestamp(&self) -> (r: Option<Timestamp>)
        ensures
            r is None <==> self.spec_events().len() == 0,
            r is Some ==> exists|k: int|
                0 <= k < self.spec_events().len() && #[trigger] self.spec_events()[k].timestamp
                    == r->0,
            r is Some ==> forall|k: int|
                0 <= k < self.spec_events().len() ==> r->0.nanos
                    <= #[trigger] self.spec_events()[k].timestamp.nanos,
    {
        if self.v.len() == 0 {
            return None;
        }
        let m = self.min_position();
        proof {
            assert(self.spec_events()[m as int].timestamp == self.v@[m as int].timestamp);
        }
        Some(self.v[m].timestamp)
    }

    /// Remove and return the earliest pending delivery — the first
    /// among equals; `None` when nothing is pending.
    pub fn pop_earliest(&mut self) -> (r: Option<NetworkEvent>)
        ensures
            r is None <==> old(self).spec_events().len() == 0,
            r is None ==> *final(self) == *old(self),
            r is Some ==> exists|m: int|
                {
                    &&& 0 <= m < old(self).spec_events().len()
                    &&& (forall|k: int|
                        0 <= k < old(self).spec_events().len() ==> old(self).spec_events()[
                            m].timestamp.nanos <= #[trigger] old(self).spec_events()[
                            k].timestamp.nanos)
                    &&& (forall|k: int|
                        0 <= k < m ==> old(self).spec_events()[m].timestamp.nanos < #[trigger] old(self).spec_events()[k].timestamp.nanos)
                    &&& r == Some(old(self).spec_events()[m])
                    &&& final(self).spec_events() == old(self).spec_events().remove(m)
                },
    {
        if self.v.len() == 0 {
            return None;
        }
        let m = self.min_position();
        let e = self.v.remove(m);
        Some(e)
    }
}

} // verus!
