//! Datagrams and the bounded receive buffer of a UDP socket.
//!
//! The buffer is a FIFO bounded by the total byte length of the
//! payloads it holds: a datagram that would push the running total
//! past the capacity is refused (and, at delivery, silently dropped —
//! UDP semantics).  The running total always equals the sum of the
//! enqueued payload lengths and never exceeds the capacity.

use std::collections::VecDeque;

use vstd::prelude::*;

use crate::addr::SockAddr;

verus! {

/// A UDP packet in flight or queued for receipt: sender, receiver and
/// payload.
#[derive(PartialEq, Eq, Debug)]
pub struct Datagram {
    pub from: SockAddr,
    pub to: SockAddr,
    pub data: Vec<u8>,
}

/// The sum of the payload lengths of a queue of datagrams.
pub open spec fn bytes_total(s: Seq<Datagram>) -> int
    decreases s.len(),
{
    if s.len() == 0 {
        0
    } else {
        bytes_total(s.drop_last()) + s.last().data@.len()
    }
}

/// A byte total is never negative.
pub proof fn lemma_bytes_total_nonneg(s: Seq<Datagram>)
    ensures
        bytes_total(s) >= 0,
    decreases s.len(),
{
    if s.len() > 0 {
        lemma_bytes_total_nonneg(s.drop_last());
    }
}

/// The total of a queue is its front's payload plus the total of the
/// rest.
pub proof fn lemma_bytes_total_front(s: Seq<Datagram>)
    requires
        s.len() > 0,
    ensures
        bytes_total(s) == s[0].data@.len() + bytes_total(s.drop_first()),
    decreases s.len(),
{
    if s.len() == 1 {
        assert(s.drop_first() =~= Seq::<Datagram>::empty());
        assert(s.drop_last() =~= Seq::<Datagram>::empty());
    } else {
        lemma_bytes_total_front(s.drop_last());
        assert(s.drop_last().drop_first() =~= s.drop_first().drop_last());
        assert(s.drop_last()[0] == s[0]);
        assert(s.drop_first().last() == s.last());
    }
}

/// A bounded FIFO of datagrams.  `len` tracks the total byte length of
/// the queued payloads; it never exceeds `capacity`.
pub struct Buffer {
    capacity: usize,
    len: usize,
    buf: VecDeque<Datagram>,
}

impl View for Buffer {
    type V = Seq<Datagram>;

    closed spec fn view(&self) -> Seq<Datagram> {
        self.buf@
    }
}

impl Buffer {
    /// The byte capacity this buffer was made with.
    pub closed spec fn spec_capacity(self) -> int {
        self.capacity as int
    }

    /// The running byte total equals the sum of the queued payload
    /// lengths and stays within the capacity.
    pub closed spec fn wf(self) -> bool {
        &&& self.len as int == bytes_total(self.buf@)
        &&& self.len <= self.capacity
    }

    pub fn with_capacity(capacity: usize) -> (r: Buffer)
        ensures
            r.wf(),
            r@ =~= Seq::<Datagram>::empty(),
            r.spec_capacity() == capacity,
    {
        Buffer { capacity, len: 0, buf: VecDeque::new() }
    }

    /// How many datagrams are queued.
    pub fn queued(&self) -> (r: usize)
        ensures
            r == self@.len(),
    {
        self.buf.len()
    }

    /// Enqueue `datagram` if its payload fits in the remaining
    /// capacity; report whether it did.
    pub fn add_datagram(&mut self, datagram: Datagram) -> (r: bool)
        requires
            old(self).wf(),
        ensures
            final(self).wf(),
            final(self).spec_capacity() == old(self).spec_capacity(),
            r == (bytes_total(old(self)@) + datagram.data@.len() <= old(self).spec_capacity()),
            r ==> final(self)@ =~= old(self)@.push(datagram),
            !r ==> final(self)@ == old(self)@,
    {
        if datagram.data.len() <= self.capacity - self.len {
            proof {
                assert(self.buf@.push(datagram).drop_last() =~= self.buf@);
            }
            self.len = self.len + datagram.data.len();
            self.buf.push_back(datagram);
            true
        } else {
            false
        }
    }

    /// Dequeue the oldest datagram, if any.
    pub fn take_datagram(&mut self) -> (r: Option<Datagram>)
        requires
            old(self).wf(),
        ensures
            final(self).wf(),
            final(self).spec_capacity() == old(self).spec_capacity(),
            old(self)@.len() == 0 ==> r is None && final(self)@ == old(self)@,
            old(self)@.len() > 0 ==> r == Some(old(self)@[0]) && final(self)@ =~= old(self)@.drop_first(),
    {
        proof {
            if self.buf@.len() > 0 {
                lemma_bytes_total_front(self.buf@);
                lemma_bytes_total_nonneg(self.buf@.drop_first());
            }
        }
        match self.buf.pop_front() {
            None => None,
            Some(d) => {
                self.len = self.len - d.data.len();
                Some(d)
            },
        }
    }
}

/// A prefix of a queue totals no more than the queue.
pub proof fn lemma_bytes_total_prefix(a: Seq<Datagram>, b: Seq<Datagram>)
    requires
        a.is_prefix_of(b),
    ensures
        bytes_total(a) <= bytes_total(b),
    decreases b.len(),
{
    if a.len() == b.len() {
        assert(a =~= b);
    } else {
        assert(a.is_prefix_of(b.drop_last()));
        lemma_bytes_total_prefix(a, b.drop_last());
        assert(bytes_total(b) == bytes_total(b.drop_last()) + b.last().data@.len());
    }
}

/// The byte total of a well-formed buffer never exceeds its capacity.
pub proof fn lemma_buffer_within_capacity(b: Buffer)
    requires
        b.wf(),
    ensures
        bytes_total(b@) <= b.spec_capacity(),
{
}

} // verus!
