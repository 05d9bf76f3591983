//! The virtual time driver of a node.
//!
//! A node's clock is a logical timestamp that only this driver moves,
//! and only forward.  Sleeping registers a timer; advancing the clock
//! fires every timer that has come due, earliest first, and reports
//! the ids of the tasks waiting on them so the scheduler can queue
//! them again.  Timers with equal timestamps fire in an order callers
//! must not rely on (here: insertion order).

use vstd::prelude::*;

use crate::runtime::TaskId;
use crate::seq_util::lemma_push_contains;
use crate::Timestamp;

verus! {

/// One pending timer: when it is due, and which task (if any) awaits
/// it.  Registering a waiter replaces the previous one: only the last
/// awaiter is woken.
pub struct TimerSlot {
    pub timestamp: Timestamp,
    pub waiter: Option<TaskId>,
}

/// Whether `t` waits on some pending timer of `d` that is due no
/// later than `to`.
pub open spec fn spec_waiter_of_due(d: TimeDriver, to: Timestamp, t: TaskId) -> bool {
    exists|id: usize|
        #![trigger d.spec_slots()[id as int]]
        d.spec_pending().contains(id) && d.spec_slots()[id as int].timestamp.nanos <= to.nanos
            && d.spec_slots()[id as int].waiter == Some(t)
}

/// The clock and timer queue of one node.  `slots` is an arena: a
/// timer keeps its id for the life of the driver, so an awaiting task
/// can ask about it after it fired; `pending` holds the ids not yet
/// fired.
pub struct TimeDriver {
    now_ns: u64,
    slots: Vec<TimerSlot>,
    pending: Vec<usize>,
}

impl TimeDriver {
    /// The current logical time.
    pub closed spec fn spec_time(self) -> Timestamp {
        Timestamp { nanos: self.now_ns }
    }

    /// All timers ever added, by id.
    pub closed spec fn spec_slots(self) -> Seq<TimerSlot> {
        self.slots@
    }

    /// The ids of the timers that have not fired yet, oldest first.
    pub closed spec fn spec_pending(self) -> Seq<usize> {
        self.pending@
    }

    /// Pending ids point into the arena and are unique.
    pub open spec fn wf(self) -> bool {
        &&& forall|k: int|
            0 <= k < self.spec_pending().len() ==> #[trigger] self.spec_pending()[k]
                < self.spec_slots().len()
        &&& self.spec_pending().no_duplicates()
    }

    pub fn new() -> (r: TimeDriver)
        ensures
            r.wf(),
            r.spec_time().nanos == 0,
            r.spec_slots() =~= Seq::<TimerSlot>::empty(),
            r.spec_pending() =~= Seq::<usize>::empty(),
    {
        TimeDriver { now_ns: 0, slots: Vec::new(), pending: Vec::new() }
    }

    /// The current logical time.
    pub fn time(&self) -> (r: Timestamp)
        ensures
            r == self.spec_time(),
    {
        Timestamp { nanos: self.now_ns }
    }

    /// Move the clock directly (used when a bounded step sequence ends
    /// between timers).  Time never moves backward.
    pub fn set_time(&mut self, to: Timestamp)
        requires
            old(self).spec_time().nanos <= to.nanos,
        ensures
            final(self).wf() == old(self).wf(),
            final(self).spec_time() == to,
            final(self).spec_slots() == old(self).spec_slots(),
            final(self).spec_pending() == old(self).spec_pending(),
    {
        self.now_ns = to.nanos;
    }

    /// Add a timer due at `timestamp`; its id identifies it from then
    /// on.
    pub fn add_timer(&mut self, timestamp: Timestamp) -> (id: usize)
        requires
            old(self).wf(),
        ensures
            final(self).wf(),
            id == old(self).spec_slots().len(),
            final(self).spec_slots() == old(self).spec_slots().push(
                TimerSlot { timestamp, waiter: None },
            ),
            final(self).spec_pending() == old(self).spec_pending().push(id),
            final(self).spec_time() == old(self).spec_time(),
    {
        let id = self.slots.len();
        self.slots.push(TimerSlot { timestamp, waiter: None });
        proof {
            let pre = self.pending@;
            assert forall|a: int, b: int|
                0 <= a < b < pre.push(id).len() implies pre.push(id)[a] != pre.push(id)[b] by {
                if b < pre.len() {
                    assert(pre[a] != pre[b]);
                } else {
                    assert(pre.push(id)[b] == id);
                    assert(pre.push(id)[a] == pre[a]);
                }
            }
            assert(pre.push(id).no_duplicates());
        }
        self.pending.push(id);
        id
    }

    /// Register `task` as the waiter of timer `id`, replacing any
    /// previous waiter.
    pub fn register_waiter(&mut self, id: usize, task: TaskId)
        requires
            old(self).wf(),
            id < old(self).spec_slots().len(),
        ensures
            final(self).wf(),
            final(self).spec_slots() == old(self).spec_slots().update(
                id as int,
                TimerSlot { timestamp: old(self).spec_slots()[id as int].timestamp, waiter: Some(task) },
            ),
            final(self).spec_pending() == old(self).spec_pending(),
            final(self).spec_time() == old(self).spec_time(),
    {
        let timestamp = self.slots[id].timestamp;
        self.slots.set(id, TimerSlot { timestamp, waiter: Some(task) });
    }

    /// Whether timer `id` has come due.
    pub fn timer_elapsed(&self, id: usize) -> (r: bool)
        requires
            id < self.spec_slots().len(),
        ensures
            r == (self.spec_slots()[id as int].timestamp.nanos <= self.spec_time().nanos),
    {
        self.slots[id].timestamp.nanos <= self.now_ns
    }

    /// The due time of timer `id`.
    pub fn timer_timestamp(&self, id: usize) -> (r: Timestamp)
        requires
            id < self.spec_slots().len(),
        ensures
            r == self.spec_slots()[id as int].timestamp,
    {
        self.slots[id].timestamp
    }

    /// The position in `pending` of the earliest pending timer — the
    /// first among equals.
    fn min_position(&self) -> (m: usize)
        requires
            self.wf(),
            self.spec_pending().len() > 0,
        ensures
            m < self.spec_pending().len(),
            forall|k: int|
                0 <= k < self.spec_pending().len()
                    ==> self.spec_slots()[self.spec_pending()[m as int] as int].timestamp.nanos
                    <= #[trigger] self.spec_slots()[self.spec_pending()[k] as int].timestamp.nanos,
            forall|k: int|
                0 <= k < m
                    ==> self.spec_slots()[self.spec_pending()[m as int] as int].timestamp.nanos
                    < #[trigger] self.spec_slots()[self.spec_pending()[k] as int].timestamp.nanos,
    {
        let mut best: usize = 0;
        let n = self.pending.len();
        let mut i: usize = 1;
        while i < n
            invariant
                self.wf(),
                n == self.pending@.len(),
                0 < n,
                best < i <= n,
                forall|k: int|
                    0 <= k < i
                        ==> self.slots@[self.pending@[best as int] as int].timestamp.nanos
                        <= #[trigger] self.slots@[self.pending@[k] as int].timestamp.nanos,
                forall|k: int|
                    0 <= k < best
                        ==> self.slots@[self.pending@[best as int] as int].timestamp.nanos
                        < #[trigger] self.slots@[self.pending@[k] as int].timestamp.nanos,
            decreases n - i,
        {
            let cand = self.pending[i];
            let cur = self.pending[best];
            if self.slots[cand].timestamp.nanos < self.slots[cur].timestamp.nanos {
                best = i;
            }
            i = i + 1;
        }
        best
    }

    /// The due time of the earliest pending timer, if any.
    pub fn next_timer(&self) -> (r: Option<Timestamp>)
        requires
            self.wf(),
        ensures
            r is None <==> self.spec_pending().len() == 0,
            r is Some ==> exists|k: int|
                0 <= k < self.spec_pending().len()
                    && #[trigger] self.spec_slots()[self.spec_pending()[k] as int].timestamp
                    == r->0,
            r is Some ==> forall|k: int|
                0 <= k < self.spec_pending().len() ==> r->0.nanos
                    <= #[trigger] self.spec_slots()[self.spec_pending()[k] as int].timestamp.nanos,
    {
        if self.pending.len() == 0 {
            return None;
        }
        let m = self.min_position();
        let id = self.pending[m];
        proof {
            assert(self.spec_slots()[self.spec_pending()[m as int] as int].timestamp
                == self.slots@[id as int].timestamp);
        }
        Some(self.slots[id].timestamp)
    }

    /// Fire the earliest pending timer: drop it from the pending set,
    /// move the clock to its due time, and hand back the waiting task,
    /// if one registered.  `None` when no timer is pending.
    pub fn advance_to_next_timer(&mut self) -> (r: Option<Option<TaskId>>)
        requires
            old(self).wf(),
        ensures
            final(self).wf(),
            final(self).spec_slots() == old(self).spec_slots(),
            r is None <==> old(self).spec_pending().len() == 0,
            r is None ==> *final(self) == *old(self),
            r is Some ==> exists|m: int|
                {
                    &&& 0 <= m < old(self).spec_pending().len()
                    &&& (forall|k: int|
                        0 <= k < old(self).spec_pending().len() ==> old(self).spec_slots()[old(self).spec_pending()[m] as int].timestamp.nanos <= #[trigger] old(self).spec_slots()[old(self).spec_pending()[k] as int].timestamp.nanos)
                    &&& (forall|k: int|
                        0 <= k < m ==> old(self).spec_slots()[old(self).spec_pending()[m] as int].timestamp.nanos < #[trigger] old(self).spec_slots()[old(self).spec_pending()[k] as int].timestamp.nanos)
                    &&& final(self).spec_pending() == old(self).spec_pending().remove(m)
                    &&& final(self).spec_time() == old(self).spec_slots()[old(self).spec_pending()[m] as int].timestamp
                    &&& r == Some(
                        old(self).spec_slots()[old(self).spec_pending()[m] as int].waiter,
                    )
                },
    {
        if self.pending.len() == 0 {
            return None;
        }
        let ghost pre = *self;
        let m = self.min_position();
        let id = self.pending.remove(m);
        self.now_ns = self.slots[id].timestamp.nanos;
        proof {
            pre.pending@.remove_ensures(m as int);
            assert forall|a: int, b: int|
                0 <= a < b < self.pending@.len() implies self.pending@[a] != self.pending@[b] by {
                let a0: int = if a < m { a } else { a + 1 };
                let b0: int = if b < m { b } else { b + 1 };
                assert(self.pending@[a] == pre.pending@[a0]);
                assert(self.pending@[b] == pre.pending@[b0]);
                assert(pre.pending@[a0] != pre.pending@[b0]);
            }
            assert(self.pending@.no_duplicates());
            assert forall|k: int|
                0 <= k < self.pending@.len() implies #[trigger] self.pending@[k]
                < self.slots@.len() by {
                let k0: int = if k < m { k } else { k + 1 };
                assert(self.pending@[k] == pre.pending@[k0]);
            }
            assert(final(self).spec_pending() == pre.spec_pending().remove(m as int));
        }
        Some(self.slots[id].waiter)
    }

    /// Fire, earliest first, every pending timer due no later than
    /// `to`, then set the clock to exactly `to`.  The ids of the tasks
    /// that waited on fired timers come back in firing order.
    pub fn advance_to_time(&mut self, to: Timestamp) -> (woken: Vec<TaskId>)
        requires
            old(self).wf(),
            old(self).spec_time().nanos <= to.nanos,
        ensures
            final(self).wf(),
            final(self).spec_slots() == old(self).spec_slots(),
            final(self).spec_time() == to,
            // every remaining timer is due strictly after `to`
            forall|k: int|
                0 <= k < final(self).spec_pending().len()
                    ==> #[trigger] final(self).spec_slots()[final(self).spec_pending()[k] as int]
                    .timestamp.nanos > to.nanos,
            // nothing not yet due left the pending set, and nothing entered it
            forall|id: usize|
                old(self).spec_pending().contains(id) && old(self).spec_slots()[
                    id as int
                ].timestamp.nanos > to.nanos ==> final(self).spec_pending().contains(id),
            forall|id: usize|
                final(self).spec_pending().contains(id) ==> old(self).spec_pending().contains(id),
            // a fired timer's waiter is handed back
            forall|id: usize|
                old(self).spec_pending().contains(id) && old(self).spec_slots()[
                    id as int
                ].timestamp.nanos <= to.nanos && old(self).spec_slots()[id as int].waiter is Some
                    ==> woken@.contains(old(self).spec_slots()[id as int].waiter->0),
            // and nothing else is handed back: every woken task waited
            // on a timer that was due
            forall|w: int|
                0 <= w < woken@.len() ==> spec_waiter_of_due(*old(self), to, #[trigger] woken@[w]),
            // the woken tasks come back exactly in firing order:
            // earliest timer first, first-added among equals
            woken@ == spec_fired_waiters(old(self).spec_slots(), old(self).spec_pending(), to),
    {
        let mut woken: Vec<TaskId> = Vec::new();
        let ghost mut fired_id: usize = 0;
        proof {
            assert(woken@ + spec_fired_waiters(old(self).spec_slots(), self.spec_pending(), to)
                =~= spec_fired_waiters(old(self).spec_slots(), old(self).spec_pending(), to));
        }
        loop
            invariant
                self.wf(),
                self.spec_slots() == old(self).spec_slots(),
                self.spec_time().nanos <= to.nanos,
                forall|id: usize|
                    old(self).spec_pending().contains(id) && self.spec_slots()[
                        id as int
                    ].timestamp.nanos > to.nanos ==> self.spec_pending().contains(id),
                forall|id: usize|
                    self.spec_pending().contains(id) ==> old(self).spec_pending().contains(id),
                forall|id: usize|
                    old(self).spec_pending().contains(id) && self.spec_slots()[
                        id as int
                    ].timestamp.nanos <= to.nanos && self.spec_slots()[id as int].waiter is Some
                        ==> woken@.contains(self.spec_slots()[id as int].waiter->0)
                        || self.spec_pending().contains(id),
                forall|w: int|
                    0 <= w < woken@.len() ==> spec_waiter_of_due(*old(self), to, #[trigger] woken@[w]),
                woken@ + spec_fired_waiters(old(self).spec_slots(), self.spec_pending(), to)
                    == spec_fired_waiters(old(self).spec_slots(), old(self).spec_pending(), to),
            ensures
                self.wf(),
                self.spec_slots() == old(self).spec_slots(),
                self.spec_time().nanos <= to.nanos,
                forall|k: int|
                    0 <= k < self.spec_pending().len()
                        ==> #[trigger] self.spec_slots()[self.spec_pending()[k] as int]
                        .timestamp.nanos > to.nanos,
                forall|id: usize|
                    old(self).spec_pending().contains(id) && self.spec_slots()[
                        id as int
                    ].timestamp.nanos > to.nanos ==> self.spec_pending().contains(id),
                forall|id: usize|
                    self.spec_pending().contains(id) ==> old(self).spec_pending().contains(id),
                forall|id: usize|
                    old(self).spec_pending().contains(id) && self.spec_slots()[
                        id as int
                    ].timestamp.nanos <= to.nanos && self.spec_slots()[id as int].waiter is Some
                        ==> woken@.contains(self.spec_slots()[id as int].waiter->0),
                forall|w: int|
                    0 <= w < woken@.len() ==> spec_waiter_of_due(*old(self), to, #[trigger] woken@[w]),
                woken@ == spec_fired_waiters(old(self).spec_slots(), old(self).spec_pending(), to),
            decreases self.pending@.len(),
        {
            let stop = match self.next_timer() {
                None => true,
                Some(t) => t.nanos > to.nanos,
            };
            if stop {
                proof {
                    assert forall|k: int|
                        0 <= k < self.spec_pending().len()
                            implies #[trigger] self.spec_slots()[self.spec_pending()[k] as int]
                            .timestamp.nanos > to.nanos by {
                        assert(self.spec_pending().contains(self.spec_pending()[k]));
                    }
                    assert(spec_fired_waiters(old(self).spec_slots(), self.spec_pending(), to)
                        =~= Seq::<TaskId>::empty()) by {
                        if self.spec_pending().len() > 0 {
                            lemma_timer_first_min_facts(
                                old(self).spec_slots(),
                                self.spec_pending(),
                            );
                            assert(self.spec_pending().contains(self.spec_pending()[
                                spec_timer_first_min(old(self).spec_slots(), self.spec_pending())
                            ]));
                        }
                    }
                    assert(woken@ + Seq::<TaskId>::empty() =~= woken@);
                }
                break ;
            }
            let ghost mid = *self;
            let ghost woken_pre = woken@;
            let fired = self.advance_to_next_timer();
            proof {
                let m = choose|m: int|
                    {
                        &&& 0 <= m < mid.spec_pending().len()
                        &&& (forall|k: int|
                            0 <= k < mid.spec_pending().len() ==> mid.spec_slots()[
                                mid.spec_pending()[m] as int].timestamp.nanos <= #[trigger]
                                mid.spec_slots()[mid.spec_pending()[k] as int].timestamp.nanos)
                        &&& (forall|k: int|
                            0 <= k < m ==> mid.spec_slots()[
                                mid.spec_pending()[m] as int].timestamp.nanos < #[trigger]
                                mid.spec_slots()[mid.spec_pending()[k] as int].timestamp.nanos)
                        &&& self.spec_pending() == mid.spec_pending().remove(m)
                        &&& self.spec_time() == mid.spec_slots()[
                            mid.spec_pending()[m] as int].timestamp
                        &&& fired == Some(
                            mid.spec_slots()[mid.spec_pending()[m] as int].waiter,
                        )
                    };
                mid.pending@.remove_ensures(m);
                assert(mid.spec_pending().contains(mid.spec_pending()[m]));
                assert(self.spec_time().nanos <= to.nanos);
                assert forall|id: usize|
                    mid.spec_pending().contains(id) && id != mid.spec_pending()[m]
                        implies self.spec_pending().contains(id) by {
                    let j = choose|j: int|
                        0 <= j < mid.pending@.len() && #[trigger] mid.pending@[j] == id;
                    if j < m {
                        assert(self.pending@[j] == id);
                    } else {
                        assert(j != m);
                        assert(self.pending@[j - 1] == id);
                    }
                }
                assert forall|id: usize|
                    self.spec_pending().contains(id) implies mid.spec_pending().contains(id) by {
                    let j = choose|j: int|
                        0 <= j < self.pending@.len() && #[trigger] self.pending@[j] == id;
                    if j < m {
                        assert(mid.pending@[j] == id);
                    } else {
                        assert(mid.pending@[j + 1] == id);
                    }
                }
                fired_id = mid.spec_pending()[m] as usize;
                assert(mid.spec_pending().contains(fired_id));
                assert(old(self).spec_pending().contains(fired_id));
                assert(old(self).spec_slots()[fired_id as int].timestamp.nanos <= to.nanos);
                assert(fired == Some(old(self).spec_slots()[fired_id as int].waiter));
                lemma_timer_first_min_unique(mid.spec_slots(), mid.spec_pending(), m);
                assert(self.spec_pending() == mid.spec_pending().remove(
                    spec_timer_first_min(mid.spec_slots(), mid.spec_pending()),
                ));
                assert(spec_fired_waiters(old(self).spec_slots(), mid.spec_pending(), to) == (
                match old(self).spec_slots()[fired_id as int].waiter {
                    Some(t) => seq![t],
                    None => Seq::<TaskId>::empty(),
                }) + spec_fired_waiters(old(self).spec_slots(), self.spec_pending(), to)) by {
                    assert(mid.spec_slots() == old(self).spec_slots());
                    assert(mid.spec_pending()[spec_timer_first_min(
                        mid.spec_slots(),
                        mid.spec_pending(),
                    )] == fired_id);
                }
            }
            match fired {
                None => {
                    break ;
                },
                Some(None) => {
                    proof {
                        assert(old(self).spec_slots()[fired_id as int].waiter is None);
                        assert(woken@ + (Seq::<TaskId>::empty() + spec_fired_waiters(
                            old(self).spec_slots(),
                            self.spec_pending(),
                            to,
                        )) =~= woken@ + spec_fired_waiters(
                            old(self).spec_slots(),
                            self.spec_pending(),
                            to,
                        ));
                    }
                },
                Some(Some(task)) => {
                    proof {
                        lemma_push_contains(woken@, task);
                        assert(old(self).spec_slots()[fired_id as int].waiter == Some(task));
                        assert(spec_waiter_of_due(*old(self), to, task)) by {
                            assert(old(self).spec_pending().contains(fired_id) && old(
                                self,
                            ).spec_slots()[fired_id as int].timestamp.nanos <= to.nanos && old(
                                self,
                            ).spec_slots()[fired_id as int].waiter == Some(task));
                        }
                        assert forall|w: int|
                            0 <= w < woken@.push(task).len() implies spec_waiter_of_due(
                            *old(self),
                            to,
                            #[trigger] woken@.push(task)[w],
                        ) by {
                            if w < woken@.len() {
                                assert(woken@.push(task)[w] == woken@[w]);
                            } else {
                                assert(woken@.push(task)[w] == task);
                            }
                        }
                        assert(old(self).spec_slots()[fired_id as int].waiter == Some(task));
                        assert(woken@.push(task) + spec_fired_waiters(
                            old(self).spec_slots(),
                            self.spec_pending(),
                            to,
                        ) =~= woken@ + (seq![task] + spec_fired_waiters(
                            old(self).spec_slots(),
                            self.spec_pending(),
                            to,
                        )));
                    }
                    woken.push(task);
                },
            }
        }
        self.set_time(to);
        woken
    }
}

} // verus!

verus! {

/// A sleep of zero duration completes after one advance step, and the
/// clock then reads exactly the pre-sleep time: a timer due `now`
/// fires on the next advance, which moves the clock to the timer's
/// due time — `now` itself.
pub proof fn lemma_sleep_zero(pre: TimeDriver, mid: TimeDriver, post: TimeDriver, id: usize, m: int)
    requires
        pre.wf(),
        // `mid`: the timer was added, due now
        id == pre.spec_slots().len(),
        mid.spec_slots() == pre.spec_slots().push(
            TimerSlot { timestamp: pre.spec_time(), waiter: None },
        ),
        mid.spec_pending() == pre.spec_pending().push(id),
        mid.spec_time() == pre.spec_time(),
        // `post`: the earliest pending timer fired, at position `m`
        0 <= m < mid.spec_pending().len(),
        forall|k: int|
            0 <= k < mid.spec_pending().len() ==> mid.spec_slots()[
                mid.spec_pending()[m] as int
            ].timestamp.nanos <= #[trigger] mid.spec_slots()[
                mid.spec_pending()[k] as int
            ].timestamp.nanos,
        post.spec_pending() == mid.spec_pending().remove(m),
        post.spec_time() == mid.spec_slots()[mid.spec_pending()[m] as int].timestamp,
        // every pending timer lay in the clock's future
        forall|k: int|
            0 <= k < pre.spec_pending().len() ==> #[trigger] pre.spec_slots()[
                pre.spec_pending()[k] as int
            ].timestamp.nanos >= pre.spec_time().nanos,
    ensures
        post.spec_time() == pre.spec_time(),
{
    let fired = mid.spec_pending()[m];
    assert(mid.spec_slots()[mid.spec_pending()[mid.spec_pending().len() - 1] as int]
        .timestamp.nanos == pre.spec_time().nanos) by {
        assert(mid.spec_pending()[mid.spec_pending().len() - 1] == id);
    }
    if fired == id {
    } else {
        assert(mid.spec_pending()[m] == pre.spec_pending()[m]);
        assert(pre.spec_slots()[pre.spec_pending()[m] as int].timestamp.nanos
            >= pre.spec_time().nanos);
        assert(mid.spec_slots()[mid.spec_pending()[m] as int].timestamp.nanos
            <= pre.spec_time().nanos);
        assert(mid.spec_slots()[fired as int] == pre.spec_slots()[fired as int]) by {
            assert(pre.spec_pending()[m] < pre.spec_slots().len());
        }
    }
}

} // verus!

verus! {

/// The position in `pending` of the earliest due timer — the first
/// among equals, the one `advance_to_next_timer` fires.
pub open spec fn spec_timer_first_min(slots: Seq<TimerSlot>, pending: Seq<usize>) -> int
    decreases pending.len(),
{
    if pending.len() <= 1 {
        0
    } else {
        let m = spec_timer_first_min(slots, pending.drop_first());
        if slots[pending[0] as int].timestamp.nanos <= slots[
            pending[m + 1] as int
        ].timestamp.nanos {
            0
        } else {
            m + 1
        }
    }
}

/// The earliest-due position is in range, attains the minimum, and is
/// strictly earlier than everything before it.
pub proof fn lemma_timer_first_min_facts(slots: Seq<TimerSlot>, pending: Seq<usize>)
    requires
        pending.len() > 0,
    ensures
        0 <= spec_timer_first_min(slots, pending) < pending.len(),
        forall|k: int|
            0 <= k < pending.len() ==> slots[
                pending[spec_timer_first_min(slots, pending)] as int
            ].timestamp.nanos <= slots[#[trigger] pending[k] as int].timestamp.nanos,
        forall|k: int|
            0 <= k < spec_timer_first_min(slots, pending) ==> slots[
                pending[spec_timer_first_min(slots, pending)] as int
            ].timestamp.nanos < slots[#[trigger] pending[k] as int].timestamp.nanos,
    decreases pending.len(),
{
    if pending.len() > 1 {
        lemma_timer_first_min_facts(slots, pending.drop_first());
        let t = pending.drop_first();
        let mt = spec_timer_first_min(slots, t);
        let f = spec_timer_first_min(slots, pending);
        assert forall|k: int| 0 <= k < t.len() implies #[trigger] t[k] == pending[k + 1] by {}
        if slots[pending[0] as int].timestamp.nanos <= slots[
            pending[mt + 1] as int
        ].timestamp.nanos {
            assert(f == 0);
            assert forall|k: int|
                0 <= k < pending.len() implies slots[pending[f] as int].timestamp.nanos <= slots[
                #[trigger] pending[k] as int
            ].timestamp.nanos by {
                if k >= 1 {
                    assert(slots[t[mt] as int].timestamp.nanos <= slots[
                        t[k - 1] as int
                    ].timestamp.nanos);
                    assert(pending[k] == t[k - 1]);
                    assert(pending[mt + 1] == t[mt]);
                }
            }
        } else {
            assert(f == mt + 1);
            assert(pending[f] == t[mt]);
            assert forall|k: int|
                0 <= k < pending.len() implies slots[pending[f] as int].timestamp.nanos <= slots[
                #[trigger] pending[k] as int
            ].timestamp.nanos by {
                if k >= 1 {
                    assert(slots[t[mt] as int].timestamp.nanos <= slots[
                        t[k - 1] as int
                    ].timestamp.nanos);
                    assert(pending[k] == t[k - 1]);
                }
            }
            assert forall|k: int|
                0 <= k < f implies slots[pending[f] as int].timestamp.nanos < slots[
                #[trigger] pending[k] as int
            ].timestamp.nanos by {
                if k >= 1 {
                    assert(slots[t[mt] as int].timestamp.nanos < slots[
                        t[k - 1] as int
                    ].timestamp.nanos);
                    assert(pending[k] == t[k - 1]);
                }
            }
        }
    }
}

/// Two positions that both attain the minimum first are the same.
pub proof fn lemma_timer_first_min_unique(slots: Seq<TimerSlot>, pending: Seq<usize>, m: int)
    requires
        0 <= m < pending.len(),
        forall|k: int|
            0 <= k < pending.len() ==> slots[pending[m] as int].timestamp.nanos <= slots[
                #[trigger] pending[k] as int
            ].timestamp.nanos,
        forall|k: int|
            0 <= k < m ==> slots[pending[m] as int].timestamp.nanos < slots[
                #[trigger] pending[k] as int
            ].timestamp.nanos,
    ensures
        m == spec_timer_first_min(slots, pending),
{
    lemma_timer_first_min_facts(slots, pending);
    let f = spec_timer_first_min(slots, pending);
    if m < f {
        assert(slots[pending[f] as int].timestamp.nanos < slots[
            pending[m] as int
        ].timestamp.nanos);
    } else if f < m {
        assert(slots[pending[m] as int].timestamp.nanos < slots[
            pending[f] as int
        ].timestamp.nanos);
    }
}

/// The tasks that advancing to `to` wakes, in firing order: the
/// registered waiters of the due timers, earliest timer first, the
/// first-added among equals.
pub open spec fn spec_fired_waiters(
    slots: Seq<TimerSlot>,
    pending: Seq<usize>,
    to: Timestamp,
) -> Seq<TaskId>
    decreases pending.len() via spec_fired_waiters_decreases
{
    if pending.len() == 0 {
        Seq::<TaskId>::empty()
    } else {
        let m = spec_timer_first_min(slots, pending);
        let id = pending[m];
        if slots[id as int].timestamp.nanos > to.nanos {
            Seq::<TaskId>::empty()
        } else {
            let head: Seq<TaskId> = match slots[id as int].waiter {
                Some(t) => seq![t],
                None => Seq::<TaskId>::empty(),
            };
            head + spec_fired_waiters(slots, pending.remove(m), to)
        }
    }
}

#[via_fn]
proof fn spec_fired_waiters_decreases(slots: Seq<TimerSlot>, pending: Seq<usize>, to: Timestamp) {
    if pending.len() > 0 {
        lemma_timer_first_min_facts(slots, pending);
    }
}

} // verus!
