//! The cooperative task scheduler of a node.
//!
//! The scheduler owns only the identities of tasks: a FIFO queue of
//! task ids to poll, and the set of ids whose task is still alive.
//! The tasks themselves — suspended computations — are outside work
//! that the embedding runs: it asks the scheduler which task to poll
//! next, polls it, and reports whether it finished.  Waking a task
//! enqueues its id again; duplicate or stale ids in the queue are
//! skipped when taken.

use std::collections::VecDeque;

use vstd::prelude::*;

use crate::seq_util::lemma_push_contains;

verus! {

/// The identity of a task: unique among the live tasks of one
/// scheduler for the task's lifetime.
pub type TaskId = u64;

/// The error a join reports when the task was destroyed before it
/// completed.
#[derive(Clone, Copy, PartialEq, Eq, Structural, Debug)]
pub struct JoinError {}

impl JoinError {
    /// A human-readable description of the error.
    pub fn message(&self) -> &'static str {
        "the task has been dropped"
    }
}

/// The first id in `q` whose task is alive, if any.
pub open spec fn spec_first_live(q: Seq<TaskId>, live: Seq<TaskId>) -> Option<TaskId>
    decreases q.len(),
{
    if q.len() == 0 {
        None
    } else if live.contains(q[0]) {
        Some(q[0])
    } else {
        spec_first_live(q.drop_first(), live)
    }
}

/// What remains of `q` once everything up to and including the first
/// live id has been popped.
pub open spec fn spec_after_take(q: Seq<TaskId>, live: Seq<TaskId>) -> Seq<TaskId>
    decreases q.len(),
{
    if q.len() == 0 {
        q
    } else if live.contains(q[0]) {
        q.drop_first()
    } else {
        spec_after_take(q.drop_first(), live)
    }
}

/// An exhausted queue yields nothing further.
pub proof fn lemma_after_take_empty(q: Seq<TaskId>, live: Seq<TaskId>)
    requires
        spec_first_live(q, live) is None,
    ensures
        spec_after_take(q, live) =~= Seq::<TaskId>::empty(),
    decreases q.len(),
{
    if q.len() > 0 {
        lemma_after_take_empty(q.drop_first(), live);
    }
}

/// The scheduling state: the poll queue and the live task ids.
pub struct State {
    task_queue: VecDeque<TaskId>,
    tasks: Vec<TaskId>,
}

impl State {
    /// The queue of ids waiting to be polled, oldest first.
    pub closed spec fn spec_queue(self) -> Seq<TaskId> {
        self.task_queue@
    }

    /// Whether the task with id `id` is alive.
    pub closed spec fn spec_live(self, id: TaskId) -> bool {
        self.tasks@.contains(id)
    }

    /// The live ids, free of duplicates.
    pub closed spec fn spec_live_seq(self) -> Seq<TaskId> {
        self.tasks@
    }

    /// The live ids hold no duplicates.
    pub closed spec fn wf(self) -> bool {
        self.tasks@.no_duplicates()
    }

    pub fn new() -> (r: State)
        ensures
            r.wf(),
            r.spec_queue() =~= Seq::<TaskId>::empty(),
            r.spec_live_seq() =~= Seq::<TaskId>::empty(),
    {
        State { task_queue: VecDeque::new(), tasks: Vec::new() }
    }

    /// How many ids sit in the poll queue.
    pub fn queue_len(&self) -> (r: usize)
        ensures
            r == self.spec_queue().len(),
    {
        self.task_queue.len()
    }

    /// Pop queued ids until one of a live task comes up, and hand that
    /// id out; `None` once the queue is exhausted.  The task stays
    /// live while it is polled — `remove_task` retires it when it
    /// finishes.
    pub fn take_task(&mut self) -> (r: Option<TaskId>)
        ensures
            final(self).spec_live_seq() == old(self).spec_live_seq(),
            final(self).wf() == old(self).wf(),
            r == spec_first_live(old(self).spec_queue(), old(self).spec_live_seq()),
            final(self).spec_queue() == spec_after_take(
                old(self).spec_queue(),
                old(self).spec_live_seq(),
            ),
    {
        loop
            invariant
                self.tasks@ == old(self).tasks@,
                spec_first_live(old(self).spec_queue(), self.tasks@) == spec_first_live(
                    self.task_queue@,
                    self.tasks@,
                ),
                spec_after_take(old(self).spec_queue(), self.tasks@) == spec_after_take(
                    self.task_queue@,
                    self.tasks@,
                ),
            decreases self.task_queue@.len(),
        {
            match self.task_queue.pop_front() {
                None => {
                    return None;
                },
                Some(id) => {
                    if contains_id(&self.tasks, id) {
                        return Some(id);
                    }
                },
            }
        }
    }

    /// Register a new task: its id becomes live and is queued for its
    /// first poll.
    pub fn add_task(&mut self, id: TaskId)
        requires
            old(self).wf(),
            !old(self).spec_live(id),
        ensures
            final(self).wf(),
            final(self).spec_live_seq() == old(self).spec_live_seq().push(id),
            forall|q: TaskId|
                final(self).spec_live(q) <==> old(self).spec_live(q) || q == id,
            final(self).spec_queue() == old(self).spec_queue().push(id),
    {
        proof {
            lemma_push_contains(self.tasks@, id);
            let pre = self.tasks@;
            assert forall|a: int, b: int|
                0 <= a < b < pre.push(id).len() implies pre.push(id)[a] != pre.push(id)[b] by {
                if b < pre.len() {
                    assert(pre[a] != pre[b]);
                } else {
                    assert(pre.push(id)[b] == id);
                    assert(pre.push(id)[a] == pre[a]);
                    assert(pre.contains(pre[a]));
                }
            }
            assert(pre.push(id).no_duplicates());
        }
        self.tasks.push(id);
        self.task_queue.push_back(id);
    }

    /// Queue an id for another poll — what waking a task does.  Stale
    /// and duplicate ids are tolerated; `take_task` skips them.
    pub fn push_task(&mut self, id: TaskId)
        ensures
            final(self).wf() == old(self).wf(),
            final(self).spec_live_seq() == old(self).spec_live_seq(),
            final(self).spec_queue() == old(self).spec_queue().push(id),
    {
        self.task_queue.push_back(id);
    }

    /// Retire a finished task; an id that is not live is left alone.
    pub fn remove_task(&mut self, id: TaskId)
        requires
            old(self).wf(),
        ensures
            final(self).wf(),
            final(self).spec_queue() == old(self).spec_queue(),
            forall|q: TaskId|
                final(self).spec_live(q) <==> old(self).spec_live(q) && q != id,
    {
        let ghost pre = self.tasks@;
        let n = self.tasks.len();
        for i in 0..n
            invariant
                *self == *old(self),
                old(self).wf(),
                pre == self.tasks@,
                n == self.tasks@.len(),
                forall|j: int| 0 <= j < i ==> self.tasks@[j] != id,
        {
            if self.tasks[i] == id {
                self.tasks.remove(i);
                proof {
                    pre.remove_ensures(i as int);
                    assert(pre[i as int] == id);
                    assert forall|q: TaskId|
                        self.tasks@.contains(q) <==> pre.contains(q) && q != id by {
                        if self.tasks@.contains(q) {
                            let j = choose|j: int|
                                0 <= j < self.tasks@.len() && #[trigger] self.tasks@[j] == q;
                            if j < i {
                                assert(pre[j] == q);
                                assert(pre[j] != pre[i as int]);
                            } else {
                                assert(pre[j + 1] == q);
                                assert(pre[j + 1] != pre[i as int]);
                            }
                        }
                        if pre.contains(q) && q != id {
                            let j = choose|j: int| 0 <= j < pre.len() && #[trigger] pre[j] == q;
                            if j < i {
                                assert(self.tasks@[j] == q);
                            } else {
                                assert(j != i);
                                assert(self.tasks@[j - 1] == q);
                            }
                        }
                    }
                    assert forall|a: int, b: int|
                        0 <= a < b < self.tasks@.len() implies self.tasks@[a] != self.tasks@[b] by {
                        let a0: int = if a < i { a } else { a + 1 };
                        let b0: int = if b < i { b } else { b + 1 };
                        assert(self.tasks@[a] == pre[a0]);
                        assert(self.tasks@[b] == pre[b0]);
                    }
                    assert(self.tasks@.no_duplicates());
                }
                return ;
            }
        }
        proof {
            assert(!pre.contains(id));
        }
    }
}

/// The scheduler of one node: scheduling state plus the id counter
/// that keeps task identities unique.
pub struct Runtime {
    state: State,
    next_id: TaskId,
}

/// The embedding's side of a poll: the scheduler names a task id, the
/// poller runs that task until it yields, and reports whether it
/// finished.  A poller that reaches the scheduler only through this
/// crate's public operations keeps the contract below without further
/// ado; polling must not retire or recycle the id it was handed.
pub trait RuntimePoller {
    fn poll_task(&mut self, rt: &mut Runtime, task: TaskId) -> (done: bool)
        requires
            old(rt).wf(),
        ensures
            final(rt).wf(),
            final(rt).spec_next_id() >= old(rt).spec_next_id(),
    ;
}

/// A poller for tasks that finish on their first poll — and the
/// degenerate embedding used when nothing was spawned.
pub struct IdlePoller {}

impl RuntimePoller for IdlePoller {
    fn poll_task(&mut self, rt: &mut Runtime, task: TaskId) -> (done: bool) {
        true
    }
}

impl Runtime {
    /// The queue of ids waiting to be polled.
    pub closed spec fn spec_queue(self) -> Seq<TaskId> {
        self.state.spec_queue()
    }

    /// Whether the task with id `id` is alive.
    pub closed spec fn spec_live(self, id: TaskId) -> bool {
        self.state.spec_live(id)
    }

    /// The live ids.
    pub closed spec fn spec_live_seq(self) -> Seq<TaskId> {
        self.state.spec_live_seq()
    }

    /// The next task id to hand out.
    pub closed spec fn spec_next_id(self) -> TaskId {
        self.next_id
    }

    /// Live ids are unique and below the id counter.
    pub closed spec fn wf(self) -> bool {
        &&& self.state.wf()
        &&& forall|i: int|
            0 <= i < self.spec_live_seq().len() ==> #[trigger] self.spec_live_seq()[i]
                < self.spec_next_id()
    }

    pub fn new() -> (r: Runtime)
        ensures
            r.wf(),
            r.spec_queue() =~= Seq::<TaskId>::empty(),
            r.spec_live_seq() =~= Seq::<TaskId>::empty(),
            r.spec_next_id() == 0,
    {
        Runtime { state: State::new(), next_id: 0 }
    }

    /// Whether any id sits in the poll queue.  (Stale ids count: they
    /// are discovered only when taken.)
    pub fn has_work(&self) -> (r: bool)
        ensures
            r == (self.spec_queue().len() > 0),
    {
        self.state.queue_len() > 0
    }

    /// Register a new task under a fresh id and queue it for its
    /// first poll.
    pub fn submit(&mut self) -> (id: TaskId)
        requires
            old(self).wf(),
            old(self).spec_next_id() < TaskId::MAX,
        ensures
            final(self).wf(),
            id == old(self).spec_next_id(),
            final(self).spec_next_id() == old(self).spec_next_id() + 1,
            final(self).spec_live_seq() == old(self).spec_live_seq().push(id),
            forall|q: TaskId| final(self).spec_live(q) <==> old(self).spec_live(q) || q == id,
            final(self).spec_queue() == old(self).spec_queue().push(id),
    {
        let id = self.next_id;
        proof {
            if self.state.spec_live(id) {
                let j = choose|j: int|
                    0 <= j < self.state.spec_live_seq().len() && #[trigger] self.state.spec_live_seq()[j] == id;
            }
        }
        self.state.add_task(id);
        self.next_id = self.next_id + 1;
        proof {
            lemma_push_contains(old(self).spec_live_seq(), id);
        }
        id
    }

    /// Pop queued ids until one of a live task comes up, and hand
    /// that id out; `None` once the queue is exhausted.
    pub fn take_task(&mut self) -> (r: Option<TaskId>)
        ensures
            final(self).spec_live_seq() == old(self).spec_live_seq(),
            final(self).spec_next_id() == old(self).spec_next_id(),
            old(self).wf() ==> final(self).wf(),
            r == spec_first_live(old(self).spec_queue(), old(self).spec_live_seq()),
            final(self).spec_queue() == spec_after_take(
                old(self).spec_queue(),
                old(self).spec_live_seq(),
            ),
    {
        self.state.take_task()
    }

    /// Queue an id for another poll — what waking a task does.
    pub fn push_task(&mut self, id: TaskId)
        ensures
            old(self).wf() ==> final(self).wf(),
            final(self).spec_live_seq() == old(self).spec_live_seq(),
            final(self).spec_next_id() == old(self).spec_next_id(),
            final(self).spec_queue() == old(self).spec_queue().push(id),
    {
        self.state.push_task(id);
        proof {
            if old(self).wf() {
                assert forall|i: int|
                    0 <= i < self.spec_live_seq().len() implies #[trigger] self.spec_live_seq()[i]
                    < self.spec_next_id() by {
                    assert(old(self).spec_live_seq()[i] < old(self).spec_next_id());
                }
            }
        }
    }

    /// Retire a finished task.
    pub fn remove_task(&mut self, id: TaskId)
        requires
            old(self).wf(),
        ensures
            final(self).wf(),
            final(self).spec_queue() == old(self).spec_queue(),
            final(self).spec_next_id() == old(self).spec_next_id(),
            forall|q: TaskId|
                final(self).spec_live(q) <==> old(self).spec_live(q) && q != id,
    {
        self.state.remove_task(id);
        proof {
            assert forall|i: int|
                0 <= i < self.spec_live_seq().len() implies #[trigger] self.spec_live_seq()[i]
                < self.spec_next_id() by {
                assert(self.spec_live_seq().contains(self.spec_live_seq()[i]));
                assert(old(self).spec_live(self.spec_live_seq()[i]));
                let j = choose|j: int|
                    0 <= j < old(self).spec_live_seq().len() && #[trigger] old(self).spec_live_seq()[j] == self.spec_live_seq()[i];
            }
        }
    }

    /// Poll one task: take the first live id off the queue — skipping
    /// stale ids — run it through the poller, and retire it if it
    /// finished.  Reports the polled id and whether its poll finished,
    /// or `None` when no queued id maps to a live task.
    pub fn next_step<P: RuntimePoller>(&mut self, poller: &mut P) -> (r: Option<(TaskId, bool)>)
        requires
            old(self).wf(),
        ensures
            final(self).wf(),
            r is None <==> spec_first_live(old(self).spec_queue(), old(self).spec_live_seq())
                is None,
            r is None ==> final(self).spec_live_seq() == old(self).spec_live_seq()
                && final(self).spec_queue() == spec_after_take(
                old(self).spec_queue(),
                old(self).spec_live_seq(),
            ) && final(self).spec_next_id() == old(self).spec_next_id(),
            // the polled id is the first live queued id; a finished
            // task is no longer live
            r is Some ==> (r->0).0 == spec_first_live(
                old(self).spec_queue(),
                old(self).spec_live_seq(),
            )->0,
            (r is Some && (r->0).1) ==> !final(self).spec_live((r->0).0),
    {
        match self.state.take_task() {
            None => None,
            Some(id) => {
                let done = poller.poll_task(self, id);
                if done {
                    self.remove_task(id);
                }
                Some((id, done))
            },
        }
    }

    /// Repeat `next_step` up to `steps` times (unbounded when `None`,
    /// up to the machine's count limit), stopping at the first step
    /// that found nothing to poll; count the steps made.
    pub fn make_steps<P: RuntimePoller>(&mut self, steps: Option<usize>, poller: &mut P) -> (r:
        usize)
        requires
            old(self).wf(),
        ensures
            final(self).wf(),
            match steps {
                Some(n) => r <= n,
                None => true,
            },
            // stopping below the budget means the queue holds no live
            // task any more
            (match steps {
                Some(n) => r < n,
                None => r < usize::MAX,
            }) ==> spec_first_live(final(self).spec_queue(), final(self).spec_live_seq()) is None,
            // the count is zero exactly when there was nothing to poll
            // (given any budget at all)
            (steps is Some ==> steps->0 > 0) ==> (r == 0 <==> spec_first_live(
                old(self).spec_queue(),
                old(self).spec_live_seq(),
            ) is None),
            // a zero count only drained stale ids
            (r == 0 && (steps is Some ==> steps->0 > 0)) ==> {
                &&& final(self).spec_live_seq() == old(self).spec_live_seq()
                &&& final(self).spec_next_id() == old(self).spec_next_id()
                &&& final(self).spec_queue() == spec_after_take(
                    old(self).spec_queue(),
                    old(self).spec_live_seq(),
                )
            },
    {
        let limit: usize = match steps {
            Some(n) => n,
            None => usize::MAX,
        };
        let mut made: usize = 0;
        while made < limit
            invariant
                self.wf(),
                made <= limit,
                (steps is Some) ==> limit == steps->0,
                made == 0 ==> *self == *old(self),
                made > 0 ==> spec_first_live(
                    old(self).spec_queue(),
                    old(self).spec_live_seq(),
                ) is Some,
            decreases limit - made,
        {
            let ghost qpre = self.spec_queue();
            let ghost lpre = self.spec_live_seq();
            if self.next_step(poller).is_none() {
                proof {
                    lemma_after_take_empty(qpre, lpre);
                    assert(self.spec_queue() =~= Seq::<TaskId>::empty());
                }
                return made;
            }
            made = made + 1;
        }
        made
    }
}

/// Whether `v` holds `id`.
fn contains_id(v: &Vec<TaskId>, id: TaskId) -> (r: bool)
    ensures
        r == v@.contains(id),
{
    let n = v.len();
    for i in 0..n
        invariant
            n == v@.len(),
            forall|j: int| 0 <= j < i ==> v@[j] != id,
    {
        if v[i] == id {
            proof {
                assert(v@[i as int] == id);
            }
            return true;
        }
    }
    false
}

} // verus!
