use std::collections::VecDeque;
use vstd::prelude::*;

verus! {

/// What the scheduler holds, as sequences: the ready queue front first, and the
/// timer queue as (wake instant, task) pairs, earliest first.
pub struct SchedView<T> {
    pub ready: Seq<T>,
    pub timers: Seq<(u64, T)>,
}

/// Wake instants never decrease along the timer queue.
pub open spec fn sorted_by_wake<T>(timers: Seq<(u64, T)>) -> bool {
    forall|i: int, j: int| 0 <= i <= j < timers.len() ==> timers[i].0 <= timers[j].0
}

/// Where an entry waking at `wake` goes: after every entry that wakes no later,
/// so that entries with equal wake instants keep their order of admission.
pub open spec fn insertion_index<T>(timers: Seq<(u64, T)>, wake: u64) -> int
    decreases timers.len(),
{
    if timers.len() == 0 || timers.last().0 <= wake {
        timers.len() as int
    } else {
        insertion_index(timers.drop_last(), wake)
    }
}

/// The timer queue after admitting `task` with wake instant `wake`.
pub open spec fn insert_timer<T>(timers: Seq<(u64, T)>, wake: u64, task: T) -> Seq<(u64, T)> {
    timers.insert(insertion_index(timers, wake), (wake, task))
}

/// How many entries at the front of the timer queue are due at `now`.
pub open spec fn due_count<T>(timers: Seq<(u64, T)>, now: u64) -> int
    decreases timers.len(),
{
    if timers.len() == 0 || timers[0].0 > now {
        0
    } else {
        1 + due_count(timers.drop_first(), now)
    }
}

/// The tasks of a run of timer entries, in order.
pub open spec fn tasks_of<T>(entries: Seq<(u64, T)>) -> Seq<T> {
    entries.map_values(|e: (u64, T)| e.1)
}

/// Tasks handed over through a spawn buffer join the back of the ready queue in order.
pub open spec fn admitted<T>(v: SchedView<T>, spawned: Seq<T>) -> SchedView<T> {
    SchedView { ready: v.ready + spawned, timers: v.timers }
}

/// Timer entries due at `now` move, earliest first, to the back of the ready queue.
pub open spec fn promoted<T>(v: SchedView<T>, now: u64) -> SchedView<T> {
    let d = due_count(v.timers, now);
    SchedView { ready: v.ready + tasks_of(v.timers.take(d)), timers: v.timers.skip(d) }
}

/// The state at which a cycle decides: spawned tasks admitted, then due timers promoted.
pub open spec fn prepared<T>(v: SchedView<T>, spawned: Seq<T>, now: u64) -> SchedView<T> {
    promoted(admitted(v, spawned), now)
}

/// The state after a cycle hands out the front of the ready queue, if there is one.
pub open spec fn taken<T>(p: SchedView<T>) -> SchedView<T> {
    if p.ready.len() > 0 {
        SchedView { ready: p.ready.drop_first(), timers: p.timers }
    } else {
        p
    }
}

/// The state after a polled task reports back: a suspended task rejoins the back
/// of the ready queue; a completed one is dropped.
pub open spec fn reported<T>(v: SchedView<T>, task: T, complete: bool) -> SchedView<T> {
    if complete {
        v
    } else {
        SchedView { ready: v.ready.push(task), timers: v.timers }
    }
}

/// Every entry from the insertion index on wakes later than `wake`; in a sorted
/// queue every entry before it wakes no later.
pub proof fn lemma_insertion_index<T>(timers: Seq<(u64, T)>, wake: u64)
    ensures
        0 <= insertion_index(timers, wake) <= timers.len(),
        forall|i: int|
            insertion_index(timers, wake) <= i < timers.len() ==> wake < #[trigger] timers[i].0,
        sorted_by_wake(timers) ==> forall|i: int|
            0 <= i < insertion_index(timers, wake) ==> #[trigger] timers[i].0 <= wake,
    decreases timers.len(),
{
    if timers.len() > 0 && timers.last().0 > wake {
        let rest = timers.drop_last();
        lemma_insertion_index(rest, wake);
        assert forall|i: int|
            insertion_index(timers, wake) <= i < timers.len() implies wake < #[trigger] timers[i].0 by {
            if i < rest.len() {
                assert(timers[i] == rest[i]);
            }
        }
        if sorted_by_wake(timers) {
            assert(sorted_by_wake(rest));
            assert forall|i: int| 0 <= i < insertion_index(timers, wake) implies #[trigger] timers[i].0 <= wake by {
                assert(timers[i] == rest[i]);
            }
        }
    }
}

/// Admitting an entry keeps the timer queue sorted and adds one entry.
pub proof fn lemma_insert_timer_sorted<T>(timers: Seq<(u64, T)>, wake: u64, task: T)
    requires
        sorted_by_wake(timers),
    ensures
        sorted_by_wake(insert_timer(timers, wake, task)),
        insert_timer(timers, wake, task).len() == timers.len() + 1,
{
    lemma_insertion_index(timers, wake);
    let k = insertion_index(timers, wake);
    let s = insert_timer(timers, wake, task);
    assert forall|i: int, j: int| 0 <= i <= j < s.len() implies s[i].0 <= s[j].0 by {
        if i < k && j > k {
            assert(s[i] == timers[i]);
            assert(s[j] == timers[j - 1]);
        } else if i < k && j == k {
            assert(s[i] == timers[i]);
        } else if i == k && j > k {
            assert(s[j] == timers[j - 1]);
        } else if i > k {
            assert(s[i] == timers[i - 1]);
            assert(s[j] == timers[j - 1]);
        } else if j < k {
            assert(s[i] == timers[i]);
            assert(s[j] == timers[j]);
        }
    }
}

/// The due prefix holds only entries due at `now`, and the entry after it is not due.
pub proof fn lemma_due_count<T>(timers: Seq<(u64, T)>, now: u64)
    ensures
        0 <= due_count(timers, now) <= timers.len(),
        forall|i: int| 0 <= i < due_count(timers, now) ==> #[trigger] timers[i].0 <= now,
        due_count(timers, now) < timers.len() ==> now < timers[due_count(timers, now)].0,
    decreases timers.len(),
{
    if timers.len() > 0 && timers[0].0 <= now {
        let rest = timers.drop_first();
        lemma_due_count(rest, now);
        assert forall|i: int| 0 <= i < due_count(timers, now) implies #[trigger] timers[i].0 <= now by {
            if i > 0 {
                assert(timers[i] == rest[i - 1]);
            }
        }
    }
}

/// A deferred-admission area: code that holds no handle to the executor registers
/// tasks here, and the executor admits them, in order, at the top of its next cycle.
pub struct SpawnBuffer<T> {
    tasks: VecDeque<T>,
}

impl<T> View for SpawnBuffer<T> {
    type V = Seq<T>;

    closed spec fn view(&self) -> Seq<T> {
        self.tasks@
    }
}

impl<T> SpawnBuffer<T> {
    /// An empty buffer.
    pub fn new() -> (b: SpawnBuffer<T>)
        ensures
            b@ == Seq::<T>::empty(),
    {
        SpawnBuffer { tasks: VecDeque::new() }
    }

    /// Registers `task` behind those registered before it.
    pub fn push(&mut self, task: T)
        ensures
            final(self)@ == old(self)@.push(task),
    {
        self.tasks.push_back(task);
    }

    /// How many tasks wait for admission.
    pub fn len(&self) -> (n: usize)
        ensures
            n == self@.len(),
    {
        self.tasks.len()
    }

    /// Whether no task waits for admission.
    pub fn is_empty(&self) -> (e: bool)
        ensures
            e == (self@.len() == 0),
    {
        self.tasks.len() == 0
    }
}

/// What the host does next, as decided by one scheduling cycle.
pub enum Step<T> {
    /// A ready task: poll it, then give it to `after_poll`.
    Poll(T),
    /// Nothing is ready: block for this many nanoseconds, until the earliest timer is due.
    Wait(u64),
    /// Nothing is left to run: the run is over.
    Finished,
}

/// `step` is the decision that a cycle makes on the prepared state `p` at `now`.
pub open spec fn decided<T>(p: SchedView<T>, now: u64, step: Step<T>) -> bool {
    match step {
        Step::Poll(task) => p.ready.len() > 0 && task == p.ready[0],
        Step::Wait(nanos) => {
            &&& p.ready.len() == 0
            &&& p.timers.len() > 0
            &&& now < p.timers[0].0
            &&& nanos == p.timers[0].0 - now
        },
        Step::Finished => p.ready.len() == 0 && p.timers.len() == 0,
    }
}

/// A single-threaded cooperative executor: a FIFO ready queue of tasks to poll, and
/// a timer queue of tasks held back until their wake instant.
pub struct MiniRuntime<T> {
    ready_queue: VecDeque<T>,
    timer_queue: VecDeque<(u64, T)>,
}

impl<T> View for MiniRuntime<T> {
    type V = SchedView<T>;

    closed spec fn view(&self) -> SchedView<T> {
        SchedView { ready: self.ready_queue@, timers: self.timer_queue@ }
    }
}

impl<T> MiniRuntime<T> {
    /// The timer queue is ordered by wake instant.
    pub open spec fn wf(&self) -> bool {
        sorted_by_wake(self@.timers)
    }

    /// An executor with nothing to run.
    pub fn new() -> (rt: MiniRuntime<T>)
        ensures
            rt.wf(),
            rt@.ready == Seq::<T>::empty(),
            rt@.timers == Seq::<(u64, T)>::empty(),
    {
        MiniRuntime { ready_queue: VecDeque::new(), timer_queue: VecDeque::new() }
    }

    /// How many tasks are ready to be polled.
    pub fn ready_len(&self) -> (n: usize)
        ensures
            n == self@.ready.len(),
    {
        self.ready_queue.len()
    }

    /// How many tasks wait on the timer queue.
    pub fn timer_len(&self) -> (n: usize)
        ensures
            n == self@.timers.len(),
    {
        self.timer_queue.len()
    }

    /// Admits `task` at the back of the ready queue.
    pub fn spawn(&mut self, task: T)
        ensures
            final(self)@ == (SchedView { ready: old(self)@.ready.push(task), timers: old(self)@.timers }),
            old(self).wf() ==> final(self).wf(),
    {
        self.ready_queue.push_back(task);
    }

    /// Admits `task` to the timer queue, to wake `delay` nanoseconds after `now`.
    /// It goes behind every entry that wakes no later, so ties keep admission order.
    pub fn spawn_delayed(&mut self, now: u64, delay: u64, task: T)
        requires
            old(self).wf(),
            now + delay <= u64::MAX,
        ensures
            final(self).wf(),
            final(self)@ == (SchedView {
                ready: old(self)@.ready,
                timers: insert_timer(old(self)@.timers, (now + delay) as u64, task),
            }),
            0 <= insertion_index(old(self)@.timers, (now + delay) as u64) <= old(self)@.timers.len(),
            forall|i: int|
                0 <= i < insertion_index(old(self)@.timers, (now + delay) as u64) ==> #[trigger] old(
                    self,
                )@.timers[i].0 <= now + delay,
            forall|i: int|
                insertion_index(old(self)@.timers, (now + delay) as u64) <= i < old(self)@.timers.len()
                    ==> now + delay < #[trigger] old(self)@.timers[i].0,
    {
        let wake: u64 = now + delay;
        let ghost q = self.timer_queue@;
        proof {
            assert(q.take(q.len() as int) =~= q);
        }
        let mut i: usize = self.timer_queue.len();
        while i > 0 && self.timer_queue[i - 1].0 > wake
            invariant
                i <= q.len(),
                self.timer_queue@ == q,
                insertion_index(q, wake) == insertion_index(q.take(i as int), wake),
            decreases i,
        {
            proof {
                assert(q.take(i as int).drop_last() =~= q.take(i - 1));
            }
            i = i - 1;
        }
        proof {
            if i > 0 {
                assert(q.take(i as int).last() == q[i - 1]);
            }
            lemma_insert_timer_sorted(q, wake, task);
            lemma_insertion_index(q, wake);
        }
        self.timer_queue.insert(i, (wake, task));
    }

    /// Moves the timer entries due at `now`, earliest first, to the back of the ready queue.
    fn promote_due(&mut self, now: u64)
        requires
            old(self).wf(),
        ensures
            final(self).wf(),
            final(self)@ == promoted(old(self)@, now),
    {
        let ghost t0 = self.timer_queue@;
        let ghost r0 = self.ready_queue@;
        let ghost mut j: int = 0;
        proof {
            assert(t0.skip(0) =~= t0);
            assert(r0 + tasks_of(t0.take(0)) =~= r0);
        }
        while self.timer_queue.len() > 0 && self.timer_queue[0].0 <= now
            invariant
                0 <= j <= t0.len(),
                sorted_by_wake(t0),
                self.timer_queue@ == t0.skip(j),
                self.ready_queue@ == r0 + tasks_of(t0.take(j)),
                due_count(t0, now) == j + due_count(t0.skip(j), now),
            decreases self.timer_queue.len(),
        {
            let entry = self.timer_queue.pop_front();
            match entry {
                Some(e) => {
                    proof {
                        assert(t0.skip(j).drop_first() =~= t0.skip(j + 1));
                        assert(tasks_of(t0.take(j + 1)) =~= tasks_of(t0.take(j)).push(e.1));
                        j = j + 1;
                    }
                    self.ready_queue.push_back(e.1);
                },
                None => {},
            }
        }
        proof {
            assert(due_count(t0.skip(j), now) == 0);
            assert forall|a: int, b: int| 0 <= a <= b < t0.skip(j).len() implies
                t0.skip(j)[a].0 <= t0.skip(j)[b].0 by {
                assert(t0.skip(j)[a] == t0[a + j]);
                assert(t0.skip(j)[b] == t0[b + j]);
            }
        }
    }

    /// One scheduling cycle: admits the tasks of `buffer` in order, promotes the timers
    /// due at `now`, then hands out the front of the ready queue to be polled. With
    /// nothing ready it says how long to block until the earliest timer, or that the
    /// run is over when no task is left.
    pub fn next_step(&mut self, buffer: &mut SpawnBuffer<T>, now: u64) -> (step: Step<T>)
        requires
            old(self).wf(),
        ensures
            final(self).wf(),
            final(buffer)@ == Seq::<T>::empty(),
            final(self)@ == taken(prepared(old(self)@, old(buffer)@, now)),
            decided(prepared(old(self)@, old(buffer)@, now), now, step),
    {
        let ghost t0 = self@.timers;
        self.ready_queue.append(&mut buffer.tasks);
        self.promote_due(now);
        proof {
            lemma_due_count(t0, now);
            if self@.timers.len() > 0 {
                assert(self@.timers[0] == t0[due_count(t0, now)]);
            }
        }
        match self.ready_queue.pop_front() {
            Some(task) => Step::Poll(task),
            None => {
                if self.timer_queue.len() > 0 {
                    Step::Wait(self.timer_queue[0].0 - now)
                } else {
                    Step::Finished
                }
            },
        }
    }

    /// Reports the outcome of polling `task`, which `next_step` handed out: a
    /// completed task is dropped, a suspended one rejoins the back of the ready queue.
    pub fn after_poll(&mut self, task: T, complete: bool)
        ensures
            final(self)@ == reported(old(self)@, task, complete),
            old(self).wf() ==> final(self).wf(),
    {
        if !complete {
            self.ready_queue.push_back(task);
        }
    }
}

} // verus!
