use vstd::prelude::*;
use crate::runtime::{
    SchedView, Step, decided, due_count, insert_timer, insertion_index, lemma_due_count,
    lemma_insert_timer_sorted, lemma_insertion_index, prepared, reported, sorted_by_wake, taken,
    tasks_of,
};

verus! {

/// Two tasks admitted to the timer queue at the same instant `now`, `a` with the
/// shorter delay `d1` and `b` with the longer `d2`: in whichever order they are
/// admitted, `a`'s entry stands ahead of `b`'s, and a promotion at any instant `t`
/// that moves `b` to the ready queue moves `a` too, ahead of `b`.
pub proof fn shorter_delay_promoted_first<T>(
    timers: Seq<(u64, T)>,
    now: u64,
    d1: u64,
    d2: u64,
    a: T,
    b: T,
    t: u64,
)
    requires
        sorted_by_wake(timers),
        d1 < d2,
        now + d2 <= u64::MAX,
    ensures
        ({
            let w1 = (now + d1) as u64;
            let w2 = (now + d2) as u64;
            let s = insert_timer(insert_timer(timers, w1, a), w2, b);
            let i = insertion_index(timers, w1);
            let j = insertion_index(insert_timer(timers, w1, a), w2);
            let d = due_count(s, t);
            &&& i < j
            &&& s[i] == (w1, a)
            &&& s[j] == (w2, b)
            &&& j < d ==> i < d && tasks_of(s.take(d))[i] == a && tasks_of(s.take(d))[j] == b
        }),
        ({
            let w1 = (now + d1) as u64;
            let w2 = (now + d2) as u64;
            let s = insert_timer(insert_timer(timers, w2, b), w1, a);
            let j = insertion_index(timers, w2) + 1;
            let i = insertion_index(insert_timer(timers, w2, b), w1);
            let d = due_count(s, t);
            &&& i < j
            &&& s[i] == (w1, a)
            &&& s[j] == (w2, b)
            &&& j < d ==> i < d && tasks_of(s.take(d))[i] == a && tasks_of(s.take(d))[j] == b
        }),
{
    let w1 = (now + d1) as u64;
    let w2 = (now + d2) as u64;
    // a first, then b
    let s1 = insert_timer(timers, w1, a);
    lemma_insertion_index(timers, w1);
    lemma_insert_timer_sorted(timers, w1, a);
    lemma_insertion_index(s1, w2);
    lemma_insert_timer_sorted(s1, w2, b);
    let i = insertion_index(timers, w1);
    let j = insertion_index(s1, w2);
    assert(s1[i] == (w1, a));
    if j <= i {
        assert(w2 < s1[i].0);
    }
    let s = insert_timer(s1, w2, b);
    assert(s[i] == s1[i]);
    lemma_due_count(s, t);
    // b first, then a
    let r1 = insert_timer(timers, w2, b);
    lemma_insertion_index(timers, w2);
    lemma_insert_timer_sorted(timers, w2, b);
    lemma_insertion_index(r1, w1);
    let jj = insertion_index(timers, w2);
    let ii = insertion_index(r1, w1);
    assert(r1[jj] == (w2, b));
    if ii > jj {
        assert(r1[jj].0 <= w1);
    }
    let r = insert_timer(r1, w1, a);
    assert(r[jj + 1] == r1[jj]);
    lemma_due_count(r, t);
}

/// The state after `k` cycles at `now` in which nothing new is spawned and every
/// task handed out to be polled completes at once.
pub open spec fn cycles_completing<T>(v: SchedView<T>, now: u64, k: nat) -> SchedView<T>
    decreases k,
{
    if k == 0 {
        v
    } else {
        let p = prepared(v, Seq::<T>::empty(), now);
        cycles_completing(reported(taken(p), p.ready[0], true), now, (k - 1) as nat)
    }
}

proof fn lemma_prepared_without_timers<T>(v: SchedView<T>, now: u64)
    requires
        v.timers.len() == 0,
    ensures
        prepared(v, Seq::<T>::empty(), now) == v,
{
    let p = prepared(v, Seq::<T>::empty(), now);
    assert(due_count(v.timers, now) == 0);
    assert(v.timers.take(0) =~= Seq::<(u64, T)>::empty());
    assert(tasks_of(v.timers.take(0)) =~= Seq::<T>::empty());
    assert(p.ready =~= v.ready);
    assert(p.timers =~= v.timers);
}

proof fn lemma_cycles_completing<T>(tasks: Seq<T>, now: u64, k: nat)
    requires
        k <= tasks.len(),
    ensures
        cycles_completing(SchedView { ready: tasks, timers: Seq::<(u64, T)>::empty() }, now, k)
            == (SchedView { ready: tasks.skip(k as int), timers: Seq::<(u64, T)>::empty() }),
    decreases k,
{
    let v = SchedView { ready: tasks, timers: Seq::<(u64, T)>::empty() };
    if k == 0 {
        assert(tasks.skip(0) =~= tasks);
    } else {
        lemma_prepared_without_timers(v, now);
        let rest = tasks.drop_first();
        lemma_cycles_completing(rest, now, (k - 1) as nat);
        assert(rest.skip(k - 1) =~= tasks.skip(k as int));
    }
}

/// Run `tasks` with no timers where every task completes on its first poll: cycle `k`
/// of the first `tasks.len()` hands out `tasks[k]` and nothing else, so each task is
/// polled exactly once; after them nothing is left, and
/// a further cycle reports that the run is over and changes nothing.
pub proof fn completing_tasks_run_out<T>(tasks: Seq<T>, now: u64)
    ensures
        ({
            let v = SchedView { ready: tasks, timers: Seq::<(u64, T)>::empty() };
            let idle = SchedView { ready: Seq::<T>::empty(), timers: Seq::<(u64, T)>::empty() };
            &&& forall|k: nat, step: Step<T>| k < tasks.len() && #[trigger] decided(
                prepared(#[trigger] cycles_completing(v, now, k), Seq::<T>::empty(), now),
                now,
                step,
            ) ==> step == Step::<T>::Poll(tasks[k as int])
            &&& cycles_completing(v, now, tasks.len()) == idle
            &&& decided(prepared(idle, Seq::<T>::empty(), now), now, Step::<T>::Finished)
            &&& taken(prepared(idle, Seq::<T>::empty(), now)) == idle
        }),
{
    let v = SchedView { ready: tasks, timers: Seq::<(u64, T)>::empty() };
    let idle = SchedView { ready: Seq::<T>::empty(), timers: Seq::<(u64, T)>::empty() };
    assert forall|k: nat, step: Step<T>| k < tasks.len() && #[trigger] decided(
        prepared(#[trigger] cycles_completing(v, now, k), Seq::<T>::empty(), now),
        now,
        step,
    ) implies step == Step::<T>::Poll(tasks[k as int]) by {
        lemma_cycles_completing(tasks, now, k);
        lemma_prepared_without_timers(cycles_completing(v, now, k), now);
        assert(tasks.skip(k as int)[0] == tasks[k as int]);
    }
    lemma_cycles_completing(tasks, now, tasks.len());
    assert(tasks.skip(tasks.len() as int) =~= Seq::<T>::empty());
    lemma_prepared_without_timers(idle, now);
}

/// A task admitted with delay zero at `now` is in the ready queue at the first cycle
/// at any instant `later` from `now` on, as a task admitted by `spawn` is; with no
/// other timers pending, the two admissions give the same state at that cycle.
pub proof fn zero_delay_is_spawn<T>(v: SchedView<T>, spawned: Seq<T>, now: u64, later: u64, task: T)
    requires
        sorted_by_wake(v.timers),
        now <= later,
    ensures
        prepared(SchedView { ready: v.ready, timers: insert_timer(v.timers, now, task) }, spawned, later)
            .ready.contains(task),
        prepared(SchedView { ready: v.ready.push(task), timers: v.timers }, spawned, later)
            .ready.contains(task),
        v.timers.len() == 0 ==> prepared(
            SchedView { ready: v.ready, timers: insert_timer(v.timers, now, task) },
            Seq::<T>::empty(),
            later,
        ) == prepared(SchedView { ready: v.ready.push(task), timers: v.timers }, Seq::<T>::empty(), later),
{
    let s = insert_timer(v.timers, now, task);
    let k = insertion_index(v.timers, now);
    lemma_insertion_index(v.timers, now);
    lemma_due_count(s, later);
    let d = due_count(s, later);
    if d <= k {
        if d < k {
            assert(s[d] == v.timers[d]);
        }
        assert(false);
    }
    let p = prepared(SchedView { ready: v.ready, timers: s }, spawned, later);
    let base = v.ready + spawned;
    assert(p.ready[base.len() + k] == task);
    let q = prepared(SchedView { ready: v.ready.push(task), timers: v.timers }, spawned, later);
    lemma_due_count(v.timers, later);
    assert(q.ready[v.ready.len() as int] == task);
    if v.timers.len() == 0 {
        lemma_prepared_without_timers(SchedView { ready: v.ready.push(task), timers: v.timers }, later);
        let p0 = prepared(SchedView { ready: v.ready, timers: s }, Seq::<T>::empty(), later);
        assert(s =~= seq![(now, task)]);
        assert(s.drop_first() =~= Seq::<(u64, T)>::empty());
        assert(due_count(s, later) == 1);
        assert(tasks_of(s.take(1)) =~= seq![task]);
        assert(p0.ready =~= v.ready.push(task));
        assert(p0.timers =~= v.timers);
    }
}

/// With one task pending on the timer queue, to wake at `wake`, and nothing else to
/// run, a cycle at any instant `t` before `wake` hands out no task but blocks for
/// exactly the time left and changes nothing; from `wake` on it hands out that task.
pub proof fn lone_timer_blocks_until_due<T>(task: T, wake: u64, t: u64)
    ensures
        ({
            let v = SchedView { ready: Seq::<T>::empty(), timers: seq![(wake, task)] };
            let p = prepared(v, Seq::<T>::empty(), t);
            &&& t < wake ==> taken(p) == v
            &&& forall|step: Step<T>| #[trigger] decided(p, t, step) ==> if t < wake {
                step == Step::<T>::Wait((wake - t) as u64)
            } else {
                step == Step::<T>::Poll(task)
            }
        }),
{
    let v = SchedView { ready: Seq::<T>::empty(), timers: seq![(wake, task)] };
    let p = prepared(v, Seq::<T>::empty(), t);
    assert(v.timers.drop_first() =~= Seq::<(u64, T)>::empty());
    if t < wake {
        assert(due_count(v.timers, t) == 0);
        assert(v.timers.take(0) =~= Seq::<(u64, T)>::empty());
        assert(tasks_of(v.timers.take(0)) =~= Seq::<T>::empty());
        assert(v.timers.skip(0) =~= v.timers);
        assert(p.ready =~= v.ready);
        assert(p.timers =~= v.timers);
    } else {
        assert(due_count(v.timers.drop_first(), t) == 0);
        assert(due_count(v.timers, t) == 1);
        assert(v.timers.take(1) =~= v.timers);
        assert(tasks_of(v.timers.take(1)) =~= seq![task]);
        assert(p.ready =~= seq![task]);
    }
}

/// A task at place `i` (counting from zero) of the ready queue at the decision of a
/// cycle stands at place `i - 1` at the decision of the next cycle, whatever the
/// polled task reports, whatever is spawned meanwhile and whatever timers come due:
/// new and suspended tasks only join the back. So a task that is ready, spawned
/// from a running task included, is handed out within `i` more cycles.
pub proof fn ready_task_moves_up<T>(
    v: SchedView<T>,
    spawned: Seq<T>,
    now: u64,
    complete: bool,
    next_spawned: Seq<T>,
    next_now: u64,
    i: int,
)
    requires
        0 < i < prepared(v, spawned, now).ready.len(),
    ensures
        ({
            let p = prepared(v, spawned, now);
            let w = reported(taken(p), p.ready[0], complete);
            prepared(w, next_spawned, next_now).ready[i - 1] == p.ready[i]
        }),
{
    let p = prepared(v, spawned, now);
    let w = reported(taken(p), p.ready[0], complete);
    assert(w.ready[i - 1] == p.ready[i]);
    lemma_due_count(w.timers, next_now);
    let q = prepared(w, next_spawned, next_now);
    assert(q.ready[i - 1] == (w.ready + next_spawned)[i - 1]);
}

} // verus!
