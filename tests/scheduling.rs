use mini_runtime::runtime::{MiniRuntime, SpawnBuffer, Step};
use mini_runtime::timer::{random_sleep, sleep, Jitter, Sleep, NANOS_PER_MILLI};

/// A test task: sleeps `delay` nanoseconds from its first poll, then completes;
/// on its first poll it may register a follow-up task through the spawn buffer.
struct Probe {
    name: &'static str,
    delay: u64,
    timer: Option<Sleep>,
    follow_up: Option<Box<Probe>>,
    polls: u32,
}

fn probe(name: &'static str, delay: u64) -> Probe {
    Probe { name, delay, timer: None, follow_up: None, polls: 0 }
}

/// Runs the scheduler on a simulated clock that advances one nanosecond per poll and
/// jumps forward on each wait; returns the names in order of completion, the number
/// of polls, and the waits requested.
fn drive(
    rt: &mut MiniRuntime<Probe>,
    buffer: &mut SpawnBuffer<Probe>,
    clock: &mut u64,
) -> (Vec<&'static str>, u32, Vec<u64>) {
    let mut done = Vec::new();
    let mut polls = 0;
    let mut waits = Vec::new();
    loop {
        match rt.next_step(buffer, *clock) {
            Step::Poll(mut task) => {
                polls += 1;
                task.polls += 1;
                let now = *clock;
                if let Some(next) = task.follow_up.take() {
                    buffer.push(*next);
                }
                let timer = task.timer.get_or_insert_with(|| sleep(now, task.delay));
                let complete = timer.poll_at(now);
                if complete {
                    done.push(task.name);
                }
                rt.after_poll(task, complete);
                *clock += 1;
            }
            Step::Wait(nanos) => {
                waits.push(nanos);
                *clock += nanos;
            }
            Step::Finished => return (done, polls, waits),
        }
    }
}

#[test]
fn scenario_a_shorter_sleep_finishes_first() {
    let mut rt = MiniRuntime::new();
    let mut buffer = SpawnBuffer::new();
    rt.spawn(probe("X done", 50 * NANOS_PER_MILLI));
    rt.spawn(probe("Y done", 10 * NANOS_PER_MILLI));
    let mut clock = 0;
    let (done, _, _) = drive(&mut rt, &mut buffer, &mut clock);
    assert_eq!(done, vec!["Y done", "X done"]);
}

#[test]
fn scenario_b_task_spawned_from_a_task_runs() {
    let mut rt = MiniRuntime::new();
    let mut buffer = SpawnBuffer::new();
    let mut parent = probe("parent", 5);
    parent.follow_up = Some(Box::new(probe("child", 0)));
    rt.spawn(parent);
    let mut clock = 0;
    // First cycle: the parent is polled and registers the child.
    match rt.next_step(&mut buffer, clock) {
        Step::Poll(mut task) => {
            let next = task.follow_up.take().unwrap();
            buffer.push(*next);
            assert_eq!(buffer.len(), 1);
            task.timer = Some(sleep(clock, task.delay));
            rt.after_poll(task, false);
        }
        _ => panic!("the parent should be handed out"),
    }
    // Next cycle: the child is admitted to the ready queue, behind the parent.
    clock += 1;
    match rt.next_step(&mut buffer, clock) {
        Step::Poll(task) => {
            assert_eq!(task.name, "parent");
            assert!(buffer.is_empty());
            assert_eq!(rt.ready_len(), 1);
            rt.after_poll(task, false);
        }
        _ => panic!("the parent should be handed out again"),
    }
    let (done, _, _) = drive(&mut rt, &mut buffer, &mut clock);
    assert_eq!(done, vec!["child", "parent"]);
}

#[test]
fn shorter_delay_is_promoted_first() {
    for swap in [false, true] {
        let mut rt = MiniRuntime::new();
        let mut buffer = SpawnBuffer::new();
        let (first, second) = if swap { (("long", 30), ("short", 20)) } else { (("short", 20), ("long", 30)) };
        rt.spawn_delayed(100, first.1, probe(first.0, 0));
        rt.spawn_delayed(100, second.1, probe(second.0, 0));
        let mut clock = 100;
        let (done, polls, waits) = drive(&mut rt, &mut buffer, &mut clock);
        assert_eq!(done, vec!["short", "long"]);
        assert_eq!(polls, 2);
        assert_eq!(waits, vec![20, 9]);
    }
}

#[test]
fn equal_wake_instants_keep_admission_order() {
    let mut rt = MiniRuntime::new();
    let mut buffer = SpawnBuffer::new();
    rt.spawn_delayed(0, 10, probe("first", 0));
    rt.spawn_delayed(0, 5, probe("early", 0));
    rt.spawn_delayed(0, 10, probe("second", 0));
    let mut clock = 20;
    let (done, _, _) = drive(&mut rt, &mut buffer, &mut clock);
    assert_eq!(done, vec!["early", "first", "second"]);
}

#[test]
fn immediate_tasks_complete_once_each() {
    let mut rt = MiniRuntime::new();
    let mut buffer = SpawnBuffer::new();
    let names = ["a", "b", "c", "d", "e"];
    for name in names {
        rt.spawn(probe(name, 0));
    }
    let mut clock = 7;
    let (done, polls, waits) = drive(&mut rt, &mut buffer, &mut clock);
    assert_eq!(done, names.to_vec());
    assert_eq!(polls, 5);
    assert!(waits.is_empty());
    assert_eq!(rt.ready_len(), 0);
    assert_eq!(rt.timer_len(), 0);
    assert!(buffer.is_empty());
    // A second run on the empty state ends at once.
    let before = clock;
    let (again, polls, waits) = drive(&mut rt, &mut buffer, &mut clock);
    assert!(again.is_empty());
    assert_eq!(polls, 0);
    assert!(waits.is_empty());
    assert_eq!(clock, before);
}

#[test]
fn zero_delay_admits_like_spawn() {
    let mut delayed = MiniRuntime::new();
    let mut buffer = SpawnBuffer::new();
    delayed.spawn_delayed(40, 0, probe("t", 0));
    assert_eq!(delayed.timer_len(), 1);
    match delayed.next_step(&mut buffer, 40) {
        Step::Poll(task) => assert_eq!(task.name, "t"),
        _ => panic!("a zero-delay task is due in the first cycle"),
    }
    let mut spawned = MiniRuntime::new();
    spawned.spawn(probe("t", 0));
    match spawned.next_step(&mut buffer, 40) {
        Step::Poll(task) => assert_eq!(task.name, "t"),
        _ => panic!("a spawned task is ready in the first cycle"),
    }
}

#[test]
fn lone_timer_blocks_instead_of_spinning() {
    let mut rt = MiniRuntime::new();
    let mut buffer = SpawnBuffer::new();
    rt.spawn_delayed(1_000, 250, probe("late", 0));
    match rt.next_step(&mut buffer, 1_000) {
        Step::Wait(nanos) => assert_eq!(nanos, 250),
        _ => panic!("nothing is due yet"),
    }
    match rt.next_step(&mut buffer, 1_100) {
        Step::Wait(nanos) => assert_eq!(nanos, 150),
        _ => panic!("nothing is due yet"),
    }
    assert_eq!(rt.timer_len(), 1);
    match rt.next_step(&mut buffer, 1_250) {
        Step::Poll(task) => assert_eq!(task.name, "late"),
        _ => panic!("the timer is due"),
    }
    let mut clock = 1_000;
    let mut rt = MiniRuntime::new();
    rt.spawn_delayed(clock, 250, probe("late", 0));
    let (done, polls, waits) = drive(&mut rt, &mut buffer, &mut clock);
    assert_eq!(done, vec!["late"]);
    assert_eq!(polls, 1);
    assert_eq!(waits, vec![250]);
}

#[test]
fn suspended_tasks_round_robin() {
    let mut rt = MiniRuntime::new();
    let mut buffer = SpawnBuffer::new();
    rt.spawn(1u32);
    rt.spawn(2u32);
    let mut order = Vec::new();
    for _ in 0..4 {
        match rt.next_step(&mut buffer, 0) {
            Step::Poll(t) => {
                order.push(t);
                rt.after_poll(t, false);
            }
            _ => panic!("two tasks stay ready"),
        }
    }
    assert_eq!(order, vec![1, 2, 1, 2]);
}

#[test]
fn spawn_buffer_is_admitted_in_order() {
    let mut rt = MiniRuntime::new();
    let mut buffer = SpawnBuffer::new();
    rt.spawn(0u32);
    buffer.push(1u32);
    buffer.push(2u32);
    buffer.push(3u32);
    let mut order = Vec::new();
    while let Step::Poll(t) = rt.next_step(&mut buffer, 0) {
        order.push(t);
        rt.after_poll(t, true);
    }
    assert_eq!(order, vec![0, 1, 2, 3]);
}

#[test]
fn due_timers_follow_spawned_tasks() {
    let mut rt = MiniRuntime::new();
    let mut buffer = SpawnBuffer::new();
    rt.spawn_delayed(0, 3, 10u32);
    rt.spawn_delayed(0, 9, 20u32);
    buffer.push(1u32);
    let mut order = Vec::new();
    while let Step::Poll(t) = rt.next_step(&mut buffer, 5) {
        order.push(t);
        rt.after_poll(t, true);
    }
    assert_eq!(order, vec![1, 10]);
    match rt.next_step(&mut buffer, 5) {
        Step::Wait(nanos) => assert_eq!(nanos, 4),
        _ => panic!("one timer is left"),
    }
}

#[test]
fn sleep_is_due_from_its_wake_instant() {
    let s = sleep(100, 50);
    assert_eq!(s.wake_time, 150);
    assert!(!s.poll_at(149));
    assert!(s.poll_at(150));
    assert!(s.poll_at(151));
    assert!(sleep(7, 0).poll_at(7));
}

#[test]
fn jitter_stays_in_range_and_replays() {
    let mut a = Jitter::seeded(42);
    let mut b = Jitter::seeded(42);
    let mut seen = Vec::new();
    for _ in 0..64 {
        let x = a.draw_millis(100, 500);
        assert!((100..500).contains(&x));
        assert_eq!(x, b.draw_millis(100, 500));
        seen.push(x);
    }
    assert!(seen.iter().any(|&x| x != seen[0]));
    assert!(seen.iter().any(|&x| x != 100));
    assert_eq!(a.draw_millis(9, 10), 9);
}

#[test]
fn random_sleep_wakes_within_bounds() {
    let mut j = Jitter::seeded(7);
    let mut wakes = Vec::new();
    for _ in 0..32 {
        let s = random_sleep(&mut j, 1_000, 2, 6);
        assert!(s.wake_time >= 1_000 + 2 * NANOS_PER_MILLI);
        assert!(s.wake_time < 1_000 + 6 * NANOS_PER_MILLI);
        assert_eq!((s.wake_time - 1_000) % NANOS_PER_MILLI, 0);
        wakes.push(s.wake_time);
    }
    assert!(wakes.iter().any(|&w| w != wakes[0]));
}

#[test]
fn random_sleeps_from_equal_seeds_agree() {
    let mut a = Jitter::seeded(2024);
    let mut b = Jitter::seeded(2024);
    for (min, max) in [(0u64, 700u64), (100, 500), (0, 2000)] {
        let x = random_sleep(&mut a, 3_000, min, max);
        let y = random_sleep(&mut b, 3_000, min, max);
        assert_eq!(x.wake_time, y.wake_time);
        assert_eq!(x.poll_at(3_000 + min * NANOS_PER_MILLI), y.poll_at(3_000 + min * NANOS_PER_MILLI));
    }
}
