use kernel::scheduler::{init, schedule, sleep, spawn, Scheduler, TIME_SLICE_NANOS};
use kernel::thread::{Thread, ThreadState};

fn thread(id: u64, rsp: u64) -> Thread {
    Thread { id, rsp, state: ThreadState::Ready }
}

#[test]
fn empty_scheduler_keeps_the_interrupted_stack() {
    let mut s = Scheduler::new();
    assert_eq!(schedule(&mut s, 0xAAAA, false, 0), 0xAAAA);
}

#[test]
fn idle_thread_runs_when_nothing_is_ready() {
    let mut s = Scheduler::new();
    init(&mut s, thread(0, 0x1000));
    assert_eq!(schedule(&mut s, 0xAAAA, false, 0), 0x1000);
}

#[test]
fn ready_threads_run_in_order() {
    let mut s = Scheduler::new();
    init(&mut s, thread(0, 0x1000));
    spawn(&mut s, thread(1, 0x2000));
    spawn(&mut s, thread(2, 0x3000));
    assert_eq!(schedule(&mut s, 0xAAAA, false, 0), 0x2000);
    // inside the time slice the running thread keeps the CPU
    assert_eq!(schedule(&mut s, 0x2100, false, 10), 0x2100);
    // a forced reschedule switches to the next thread
    assert_eq!(schedule(&mut s, 0x2200, true, 20), 0x3000);
    // thread 1 went to the back of the queue with its saved stack pointer
    assert_eq!(schedule(&mut s, 0x3100, true, 30), 0x2200);
}

#[test]
fn time_slice_expiry_switches_threads() {
    let mut s = Scheduler::new();
    spawn(&mut s, thread(1, 0x2000));
    spawn(&mut s, thread(2, 0x3000));
    assert_eq!(schedule(&mut s, 0, false, 100), 0x2000);
    assert_eq!(schedule(&mut s, 0x2100, false, 100 + TIME_SLICE_NANOS - 1), 0x2100);
    assert_eq!(schedule(&mut s, 0x2200, false, 100 + TIME_SLICE_NANOS), 0x3000);
}

#[test]
fn sleeping_thread_wakes_at_its_deadline() {
    let mut s = Scheduler::new();
    init(&mut s, thread(0, 0x1000));
    spawn(&mut s, thread(1, 0x2000));
    assert!(!sleep(&mut s, 500, 0));
    assert_eq!(schedule(&mut s, 0, false, 0), 0x2000);
    assert!(sleep(&mut s, 500, 10));
    // thread 1 sleeps until 510: the idle thread runs
    assert_eq!(schedule(&mut s, 0x2100, true, 20), 0x1000);
    assert_eq!(schedule(&mut s, 0x1100, true, 509), 0x1100);
    assert_eq!(schedule(&mut s, 0x1100, true, 510), 0x2100);
}

#[test]
fn idle_thread_is_set_up_once() {
    let mut s = Scheduler::new();
    init(&mut s, thread(0, 0x1000));
    init(&mut s, thread(9, 0x9000));
    assert_eq!(schedule(&mut s, 0xAAAA, false, 0), 0x1000);
}
