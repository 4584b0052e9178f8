use crossbeam_queue::ArrayQueue;
use kernel::task::keyboard::{add_scancode, scancode_outcome, ScancodeOutcome};
use kernel::task::timer::{
    duration_to_ticks, get_min_timestamp, ApicPoll, Sleep, SleepPoll, TimerQueue, WaitForApic,
};
use kernel::volatile::Volatile;

#[test]
fn scancodes_are_queued_until_full() {
    let q: ArrayQueue<u8> = ArrayQueue::new(2);
    assert_eq!(add_scancode(Some(&q), 0x1E), ScancodeOutcome::Queued);
    assert_eq!(add_scancode(Some(&q), 0x9E), ScancodeOutcome::Queued);
    assert_eq!(add_scancode(Some(&q), 0x30), ScancodeOutcome::QueueFull);
    assert_eq!(q.pop(), Some(0x1E));
    assert_eq!(q.pop(), Some(0x9E));
    assert_eq!(q.pop(), None);
    assert_eq!(add_scancode(None, 0x1E), ScancodeOutcome::Uninitialized);
}

#[test]
fn scancode_outcomes() {
    assert_eq!(scancode_outcome(Some(Ok(()))), ScancodeOutcome::Queued);
    assert_eq!(scancode_outcome(Some(Err(4))), ScancodeOutcome::QueueFull);
    assert_eq!(scancode_outcome(None), ScancodeOutcome::Uninitialized);
}

#[test]
fn ticks_from_nanoseconds() {
    assert_eq!(duration_to_ticks(1_000_000_000, 100), Some(100));
    assert_eq!(duration_to_ticks(1_500_000, 1_000_000), Some(1500));
    assert_eq!(duration_to_ticks(999, 1_000_000), Some(0));
    assert_eq!(duration_to_ticks(u64::MAX as u128, 1_000_000_000), None);
}

#[test]
fn timers_pop_in_deadline_order() {
    let mut t: TimerQueue<u32> = TimerQueue::new();
    assert_eq!(t.min_timestamp(), None);
    assert!(t.register(300, 1));
    assert!(t.register(100, 2));
    assert!(!t.register(200, 3));
    assert!(!t.register(100, 4));
    assert_eq!(get_min_timestamp(&t), Some(100));
    assert_eq!(t.pop_expired(50), None);
    assert_eq!(t.pop_expired(150), Some(vec![2, 4]));
    assert_eq!(t.min_timestamp(), Some(200));
    assert_eq!(t.pop_expired(1000), Some(vec![3]));
    assert_eq!(t.pop_expired(1000), Some(vec![1]));
    assert_eq!(t.pop_expired(1000), None);
}

#[test]
fn sleep_registers_once_then_completes() {
    let mut t: TimerQueue<u32> = TimerQueue::new();
    let mut s = Sleep::new(1000, 500);
    assert_eq!(s.poll(1000, &mut t, 7), SleepPoll::Pending { wake_dispatcher: true });
    assert_eq!(t.min_timestamp(), Some(1500));
    assert_eq!(s.poll(1200, &mut t, 7), SleepPoll::Pending { wake_dispatcher: false });
    assert_eq!(t.pop_expired(1499), None);
    assert_eq!(s.poll(1500, &mut t, 7), SleepPoll::Ready);
    assert_eq!(t.pop_expired(1500), Some(vec![7]));
}

#[test]
fn sleep_behind_an_earlier_timer_does_not_wake_the_dispatcher() {
    let mut t: TimerQueue<u32> = TimerQueue::new();
    t.register(100, 1);
    let mut s = Sleep::new(0, 500);
    assert_eq!(s.poll(0, &mut t, 2), SleepPoll::Pending { wake_dispatcher: false });
}

#[test]
fn apic_wait_arms_then_stops() {
    let mut w = WaitForApic::new(2_000_000);
    assert_eq!(w.poll(1_000_000, 1_000_000_000), ApicPoll::ArmTimer { ticks: 1_000_000, wake_now: false });
    assert_eq!(w.poll(1_500_000, 1_000_000_000), ApicPoll::StopTimer);
    assert_eq!(w.poll(2_000_000, 1_000_000_000), ApicPoll::Ready);
    let mut z = WaitForApic::new(0);
    assert_eq!(z.poll(5, 100), ApicPoll::Pending);
    let mut soon = WaitForApic::new(10);
    assert_eq!(soon.poll(9, 100), ApicPoll::ArmTimer { ticks: 0, wake_now: true });
}

#[test]
fn volatile_cell_holds_its_value() {
    let mut v = Volatile::new(5u32);
    assert_eq!(*v.value(), 5);
    *v.value_mut() = 9;
    assert_eq!(*v.value(), 9);
    let w: Volatile<u8> = 3u8.into();
    assert_eq!(*w.value(), 3);
}

#[test]
fn pop_first_takes_the_earliest_group_whatever_the_time() {
    let mut t: TimerQueue<u32> = TimerQueue::new();
    assert_eq!(t.pop_first(), None);
    t.register(500, 7);
    t.register(400, 8);
    t.register(400, 9);
    assert_eq!(t.pop_first(), Some(vec![8, 9]));
    assert_eq!(t.pop_first(), Some(vec![7]));
    assert_eq!(t.pop_first(), None);
}
