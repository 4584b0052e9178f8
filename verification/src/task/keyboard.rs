use vstd::prelude::*;

use crossbeam_queue::ArrayQueue;

verus! {

#[verifier::external_type_specification]
#[verifier::external_body]
#[verifier::reject_recursive_types(T)]
pub struct ExArrayQueue<T>(ArrayQueue<T>);

/// `crossbeam_queue::ArrayQueue::push`: appends `value` unless the queue is
/// full, in which case it hands `value` back in `Err`. Whether the queue is
/// full depends on what other threads did with it, so nothing is said of
/// which result comes back, only that an `Err` holds `value`.
#[verifier::external_body]
fn queue_push(queue: &ArrayQueue<u8>, value: u8) -> (r: Result<(), u8>)
    ensures
        r matches Err(v) ==> v == value,
{
    queue.push(value)
}

/// The stream of scancodes that the keyboard interrupt queues; polling it
/// pops the queue.
#[derive(Debug)]
pub struct ScancodeStream {
    _private: (),
}

impl ScancodeStream {
    /// A handle on the scancode stream.
    pub fn new() -> (r: ScancodeStream) {
        ScancodeStream { _private: () }
    }
}

/// What became of a scancode.
#[derive(Debug, Clone, Copy, PartialEq, Eq)]
pub enum ScancodeOutcome {
    /// Queued: wake the task that reads scancodes.
    Queued,
    /// The queue was full: the scancode is dropped.
    QueueFull,
    /// There is no queue yet: the scancode is dropped.
    Uninitialized,
}

/// The outcome of a scancode given what pushing it gave: `None` when there
/// was no queue to push to.
pub fn scancode_outcome(pushed: Option<Result<(), u8>>) -> (r: ScancodeOutcome)
    ensures
        r == match pushed {
            Some(Ok(())) => ScancodeOutcome::Queued,
            Some(Err(_)) => ScancodeOutcome::QueueFull,
            None => ScancodeOutcome::Uninitialized,
        },
{
    match pushed {
        Some(Ok(())) => ScancodeOutcome::Queued,
        Some(Err(_)) => ScancodeOutcome::QueueFull,
        None => ScancodeOutcome::Uninitialized,
    }
}

/// Pushes `scancode` onto the scancode queue, if there is one, and says what
/// became of it.
pub fn add_scancode(queue: Option<&ArrayQueue<u8>>, scancode: u8) -> (r: ScancodeOutcome)
    ensures
        queue is None <==> r == ScancodeOutcome::Uninitialized,
{
    match queue {
        Some(q) => scancode_outcome(Some(queue_push(q, scancode))),
        None => scancode_outcome(None),
    }
}

} // verus!
