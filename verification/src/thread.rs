use vstd::prelude::*;

verus! {

/// What a kernel thread is doing.
#[derive(Debug, Clone, Copy, PartialEq, Eq)]
pub enum ThreadState {
    /// Waiting in the ready queue.
    Ready,
    /// On the CPU.
    Running,
    /// Asleep until the given HPET timestamp, in nanoseconds.
    Sleeping(u64),
    /// The idle thread.
    Idle,
}

/// A kernel thread, as the scheduler sees it.
#[derive(Debug, Clone, Copy, PartialEq, Eq)]
pub struct Thread {
    /// Thread identifier.
    pub id: u64,
    /// Saved stack pointer, where its registers were pushed.
    pub rsp: u64,
    /// What the thread is doing.
    pub state: ThreadState,
}

} // verus!
