use vstd::prelude::*;

use std::collections::VecDeque;

use vstd::multiset::Multiset;

use crate::task::timer::{due_by, lemma_due_by, sorted_by_deadline, wakers_of, TimerQueue};
use crate::thread::{Thread, ThreadState};

verus! {

/// How long a thread runs before the timer takes the CPU from it: 10 ms.
pub const TIME_SLICE_NANOS: u64 = 10_000_000;

/// `t` with its state set to `state`.
pub open spec fn with_state(t: Thread, state: ThreadState) -> Thread {
    Thread { state, ..t }
}

/// The threads of the first `n` sleepers, made ready.
pub open spec fn woken(s: Seq<(u64, Thread)>, n: int) -> Seq<Thread> {
    Seq::new(n as nat, |i: int| with_state(s[i].1, ThreadState::Ready))
}

/// Identifiers of the threads of `s`.
pub open spec fn ids_of(s: Seq<Thread>) -> Multiset<u64> {
    s.map_values(|t: Thread| t.id).to_multiset()
}

/// Identifiers of the sleeping threads of `s`.
pub open spec fn sleeper_ids(s: Seq<(u64, Thread)>) -> Multiset<u64> {
    s.map_values(|e: (u64, Thread)| e.1.id).to_multiset()
}

/// The identifier of the thread in `t`, if any.
pub open spec fn id_of(t: Option<Thread>) -> Multiset<u64> {
    match t {
        Some(t) => Multiset::singleton(t.id),
        None => Multiset::empty(),
    }
}

proof fn lemma_ids_concat(a: Seq<Thread>, b: Seq<Thread>)
    ensures
        ids_of(a + b) == ids_of(a).add(ids_of(b)),
{
    assert((a + b).map_values(|t: Thread| t.id) =~= a.map_values(|t: Thread| t.id) + b.map_values(
        |t: Thread| t.id,
    ));
    vstd::seq_lib::lemma_multiset_commutative(
        a.map_values(|t: Thread| t.id),
        b.map_values(|t: Thread| t.id),
    );
}

proof fn lemma_ids_push(a: Seq<Thread>, t: Thread)
    ensures
        ids_of(a.push(t)) == ids_of(a).insert(t.id),
{
    assert(a.push(t).map_values(|t: Thread| t.id) =~= a.map_values(|t: Thread| t.id).push(t.id));
    broadcast use vstd::seq_lib::group_to_multiset_ensures;
}

proof fn lemma_ids_drop_first(a: Seq<Thread>)
    requires
        a.len() > 0,
    ensures
        ids_of(a) == ids_of(a.drop_first()).insert(a[0].id),
{
    lemma_ids_concat(seq![a[0]], a.drop_first());
    assert(seq![a[0]] + a.drop_first() =~= a);
    assert(seq![a[0]].map_values(|t: Thread| t.id) =~= seq![a[0].id]);
    broadcast use vstd::seq_lib::group_to_multiset_ensures;
    assert(seq![a[0].id] =~= Seq::<u64>::empty().push(a[0].id));
    assert(ids_of(seq![a[0]]) =~= Multiset::<u64>::empty().insert(a[0].id));
}

proof fn lemma_sleeper_ids_split(s: Seq<(u64, Thread)>, d: int)
    requires
        0 <= d <= s.len(),
    ensures
        sleeper_ids(s) == ids_of(woken(s, d)).add(sleeper_ids(s.skip(d))),
{
    let f = |e: (u64, Thread)| e.1.id;
    assert(s.map_values(f) =~= woken(s, d).map_values(|t: Thread| t.id) + s.skip(d).map_values(f));
    vstd::seq_lib::lemma_multiset_commutative(
        woken(s, d).map_values(|t: Thread| t.id),
        s.skip(d).map_values(f),
    );
}

proof fn lemma_sleeper_ids_insert(s: Seq<(u64, Thread)>, k: int, e: (u64, Thread))
    requires
        0 <= k <= s.len(),
    ensures
        sleeper_ids(s.insert(k, e)) == sleeper_ids(s).insert(e.1.id),
{
    let f = |e: (u64, Thread)| e.1.id;
    assert(s.insert(k, e).map_values(f) =~= s.map_values(f).insert(k, e.1.id));
    broadcast use vstd::seq_lib::group_to_multiset_ensures;
}

/// The ready queue, sleepers and idle thread after the running thread `t`
/// gives up the CPU with its stack pointer at `rsp`: back to the ready queue
/// if it was running, among the sleepers if it sleeps, back to the idle slot
/// if it is the idle thread; a thread in any other state is dropped.
pub open spec fn after_switch_out(
    ready: Seq<Thread>,
    sleeping: Seq<(u64, Thread)>,
    idle: Option<Thread>,
    t: Thread,
    rsp: u64,
) -> (Seq<Thread>, Seq<(u64, Thread)>, Option<Thread>) {
    let saved = Thread { rsp, ..t };
    match t.state {
        ThreadState::Running => (ready.push(with_state(saved, ThreadState::Ready)), sleeping, idle),
        ThreadState::Sleeping(w) => (ready, sleeping.insert(due_by(sleeping, w) as int, (w, saved)), idle),
        ThreadState::Idle => (ready, sleeping, Some(saved)),
        ThreadState::Ready => (ready, sleeping, idle),
    }
}

/// The idle thread never joins the ready queue: when it gives up the CPU it
/// goes back to the idle slot with the stack pointer it stopped at, and the
/// ready queue and the sleepers stay as they were. Only a running thread
/// joins the ready queue, at the back and ready, so the thread at the front
/// of a non-empty ready queue stays at the front and runs next; the idle
/// slot changes only when the idle thread gives up the CPU.
pub proof fn lemma_switch_out_keeps_idle_apart(
    ready: Seq<Thread>,
    sleeping: Seq<(u64, Thread)>,
    idle: Option<Thread>,
    t: Thread,
    rsp: u64,
)
    ensures
        ({
            let (r, s, i) = after_switch_out(ready, sleeping, idle, t, rsp);
            &&& t.state == ThreadState::Idle ==> {
                &&& r == ready
                &&& s == sleeping
                &&& i == Some(Thread { rsp, ..t })
            }
            &&& t.state != ThreadState::Running ==> r == ready
            &&& t.state == ThreadState::Running ==> r == ready.push(Thread { rsp, state: ThreadState::Ready, ..t })
            &&& t.state != ThreadState::Idle ==> i == idle
            &&& ready.len() > 0 ==> r.len() > 0 && r[0] == ready[0]
        }),
{
}

/// The round-robin scheduler: a ready queue, sleepers ordered by wake time,
/// the running thread with the time it started, and the idle thread.
pub struct Scheduler {
    ready_queue: VecDeque<Thread>,
    sleep_queue: TimerQueue<Thread>,
    current_thread: Option<(u64, Thread)>,
    idle_thread: Option<Thread>,
}

impl Scheduler {
    /// Threads waiting to run, front first.
    pub closed spec fn ready(&self) -> Seq<Thread> {
        self.ready_queue@
    }

    /// Sleeping threads with their wake times, earliest first; threads with
    /// the same wake time in the order they went to sleep.
    pub closed spec fn sleeping(&self) -> Seq<(u64, Thread)> {
        self.sleep_queue@
    }

    /// The running thread and the time it started running.
    pub closed spec fn current(&self) -> Option<(u64, Thread)> {
        self.current_thread
    }

    /// The idle thread, when it is not running.
    pub closed spec fn idle(&self) -> Option<Thread> {
        self.idle_thread
    }

    /// Identifiers of every thread the scheduler holds: ready, sleeping,
    /// running and idle.
    pub open spec fn threads(&self) -> Multiset<u64> {
        ids_of(self.ready()).add(sleeper_ids(self.sleeping())).add(
            id_of(
                match self.current() {
                    Some((_, t)) => Some(t),
                    None => None,
                },
            ),
        ).add(id_of(self.idle()))
    }

    /// The internal invariant: sleepers are ordered by wake time.
    pub closed spec fn wf(&self) -> bool {
        self.sleep_queue.wf()
    }

    /// A scheduler with no threads.
    pub fn new() -> (r: Scheduler)
        ensures
            r.wf(),
            r.ready() == Seq::<Thread>::empty(),
            r.sleeping() == Seq::<(u64, Thread)>::empty(),
            r.current() is None,
            r.idle() is None,
    {
        Scheduler {
            ready_queue: VecDeque::new(),
            sleep_queue: TimerQueue::new(),
            current_thread: None,
            idle_thread: None,
        }
    }

    fn init_idle(&mut self, idle_thread: Thread)
        requires
            old(self).wf(),
        ensures
            final(self).wf(),
            final(self).ready() == old(self).ready(),
            final(self).sleeping() == old(self).sleeping(),
            final(self).current() == old(self).current(),
            final(self).idle() == (if old(self).idle() is Some {
                old(self).idle()
            } else {
                Some(with_state(idle_thread, ThreadState::Idle))
            }),
    {
        if self.idle_thread.is_some() {
            return ;
        }
        let mut idle = idle_thread;
        idle.state = ThreadState::Idle;
        self.idle_thread = Some(idle);
    }

    /// Moves the sleepers due at `now` to the back of the ready queue, in
    /// wake-time order.
    fn wake_sleepers(&mut self, now: u64)
        requires
            old(self).wf(),
        ensures
            final(self).wf(),
            final(self).ready() == old(self).ready() + woken(old(self).sleeping(), due_by(old(self).sleeping(), now) as int),
            final(self).sleeping() == old(self).sleeping().skip(due_by(old(self).sleeping(), now) as int),
            final(self).current() == old(self).current(),
            final(self).idle() == old(self).idle(),
            final(self).threads() == old(self).threads(),
    {
        let ghost s0 = self.sleep_queue@;
        let ghost n = due_by(s0, now);
        let ghost mut k: int = 0;
        proof {
            self.sleep_queue.lemma_sorted();
            lemma_due_by(s0, now);
        }
        loop
            invariant
                0 <= k <= n,
                n <= s0.len(),
                sorted_by_deadline(s0),
                self.sleep_queue.wf(),
                self.sleep_queue@ == s0.skip(k),
                self.ready_queue@ == old(self).ready_queue@ + woken(s0, k),
                self.current_thread == old(self).current_thread,
                self.idle_thread == old(self).idle_thread,
                forall|i: int| 0 <= i < n ==> #[trigger] s0[i].0 <= now,
                n < s0.len() ==> s0[n as int].0 > now,
            ensures
                k == n,
                self.sleep_queue.wf(),
                self.sleep_queue@ == s0.skip(k),
                self.ready_queue@ == old(self).ready_queue@ + woken(s0, k),
                self.current_thread == old(self).current_thread,
                self.idle_thread == old(self).idle_thread,
            decreases self.sleep_queue@.len(),
        {
            let ghost sk = self.sleep_queue@;
            proof {
                self.sleep_queue.lemma_sorted();
                if sk.len() > 0 {
                    lemma_due_by(sk, sk[0].0);
                }
            }
            match self.sleep_queue.pop_expired(now) {
                None => {
                    proof {
                        if k < n {
                            assert(sk[0] == s0[k]);
                        }
                    }
                    break;
                },
                Some(threads) => {
                    let ghost m = due_by(sk, sk[0].0) as int;
                    proof {
                        assert(sk[0] == s0[k]);
                        if k >= n {
                            assert(s0[n as int].0 > now);
                        }
                        assert(k + m <= n) by {
                            let last = m - 1;
                            assert(sk[last] == s0[k + last]);
                            assert(sk[last].0 == sk[0].0);
                            if k + last >= n {
                                assert(s0[n as int].0 <= s0[k + last].0);
                            }
                        }
                    }
                    let mut j: usize = 0;
                    while j < threads.len()
                        invariant
                            0 <= k,
                            k + m <= n,
                            n <= s0.len(),
                            sk == s0.skip(k),
                            0 <= m <= sk.len(),
                            threads@ == wakers_of(sk, m),
                            j <= threads.len(),
                            self.ready_queue@ == old(self).ready_queue@ + woken(s0, k + j),
                            self.sleep_queue.wf(),
                            self.sleep_queue@ == sk.skip(m),
                            self.current_thread == old(self).current_thread,
                            self.idle_thread == old(self).idle_thread,
                        decreases threads.len() - j,
                    {
                        let mut t = threads[j];
                        proof {
                            assert(threads@[j as int] == sk[j as int].1);
                            assert(sk[j as int] == s0[k + j]);
                        }
                        t.state = ThreadState::Ready;
                        self.ready_queue.push_back(t);
                        proof {
                            assert(woken(s0, k + j + 1) =~= woken(s0, k + j).push(
                                with_state(s0[k + j].1, ThreadState::Ready),
                            ));
                        }
                        j = j + 1;
                    }
                    proof {
                        k = k + m;
                        assert(self.sleep_queue@ =~= s0.skip(k));
                    }
                },
            }
        }
        proof {
            assert(sorted_by_deadline(s0.skip(k)));
            lemma_sleeper_ids_split(s0, k);
            lemma_ids_concat(old(self).ready_queue@, woken(s0, k));
            assert(self.threads() =~= old(self).threads());
        }
    }

    /// Puts `t` to sleep until `w`, after the sleepers that wake at or before
    /// `w`.
    fn insert_sleeper(&mut self, w: u64, t: Thread)
        requires
            old(self).wf(),
        ensures
            final(self).wf(),
            final(self).sleeping() == old(self).sleeping().insert(
                due_by(old(self).sleeping(), w) as int,
                (w, t),
            ),
            final(self).ready() == old(self).ready(),
            final(self).current() == old(self).current(),
            final(self).idle() == old(self).idle(),
            sleeper_ids(final(self).sleeping()) == sleeper_ids(old(self).sleeping()).insert(t.id),
    {
        let ghost s0 = self.sleep_queue@;
        proof {
            self.sleep_queue.lemma_sorted();
            lemma_due_by(s0, w);
        }
        self.sleep_queue.register(w, t);
        proof {
            lemma_sleeper_ids_insert(s0, due_by(s0, w) as int, (w, t));
        }
    }
}

/// Sets up the idle thread, unless the scheduler has one already.
pub fn init(sched: &mut Scheduler, idle_thread: Thread)
    requires
        old(sched).wf(),
    ensures
        final(sched).wf(),
        final(sched).ready() == old(sched).ready(),
        final(sched).sleeping() == old(sched).sleeping(),
        final(sched).current() == old(sched).current(),
        final(sched).idle() == (if old(sched).idle() is Some {
            old(sched).idle()
        } else {
            Some(with_state(idle_thread, ThreadState::Idle))
        }),
{
    sched.init_idle(idle_thread);
}

/// Adds `thread` to the back of the ready queue.
pub fn spawn(sched: &mut Scheduler, thread: Thread)
    requires
        old(sched).wf(),
    ensures
        final(sched).wf(),
        final(sched).ready() == old(sched).ready().push(thread),
        final(sched).sleeping() == old(sched).sleeping(),
        final(sched).current() == old(sched).current(),
        final(sched).idle() == old(sched).idle(),
{
    sched.ready_queue.push_back(thread);
}

/// Puts the running thread to sleep for `duration_nanos` from `now`.
/// Returns whether a thread was running: where none is (early boot), the
/// caller busy-waits instead; where one is, it yields the CPU.
pub fn sleep(sched: &mut Scheduler, duration_nanos: u64, now: u64) -> (r: bool)
    requires
        old(sched).wf(),
        now + duration_nanos <= u64::MAX,
    ensures
        final(sched).wf(),
        r == old(sched).current() is Some,
        final(sched).ready() == old(sched).ready(),
        final(sched).sleeping() == old(sched).sleeping(),
        final(sched).idle() == old(sched).idle(),
        final(sched).current() == (match old(sched).current() {
            Some((started, t)) => Some((started, with_state(t, ThreadState::Sleeping((now + duration_nanos) as u64)))),
            None => None,
        }),
{
    let wake_time = now + duration_nanos;
    match sched.current_thread {
        Some((started, t)) => {
            let mut t = t;
            t.state = ThreadState::Sleeping(wake_time);
            sched.current_thread = Some((started, t));
            true
        },
        None => false,
    }
}

/// Picks the thread to run at `now`, when the thread on the CPU was
/// interrupted with its stack pointer at `current_rsp`, and returns the stack
/// pointer to switch to.
///
/// Sleepers due at `now` first join the ready queue. The running thread keeps
/// the CPU while it is inside its time slice, unless `resched` asks for a
/// switch; otherwise it gives the CPU up (see [`after_switch_out`]) and the
/// thread at the front of the ready queue runs, or else the idle thread. With
/// neither, `current_rsp` is returned.
pub fn schedule(sched: &mut Scheduler, current_rsp: u64, resched: bool, now: u64) -> (r: u64)
    requires
        old(sched).wf(),
        old(sched).current() matches Some((started, _)) ==> started <= now,
    ensures
        final(sched).wf(),
        ({
            let d = due_by(old(sched).sleeping(), now) as int;
            let ready1 = old(sched).ready() + woken(old(sched).sleeping(), d);
            let sleeping1 = old(sched).sleeping().skip(d);
            let keeps = old(sched).current() matches Some((started, _)) && !resched && now - started
                < TIME_SLICE_NANOS;
            let (ready2, sleeping2, idle2) = match old(sched).current() {
                Some((_, t)) => after_switch_out(ready1, sleeping1, old(sched).idle(), t, current_rsp),
                None => (ready1, sleeping1, old(sched).idle()),
            };
            if keeps {
                &&& r == current_rsp
                &&& final(sched).ready() == ready1
                &&& final(sched).sleeping() == sleeping1
                &&& final(sched).current() == old(sched).current()
                &&& final(sched).idle() == old(sched).idle()
            } else {
                &&& final(sched).sleeping() == sleeping2
                &&& if ready2.len() > 0 {
                    &&& r == ready2[0].rsp
                    &&& final(sched).ready() == ready2.drop_first()
                    &&& final(sched).current() == Some((now, with_state(ready2[0], ThreadState::Running)))
                    &&& final(sched).idle() == idle2
                } else {
                    &&& final(sched).ready() == ready2
                    &&& final(sched).idle() is None
                    &&& match idle2 {
                        Some(i) => r == i.rsp && final(sched).current() == Some((now, i)),
                        None => r == current_rsp && final(sched).current() is None,
                    }
                }
            }
        }),
        final(sched).threads() == (match old(sched).current() {
            Some((started, t)) => if !resched && now - started < TIME_SLICE_NANOS {
                old(sched).threads()
            } else if t.state == ThreadState::Ready {
                old(sched).threads().remove(t.id)
            } else if t.state == ThreadState::Idle {
                old(sched).threads().sub(id_of(old(sched).idle()))
            } else {
                old(sched).threads()
            },
            None => old(sched).threads(),
        }),
{
    sched.wake_sleepers(now);
    if let Some((started, _)) = sched.current_thread {
        if !resched && now - started < TIME_SLICE_NANOS {
            return current_rsp;
        }
        let ghost s1 = *sched;
        let (_, t) = sched.current_thread.take().unwrap();
        let mut t = t;
        t.rsp = current_rsp;
        let ghost st = t.state;
        match t.state {
            ThreadState::Running => {
                t.state = ThreadState::Ready;
                sched.ready_queue.push_back(t);
                proof {
                    lemma_ids_push(s1.ready_queue@, t);
                }
            },
            ThreadState::Sleeping(wake_time) => {
                sched.insert_sleeper(wake_time, t);
            },
            ThreadState::Idle => {
                sched.idle_thread = Some(t);
            },
            ThreadState::Ready => {},
        }
        proof {
            if st == ThreadState::Ready {
                assert(sched.threads() =~= s1.threads().remove(t.id));
            } else if st == ThreadState::Idle {
                assert(sched.threads() =~= s1.threads().sub(id_of(s1.idle())));
            } else {
                assert(sched.threads() =~= s1.threads());
            }
        }
    }
    let ghost s2 = *sched;
    match sched.ready_queue.pop_front() {
        Some(next) => {
            let mut next = next;
            let next_rsp = next.rsp;
            next.state = ThreadState::Running;
            sched.current_thread = Some((now, next));
            proof {
                lemma_ids_drop_first(s2.ready_queue@);
                assert(sched.threads() =~= s2.threads());
            }
            next_rsp
        },
        None => match sched.idle_thread.take() {
            Some(idle) => {
                let next_rsp = idle.rsp;
                sched.current_thread = Some((now, idle));
                proof {
                    assert(sched.threads() =~= s2.threads());
                }
                next_rsp
            },
            None => current_rsp,
        },
    }
}

} // verus!
