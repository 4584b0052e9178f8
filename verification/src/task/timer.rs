use vstd::prelude::*;

use std::collections::BTreeMap;

verus! {

broadcast use vstd::laws_cmp::group_laws_cmp;

/// Whether the deadlines of `s` never decrease.
pub open spec fn sorted_by_deadline<W>(s: Seq<(u64, W)>) -> bool {
    forall|i: int, j: int| 0 <= i < j < s.len() ==> #[trigger] s[i].0 <= #[trigger] s[j].0
}

/// Number of entries at the front of `s` whose deadline is at most `t`.
pub open spec fn due_by<W>(s: Seq<(u64, W)>, t: u64) -> nat
    decreases s.len(),
{
    if s.len() == 0 || s[0].0 > t {
        0
    } else {
        1 + due_by(s.drop_first(), t)
    }
}

/// The wakers of the first `n` entries of `s`.
pub open spec fn wakers_of<W>(s: Seq<(u64, W)>, n: int) -> Seq<W> {
    Seq::new(n as nat, |i: int| s[i].1)
}

/// In a list ordered by deadline, the entries due by `t` are the ones at
/// the front before the first entry after `t`.
pub proof fn lemma_due_by<W>(s: Seq<(u64, W)>, t: u64)
    requires
        sorted_by_deadline(s),
    ensures
        due_by(s, t) <= s.len(),
        forall|i: int| 0 <= i < due_by(s, t) ==> #[trigger] s[i].0 <= t,
        due_by(s, t) < s.len() ==> s[due_by(s, t) as int].0 > t,
    decreases s.len(),
{
    if s.len() > 0 && s[0].0 <= t {
        let rest = s.drop_first();
        assert(sorted_by_deadline(rest));
        lemma_due_by(rest, t);
        assert forall|i: int| 0 <= i < due_by(s, t) implies #[trigger] s[i].0 <= t by {
            if i > 0 {
                assert(s[i] == rest[i - 1]);
            }
        }
    }
}

/// Entries `(k, x)` for the items `x` of `xs`, in order.
pub open spec fn keyed<T>(k: u64, xs: Seq<T>) -> Seq<(u64, T)> {
    xs.map_values(|x: T| (k, x))
}

/// The least key of `m`.
pub open spec fn least_key<V>(m: Map<u64, V>) -> u64 {
    choose|k: u64| m.contains_key(k) && forall|j: u64| #[trigger] m.contains_key(j) ==> k <= j
}

/// Every key of `m` maps to at least one item.
pub open spec fn groups_nonempty<T>(m: Map<u64, Seq<T>>) -> bool {
    forall|k: u64| #[trigger] m.contains_key(k) ==> m[k].len() > 0
}

/// A finite, non-empty map has a least key.
pub proof fn lemma_least_key<V>(m: Map<u64, V>)
    requires
        m.dom().finite(),
        m.dom().len() > 0,
    ensures
        m.contains_key(least_key(m)),
        forall|j: u64| #[trigger] m.contains_key(j) ==> least_key(m) <= j,
    decreases m.dom().len(),
{
    let x = m.dom().choose();
    let r = m.remove(x);
    assert(r.dom() =~= m.dom().remove(x));
    if r.dom().len() == 0 {
        vstd::set_lib::lemma_set_empty_equivalency_len(r.dom());
        assert forall|j: u64| #[trigger] m.contains_key(j) implies x <= j by {
            if j != x {
                assert(r.dom().contains(j));
            }
        }
        assert(m.contains_key(x) && forall|j: u64| #[trigger] m.contains_key(j) ==> x <= j);
    } else {
        lemma_least_key(r);
        let y = least_key(r);
        let mn = if x <= y {
            x
        } else {
            y
        };
        assert forall|j: u64| #[trigger] m.contains_key(j) implies mn <= j by {
            if j != x {
                assert(r.contains_key(j));
            }
        }
        assert(m.contains_key(mn) && forall|j: u64| #[trigger] m.contains_key(j) ==> mn <= j);
    }
}

/// The entries of `m`, keys in increasing order, the items of each key in
/// their order.
pub open spec fn in_key_order<T>(m: Map<u64, Seq<T>>) -> Seq<(u64, T)>
    decreases m.dom().len(),
{
    if m.dom().finite() && m.dom().len() > 0 {
        let k = least_key(m);
        proof {
            lemma_least_key(m);
        }
        keyed(k, m[k]) + in_key_order(m.remove(k))
    } else {
        Seq::empty()
    }
}

proof fn lemma_in_key_order<T>(m: Map<u64, Seq<T>>)
    requires
        m.dom().finite(),
        groups_nonempty(m),
    ensures
        sorted_by_deadline(in_key_order(m)),
        forall|i: int| 0 <= i < in_key_order(m).len() ==> m.contains_key(#[trigger] in_key_order(m)[i].0),
        m.dom().len() > 0 ==> in_key_order(m).len() > 0 && in_key_order(m)[0].0 == least_key(m),
        m.dom().len() == 0 ==> in_key_order(m).len() == 0,
    decreases m.dom().len(),
{
    if m.dom().len() > 0 {
        lemma_least_key(m);
        let k = least_key(m);
        let g = keyed(k, m[k]);
        let r = m.remove(k);
        assert(r.dom() =~= m.dom().remove(k));
        assert(groups_nonempty(r));
        lemma_in_key_order(r);
        let rest = in_key_order(r);
        let s = in_key_order(m);
        assert(s == g + rest);
        assert forall|i: int| 0 <= i < rest.len() implies #[trigger] rest[i].0 > k by {
            assert(r.contains_key(rest[i].0));
        }
        assert forall|i: int| 0 <= i < s.len() implies m.contains_key(#[trigger] s[i].0) by {
            if i >= g.len() {
                assert(s[i] == rest[i - g.len()]);
                assert(r.contains_key(rest[i - g.len()].0));
            }
        }
        assert forall|i: int, j: int| 0 <= i < j < s.len() implies #[trigger] s[i].0 <= #[trigger] s[j].0 by {
            if j >= g.len() {
                assert(s[j] == rest[j - g.len()]);
                if i >= g.len() {
                    assert(s[i] == rest[i - g.len()]);
                }
            }
        }
    } else {
        vstd::set_lib::lemma_set_empty_equivalency_len(m.dom());
    }
}

proof fn lemma_due_by_keyed<T>(k: u64, xs: Seq<T>, rest: Seq<(u64, T)>, t: u64)
    requires
        k <= t,
    ensures
        due_by(keyed(k, xs) + rest, t) == xs.len() + due_by(rest, t),
    decreases xs.len(),
{
    if xs.len() > 0 {
        let s = keyed(k, xs) + rest;
        assert(s.drop_first() =~= keyed(k, xs.drop_first()) + rest);
        lemma_due_by_keyed(k, xs.drop_first(), rest, t);
    } else {
        assert(keyed(k, xs) + rest =~= rest);
    }
}

/// `m` with `x` added after the items of key `w`.
pub open spec fn with_item<T>(m: Map<u64, Seq<T>>, w: u64, x: T) -> Map<u64, Seq<T>> {
    m.insert(
        w,
        (if m.contains_key(w) {
            m[w]
        } else {
            Seq::empty()
        }).push(x),
    )
}

proof fn lemma_least_is<V>(m: Map<u64, V>, k: u64)
    requires
        m.dom().finite(),
        m.contains_key(k),
        forall|j: u64| #[trigger] m.contains_key(j) ==> k <= j,
    ensures
        least_key(m) == k,
{
    if m.dom().len() == 0 {
        vstd::set_lib::lemma_set_empty_equivalency_len(m.dom());
        assert(m.dom().contains(k));
    }
    lemma_least_key(m);
    assert(m.contains_key(least_key(m)));
}

proof fn lemma_unfold<T>(m: Map<u64, Seq<T>>)
    requires
        m.dom().finite(),
        m.dom().len() > 0,
    ensures
        in_key_order(m) == keyed(least_key(m), m[least_key(m)]) + in_key_order(m.remove(least_key(m))),
{
}

proof fn lemma_remove_least<T>(m: Map<u64, Seq<T>>)
    requires
        m.dom().finite(),
        m.dom().len() > 0,
        groups_nonempty(m),
    ensures
        m.contains_key(least_key(m)),
        m.remove(least_key(m)).dom().finite(),
        m.remove(least_key(m)).dom().len() + 1 == m.dom().len(),
        groups_nonempty(m.remove(least_key(m))),
        forall|i: int|
            0 <= i < in_key_order(m.remove(least_key(m))).len() ==> #[trigger] in_key_order(
                m.remove(least_key(m)),
            )[i].0 > least_key(m),
        sorted_by_deadline(in_key_order(m.remove(least_key(m)))),
{
    lemma_least_key(m);
    let k = least_key(m);
    let r = m.remove(k);
    assert(r.dom() =~= m.dom().remove(k));
    assert(groups_nonempty(r));
    lemma_in_key_order(r);
    let rest = in_key_order(r);
    assert forall|i: int| 0 <= i < rest.len() implies #[trigger] rest[i].0 > k by {
        assert(r.contains_key(rest[i].0));
    }
}

proof fn lemma_insert_into_empty<T>(m: Map<u64, Seq<T>>, w: u64, x: T)
    requires
        m.dom().finite(),
        m.dom().len() == 0,
    ensures
        in_key_order(with_item(m, w, x)) == in_key_order(m).insert(due_by(in_key_order(m), w) as int, (w, x)),
{
    vstd::set_lib::lemma_set_empty_equivalency_len(m.dom());
    let m2 = with_item(m, w, x);
    assert(m2.dom() =~= set![w]);
    lemma_least_is(m2, w);
    lemma_unfold(m2);
    assert(m2.remove(w).dom() =~= Set::<u64>::empty());
    assert(m2[w] =~= seq![x]);
    assert(keyed(w, seq![x]) =~= seq![(w, x)]);
    assert(in_key_order(m2) =~= seq![(w, x)]);
    assert(in_key_order(m).insert(0, (w, x)) =~= seq![(w, x)]);
}

proof fn lemma_insert_before<T>(m: Map<u64, Seq<T>>, w: u64, x: T)
    requires
        m.dom().finite(),
        m.dom().len() > 0,
        groups_nonempty(m),
        w < least_key(m),
    ensures
        in_key_order(with_item(m, w, x)) == in_key_order(m).insert(due_by(in_key_order(m), w) as int, (w, x)),
{
    lemma_least_key(m);
    lemma_in_key_order(m);
    let k = least_key(m);
    let s = in_key_order(m);
    let m2 = with_item(m, w, x);
    assert(!m.contains_key(w));
    assert forall|j: u64| #[trigger] m2.contains_key(j) implies w <= j by {
        if j != w {
            assert(m.contains_key(j));
        }
    }
    lemma_least_is(m2, w);
    lemma_unfold(m2);
    assert(m2.remove(w) =~= m);
    assert(m2[w] =~= seq![x]);
    assert(keyed(w, seq![x]) =~= seq![(w, x)]);
    assert(due_by(s, w) == 0);
    assert(seq![(w, x)] + s =~= s.insert(0, (w, x)));
}

proof fn lemma_insert_same<T>(m: Map<u64, Seq<T>>, w: u64, x: T)
    requires
        m.dom().finite(),
        m.dom().len() > 0,
        groups_nonempty(m),
        w == least_key(m),
    ensures
        in_key_order(with_item(m, w, x)) == in_key_order(m).insert(due_by(in_key_order(m), w) as int, (w, x)),
{
    lemma_remove_least(m);
    lemma_least_key(m);
    let k = w;
    let rest = in_key_order(m.remove(k));
    let m2 = with_item(m, w, x);
    assert forall|j: u64| #[trigger] m2.contains_key(j) implies k <= j by {
        if j != k {
            assert(m.contains_key(j));
        }
    }
    lemma_least_is(m2, k);
    lemma_unfold(m);
    lemma_unfold(m2);
    assert(m2.remove(k) =~= m.remove(k));
    lemma_due_by_keyed(k, m[k], rest, w);
    if rest.len() > 0 {
        assert(rest[0].0 > k);
    }
    assert(due_by(rest, w) == 0);
    assert(keyed(k, m[k].push(x)) + rest =~= (keyed(k, m[k]) + rest).insert(m[k].len() as int, (w, x)));
}

proof fn lemma_insert_after<T>(m: Map<u64, Seq<T>>, w: u64, x: T)
    requires
        m.dom().finite(),
        m.dom().len() > 0,
        groups_nonempty(m),
        w > least_key(m),
        in_key_order(with_item(m.remove(least_key(m)), w, x)) == in_key_order(m.remove(least_key(m))).insert(
            due_by(in_key_order(m.remove(least_key(m))), w) as int,
            (w, x),
        ),
    ensures
        in_key_order(with_item(m, w, x)) == in_key_order(m).insert(due_by(in_key_order(m), w) as int, (w, x)),
{
    lemma_remove_least(m);
    lemma_least_key(m);
    let k = least_key(m);
    let r = m.remove(k);
    let rest = in_key_order(r);
    let g = keyed(k, m[k]);
    let m2 = with_item(m, w, x);
    assert forall|j: u64| #[trigger] m2.contains_key(j) implies k <= j by {
        if j != w {
            assert(m.contains_key(j));
        }
    }
    lemma_least_is(m2, k);
    lemma_unfold(m);
    lemma_unfold(m2);
    assert(m2.remove(k) =~= with_item(r, w, x));
    assert(m2[k] == m[k]);
    lemma_due_by_keyed(k, m[k], rest, w);
    lemma_due_by(rest, w);
    assert(g + rest.insert(due_by(rest, w) as int, (w, x)) =~= (g + rest).insert(
        (g.len() + due_by(rest, w)) as int,
        (w, x),
    ));
}

proof fn lemma_in_key_order_insert<T>(m: Map<u64, Seq<T>>, w: u64, x: T)
    requires
        m.dom().finite(),
        groups_nonempty(m),
    ensures
        in_key_order(with_item(m, w, x)) == in_key_order(m).insert(due_by(in_key_order(m), w) as int, (w, x)),
    decreases m.dom().len(),
{
    if m.dom().len() == 0 {
        lemma_insert_into_empty(m, w, x);
    } else {
        let k = least_key(m);
        if w < k {
            lemma_insert_before(m, w, x);
        } else if w == k {
            lemma_insert_same(m, w, x);
        } else {
            lemma_remove_least(m);
            lemma_in_key_order_insert(m.remove(k), w, x);
            lemma_insert_after(m, w, x);
        }
    }
}

/// The key order of `m` starts with the group of its least key: as many
/// entries as that group holds are due by that key.
proof fn lemma_pop_least<T>(m: Map<u64, Seq<T>>)
    requires
        m.dom().finite(),
        m.dom().len() > 0,
        groups_nonempty(m),
    ensures
        in_key_order(m).len() > 0,
        in_key_order(m)[0].0 == least_key(m),
        due_by(in_key_order(m), least_key(m)) == m[least_key(m)].len(),
{
    lemma_remove_least(m);
    let k = least_key(m);
    let s = in_key_order(m);
    let rest = in_key_order(m.remove(k));
    let g = keyed(k, m[k]);
    let n = m[k].len() as int;
    lemma_unfold(m);
    assert(s == g + rest);
    assert(n > 0);
    assert(s[0] == g[0]);
    assert(due_by(s, k) == n) by {
        lemma_due_by_keyed(k, m[k], rest, k);
        if rest.len() > 0 {
            assert(rest[0].0 > k);
        }
    }
}

/// Wakers waiting for deadlines (HPET timestamps in nanoseconds), earliest
/// first; wakers with the same deadline in the order they registered.
pub struct TimerQueue<W> {
    timers: BTreeMap<u64, Vec<W>>,
}

/// The least key of `m` (`BTreeMap::first_key_value`, key only).
///
/// The standard library documents the first pair as the one with the
/// minimum key; `None` for an empty map.
#[verifier::external_body]
fn first_key<V>(m: &BTreeMap<u64, V>) -> (r: Option<u64>)
    ensures
        match r {
            Some(k) => m@.contains_key(k) && forall|j: u64| #[trigger] m@.contains_key(j) ==> k <= j,
            None => m@.dom() == Set::<u64>::empty(),
        },
{
    m.first_key_value().map(|(k, _)| *k)
}

/// Takes the pair with the least key out of `m` (`BTreeMap::pop_first`).
///
/// The standard library documents that the removed pair is the one with
/// the minimum key, and `None` (the map untouched) for an empty map.
#[verifier::external_body]
fn pop_least<V>(m: &mut BTreeMap<u64, V>) -> (r: Option<(u64, V)>)
    ensures
        match r {
            Some((k, v)) => {
                &&& old(m)@.contains_key(k)
                &&& old(m)@[k] == v
                &&& forall|j: u64| #[trigger] old(m)@.contains_key(j) ==> k <= j
                &&& final(m)@ == old(m)@.remove(k)
            },
            None => old(m)@.dom() == Set::<u64>::empty() && final(m)@ == old(m)@,
        },
{
    m.pop_first()
}

/// The items of each group of `m`.
pub open spec fn group_views<W>(m: Map<u64, Vec<W>>) -> Map<u64, Seq<W>> {
    m.map_values(|v: Vec<W>| v@)
}

impl<W> TimerQueue<W> {
    /// The registered deadlines and wakers, earliest deadline first.
    pub closed spec fn view(&self) -> Seq<(u64, W)> {
        in_key_order(group_views(self.timers@))
    }

    /// The internal invariant: every deadline has a waker.
    pub closed spec fn wf(&self) -> bool {
        groups_nonempty(group_views(self.timers@))
    }

    /// The deadlines of a well-formed queue never decrease.
    pub proof fn lemma_sorted(&self)
        requires
            self.wf(),
        ensures
            sorted_by_deadline(self@),
    {
        assert(group_views(self.timers@).dom() =~= self.timers@.dom());
        lemma_in_key_order(group_views(self.timers@));
    }

    /// A queue with no timers.
    pub fn new() -> (r: Self)
        ensures
            r.wf(),
            r@ == Seq::<(u64, W)>::empty(),
    {
        let r = TimerQueue { timers: BTreeMap::new() };
        proof {
            assert(group_views(r.timers@).dom() =~= Set::<u64>::empty());
        }
        r
    }

    /// The earliest deadline, if any.
    pub fn min_timestamp(&self) -> (r: Option<u64>)
        requires
            self.wf(),
        ensures
            r == (if self@.len() > 0 {
                Some(self@[0].0)
            } else {
                None
            }),
            r matches Some(m) ==> forall|i: int| 0 <= i < self@.len() ==> m <= #[trigger] self@[i].0,
    {
        let r = first_key(&self.timers);
        proof {
            let gv = group_views(self.timers@);
            assert(gv.dom() =~= self.timers@.dom());
            lemma_in_key_order(gv);
            self.lemma_sorted();
            match r {
                Some(k) => {
                    lemma_least_key(gv);
                    assert(least_key(gv) == k);
                },
                None => {
                    vstd::set_lib::lemma_set_empty_equivalency_len(gv.dom());
                },
            }
        }
        r
    }

    /// Registers `waker` for `deadline`, after the wakers with the same or an
    /// earlier deadline. Returns whether `deadline` is earlier than every
    /// deadline registered before (or none was).
    pub fn register(&mut self, deadline: u64, waker: W) -> (r: bool)
        requires
            old(self).wf(),
        ensures
            final(self).wf(),
            final(self)@ == old(self)@.insert(due_by(old(self)@, deadline) as int, (deadline, waker)),
            r == (old(self)@.len() == 0 || old(self)@[0].0 > deadline),
    {
        let is_earliest = match self.min_timestamp() {
            Some(earliest) => earliest > deadline,
            None => true,
        };
        let ghost gv = group_views(self.timers@);
        let mut group = match self.timers.remove(&deadline) {
            Some(g) => g,
            None => Vec::new(),
        };
        let ghost old_group = if gv.contains_key(deadline) {
            gv[deadline]
        } else {
            Seq::<W>::empty()
        };
        assert(group@ == old_group);
        group.push(waker);
        self.timers.insert(deadline, group);
        proof {
            assert(gv.dom() =~= old(self).timers@.dom());
            assert(group_views(self.timers@) =~= with_item(gv, deadline, waker));
            lemma_in_key_order_insert(gv, deadline, waker);
        }
        is_earliest
    }

    /// Takes out the wakers of the earliest deadline, if any.
    pub fn pop_first(&mut self) -> (r: Option<Vec<W>>)
        requires
            old(self).wf(),
        ensures
            final(self).wf(),
            if old(self)@.len() > 0 {
                let n = due_by(old(self)@, old(self)@[0].0) as int;
                &&& r matches Some(w) && w@ == wakers_of(old(self)@, n)
                &&& final(self)@ == old(self)@.skip(n)
                &&& n > 0
                &&& forall|i: int| 0 <= i < n ==> #[trigger] old(self)@[i].0 == old(self)@[0].0
            } else {
                &&& r is None
                &&& final(self)@ == old(self)@
            },
    {
        let ghost gv = group_views(self.timers@);
        proof {
            assert(gv.dom() =~= self.timers@.dom());
            lemma_in_key_order(gv);
        }
        match pop_least(&mut self.timers) {
            Some((k, wakers)) => {
                proof {
                    lemma_least_is(gv, k);
                    lemma_pop_least(gv);
                    lemma_remove_least(gv);
                    assert(group_views(self.timers@) =~= gv.remove(k));
                }
                Some(wakers)
            },
            None => {
                proof {
                    vstd::set_lib::lemma_set_empty_equivalency_len(gv.dom());
                }
                None
            },
        }
    }

    /// Takes out the wakers of the earliest deadline, if that deadline is at
    /// or before `now`; `None` otherwise.
    pub fn pop_expired(&mut self, now: u64) -> (r: Option<Vec<W>>)
        requires
            old(self).wf(),
        ensures
            final(self).wf(),
            if old(self)@.len() > 0 && old(self)@[0].0 <= now {
                let n = due_by(old(self)@, old(self)@[0].0) as int;
                &&& r matches Some(w) && w@ == wakers_of(old(self)@, n)
                &&& final(self)@ == old(self)@.skip(n)
                &&& n > 0
                &&& forall|i: int| 0 <= i < n ==> #[trigger] old(self)@[i].0 == old(self)@[0].0
            } else {
                &&& r is None
                &&& final(self)@ == old(self)@
            },
    {
        match self.min_timestamp() {
            Some(earliest) => {
                if earliest <= now {
                    self.pop_first()
                } else {
                    None
                }
            },
            None => None,
        }
    }
}

/// The earliest registered deadline, if any.
pub fn get_min_timestamp<W>(timers: &TimerQueue<W>) -> (r: Option<u64>)
    requires
        timers.wf(),
    ensures
        r == (if timers@.len() > 0 {
            Some(timers@[0].0)
        } else {
            None
        }),
{
    timers.min_timestamp()
}

/// Ticks of a timer running at `freq_hz` that last `nanos` nanoseconds,
/// rounded down; `None` where they do not fit in 32 bits.
pub fn duration_to_ticks(nanos: u128, freq_hz: u64) -> (r: Option<u32>)
    requires
        nanos * freq_hz <= u128::MAX,
    ensures
        r == (if nanos * freq_hz / 1_000_000_000 <= u32::MAX {
            Some((nanos * freq_hz / 1_000_000_000) as u32)
        } else {
            None
        }),
{
    let ticks: u128 = (nanos * (freq_hz as u128)) / 1_000_000_000;
    if ticks <= u32::MAX as u128 {
        Some(ticks as u32)
    } else {
        None
    }
}

/// What one poll of [`WaitForApic`] asks its caller to do.
#[derive(Debug, Clone, Copy, PartialEq, Eq)]
pub enum ApicPoll {
    /// The target time has passed: the future is ready; nothing to register.
    Ready,
    /// Register the waker and stay pending: no timer is due.
    Pending,
    /// Register the waker, arm the local APIC timer for `ticks`, wake the
    /// dispatcher at once when `wake_now`, and stay pending.
    ArmTimer { ticks: u32, wake_now: bool },
    /// Register the waker, stop the local APIC timer, and be ready.
    StopTimer,
}

/// Waits, through the local APIC timer, until `target_nanos` (0 for no
/// target: wait to be woken).
pub struct WaitForApic {
    target_nanos: u64,
    timer_started: bool,
}

impl WaitForApic {
    /// The target time.
    pub closed spec fn target(&self) -> u64 {
        self.target_nanos
    }

    /// Whether the timer was armed by an earlier poll.
    pub closed spec fn started(&self) -> bool {
        self.timer_started
    }

    /// The target time.
    pub fn target_nanos(&self) -> (r: u64)
        ensures
            r == self.target(),
    {
        self.target_nanos
    }

    /// Whether the timer was armed by an earlier poll.
    pub fn timer_started(&self) -> (r: bool)
        ensures
            r == self.started(),
    {
        self.timer_started
    }

    /// A wait for `target_nanos`, with the timer not yet armed.
    pub fn new(target_nanos: u64) -> (r: Self)
        ensures
            r.target() == target_nanos,
            !r.started(),
    {
        WaitForApic { target_nanos, timer_started: false }
    }

    /// One poll at time `now`, with the timer counting at `freq_hz`.
    pub fn poll(&mut self, now: u64, freq_hz: u64) -> (r: ApicPoll)
        requires
            !old(self).started() && old(self).target() != 0 && now < old(self).target() ==> (
            old(self).target() - now) * freq_hz / 1_000_000_000 <= u32::MAX,
        ensures
            final(self).target() == old(self).target(),
            if old(self).target() != 0 && now >= old(self).target() {
                r == ApicPoll::Ready && final(self).started() == old(self).started()
            } else if !old(self).started() {
                &&& final(self).started()
                &&& if old(self).target() == 0 {
                    r == ApicPoll::Pending
                } else {
                    let ticks = ((old(self).target() - now) * freq_hz / 1_000_000_000) as u32;
                    r == ApicPoll::ArmTimer { ticks, wake_now: ticks == 0 }
                }
            } else {
                r == ApicPoll::StopTimer && final(self).started()
            },
    {
        if self.target_nanos != 0 && now >= self.target_nanos {
            return ApicPoll::Ready;
        }
        if !self.timer_started {
            self.timer_started = true;
            if self.target_nanos == 0 {
                return ApicPoll::Pending;
            }
            let remaining: u128 = (self.target_nanos - now) as u128;
            assert(remaining * freq_hz <= u128::MAX) by (nonlinear_arith)
                requires remaining < 0x1_0000_0000_0000_0000, freq_hz < 0x1_0000_0000_0000_0000;
            let ticks = duration_to_ticks(remaining, freq_hz).unwrap();
            return ApicPoll::ArmTimer { ticks, wake_now: ticks == 0 };
        }
        ApicPoll::StopTimer
    }
}

/// What one poll of [`Sleep`] asks its caller to do.
#[derive(Debug, Clone, Copy, PartialEq, Eq)]
pub enum SleepPoll {
    /// The deadline has passed.
    Ready,
    /// Still waiting; wake the timer dispatcher when `wake_dispatcher`.
    Pending { wake_dispatcher: bool },
}

/// Sleeps until a deadline, through the timer queue.
pub struct Sleep {
    timestamp_nanos: u64,
    registered: bool,
}

impl Sleep {
    /// The deadline.
    pub closed spec fn deadline(&self) -> u64 {
        self.timestamp_nanos
    }

    /// Whether the waker was registered by an earlier poll.
    pub closed spec fn is_registered(&self) -> bool {
        self.registered
    }

    /// A sleep of `duration_nanos` from `now`.
    pub fn new(now: u64, duration_nanos: u64) -> (r: Self)
        requires
            now + duration_nanos <= u64::MAX,
        ensures
            r.deadline() == now + duration_nanos,
            !r.is_registered(),
    {
        Sleep { timestamp_nanos: now + duration_nanos, registered: false }
    }

    /// One poll at time `now`: on the first poll before the deadline the
    /// waker joins `timers`, and the dispatcher is woken when the deadline
    /// is the earliest.
    pub fn poll<W>(&mut self, now: u64, timers: &mut TimerQueue<W>, waker: W) -> (r: SleepPoll)
        requires
            old(timers).wf(),
        ensures
            final(timers).wf(),
            final(self).deadline() == old(self).deadline(),
            if now >= old(self).deadline() {
                &&& r == SleepPoll::Ready
                &&& final(timers)@ == old(timers)@
                &&& final(self).is_registered() == old(self).is_registered()
            } else if !old(self).is_registered() {
                &&& final(self).is_registered()
                &&& final(timers)@ == old(timers)@.insert(
                    due_by(old(timers)@, old(self).deadline()) as int,
                    (old(self).deadline(), waker),
                )
                &&& r == SleepPoll::Pending {
                    wake_dispatcher: old(timers)@.len() == 0 || old(timers)@[0].0 > old(self).deadline(),
                }
            } else {
                &&& r == SleepPoll::Pending { wake_dispatcher: false }
                &&& final(timers)@ == old(timers)@
                &&& final(self).is_registered()
            },
    {
        if now >= self.timestamp_nanos {
            return SleepPoll::Ready;
        }
        if !self.registered {
            let is_earliest = timers.register(self.timestamp_nanos, waker);
            self.registered = true;
            return SleepPoll::Pending { wake_dispatcher: is_earliest };
        }
        SleepPoll::Pending { wake_dispatcher: false }
    }
}

} // verus!
