//! Scheduling of delayed callbacks by id. The callbacks themselves stay
//! with the caller, keyed by the id `schedule` returns; `update` says which
//! ones are due.
use vstd::prelude::*;

verus! {

/// The abstract state of a timer.
pub struct TimerView {
    /// Pending callbacks as (due time, id), earliest first; callbacks due
    /// at the same time in scheduling order.
    pub pending: Seq<(u64, u32)>,
    /// Milliseconds elapsed.
    pub time: u64,
    /// Id of the last scheduled callback.
    pub id: u32,
}

/// Timer for delayed callbacks.
pub struct Timer {
    callbacks: Vec<(u64, u32)>,
    time: u64,
    id: u32,
}

impl View for Timer {
    type V = TimerView;

    closed spec fn view(&self) -> TimerView {
        TimerView { pending: self.callbacks@, time: self.time, id: self.id }
    }
}

/// Pending callbacks are ordered by due time.
pub open spec fn sorted_by_time(s: Seq<(u64, u32)>) -> bool {
    forall|i: int, j: int| 0 <= i <= j < s.len() ==> (#[trigger] s[i]).0 <= (#[trigger] s[j]).0
}

/// The timer invariant: pending callbacks sorted by due time, with ids up
/// to the last one handed out.
pub open spec fn timer_inv(v: TimerView) -> bool {
    &&& sorted_by_time(v.pending)
    &&& forall|i: int| 0 <= i < v.pending.len() ==> (#[trigger] v.pending[i]).1 <= v.id
}

/// Where a callback due at `due` goes: after every callback due no later.
pub open spec fn insertion_point(s: Seq<(u64, u32)>, due: u64, p: int) -> bool {
    &&& 0 <= p <= s.len()
    &&& forall|i: int| 0 <= i < p ==> (#[trigger] s[i]).0 <= due
    &&& forall|i: int| p <= i < s.len() ==> (#[trigger] s[i]).0 > due
}

/// The number of leading callbacks due at time `now`.
pub open spec fn due_count(s: Seq<(u64, u32)>, now: u64, k: int) -> bool {
    &&& 0 <= k <= s.len()
    &&& forall|i: int| 0 <= i < k ==> (#[trigger] s[i]).0 <= now
    &&& (k < s.len() ==> s[k].0 > now)
}

impl Timer {
    pub open spec fn wf(&self) -> bool {
        timer_inv(self@)
    }

    /// A timer at time 0 with nothing scheduled.
    pub fn new() -> (t: Timer)
        ensures
            t.wf(),
            t@.pending == Seq::<(u64, u32)>::empty(),
            t@.time == 0,
            t@.id == 0,
    {
        Timer { callbacks: Vec::new(), time: 0, id: 0 }
    }

    /// Advances the time by `dt` milliseconds and returns the ids of the
    /// callbacks now due, earliest first; they are no longer pending.
    pub fn update(&mut self, dt: u64) -> (due: Vec<u32>)
        requires
            old(self).wf(),
            old(self)@.time + dt <= u64::MAX,
        ensures
            final(self).wf(),
            final(self)@.time == old(self)@.time + dt,
            final(self)@.id == old(self)@.id,
            exists|k: int|
                #![trigger due_count(old(self)@.pending, final(self)@.time, k)]
                due_count(old(self)@.pending, final(self)@.time, k) && final(self)@.pending
                    == old(self)@.pending.subrange(k, old(self)@.pending.len() as int) && due@.len() == k
                    && forall|i: int| 0 <= i < k ==> #[trigger] due@[i] == old(self)@.pending[i].1,
    {
        let ghost pre = self@;
        self.time = self.time + dt;
        let mut due: Vec<u32> = Vec::new();
        while self.callbacks.len() > 0 && self.callbacks[0].0 <= self.time
            invariant
                self.time == pre.time + dt,
                self.id == pre.id,
                due@.len() <= pre.pending.len(),
                self.callbacks@ == pre.pending.subrange(due@.len() as int, pre.pending.len() as int),
                forall|i: int| 0 <= i < due@.len() ==> (#[trigger] pre.pending[i]).0 <= self.time,
                forall|i: int| 0 <= i < due@.len() ==> #[trigger] due@[i] == pre.pending[i].1,
                timer_inv(pre),
            decreases self.callbacks@.len(),
        {
            let ghost k = due@.len() as int;
            let c = self.callbacks.remove(0);
            due.push(c.1);
            assert(self.callbacks@ =~= pre.pending.subrange(k + 1, pre.pending.len() as int));
        }
        proof {
            let k = due@.len() as int;
            assert(due_count(pre.pending, self.time, k));
            assert(timer_inv(self@)) by {
                assert forall|i: int, j: int| 0 <= i <= j < self@.pending.len() implies (#[trigger] self@.pending[i]).0
                    <= (#[trigger] self@.pending[j]).0 by {
                    assert(self@.pending[i] == pre.pending[i + k]);
                    assert(self@.pending[j] == pre.pending[j + k]);
                }
                assert forall|i: int| 0 <= i < self@.pending.len() implies (#[trigger] self@.pending[i]).1 <= self@.id by {
                    assert(self@.pending[i] == pre.pending[i + k]);
                }
            }
        }
        due
    }

    /// Schedules a callback `time` milliseconds from now; returns its id.
    pub fn schedule(&mut self, time: u64) -> (id: u32)
        requires
            old(self).wf(),
            old(self)@.id < u32::MAX,
            old(self)@.time + time <= u64::MAX,
        ensures
            final(self).wf(),
            id == old(self)@.id + 1,
            final(self)@.id == id,
            final(self)@.time == old(self)@.time,
            exists|p: int|
                #![trigger insertion_point(old(self)@.pending, (old(self)@.time + time) as u64, p)]
                insertion_point(old(self)@.pending, (old(self)@.time + time) as u64, p)
                    && final(self)@.pending == old(self)@.pending.insert(p, ((old(self)@.time + time) as u64, id)),
    {
        let ghost pre = self@;
        self.id = self.id + 1;
        let due = self.time + time;
        let n = self.callbacks.len();
        let mut p: usize = 0;
        while p < n && self.callbacks[p].0 <= due
            invariant
                n == pre.pending.len(),
                self.callbacks@ == pre.pending,
                p <= n,
                forall|i: int| 0 <= i < p ==> (#[trigger] pre.pending[i]).0 <= due,
            decreases n - p,
        {
            p = p + 1;
        }
        proof {
            if p < n {
                assert(pre.pending[p as int].0 > due);
                assert forall|i: int| p <= i < n implies (#[trigger] pre.pending[i]).0 > due by {
                    assert(pre.pending[p as int].0 <= pre.pending[i].0);
                }
            }
        }
        self.callbacks.insert(p, (due, self.id));
        let id = self.id;
        proof {
            assert(insertion_point(pre.pending, due, p as int));
            let s = self@.pending;
            assert(s == pre.pending.insert(p as int, (due, id)));
            assert forall|i: int, j: int| 0 <= i <= j < s.len() implies (#[trigger] s[i]).0 <= (#[trigger] s[j]).0 by {
                if i < p && j < p {
                    assert(s[i] == pre.pending[i] && s[j] == pre.pending[j]);
                } else if i < p && j == p {
                    assert(s[i] == pre.pending[i]);
                } else if i < p {
                    assert(s[i] == pre.pending[i] && s[j] == pre.pending[j - 1]);
                } else if i == p && j > p {
                    assert(s[j] == pre.pending[j - 1]);
                } else if i > p {
                    assert(s[i] == pre.pending[i - 1] && s[j] == pre.pending[j - 1]);
                }
            }
            assert forall|i: int| 0 <= i < s.len() implies (#[trigger] s[i]).1 <= id by {
                if i < p {
                    assert(s[i] == pre.pending[i]);
                } else if i > p {
                    assert(s[i] == pre.pending[i - 1]);
                }
            }
        }
        id
    }

    /// Cancelling a callback is not supported: it still runs when due.
    pub fn cancel(&mut self, id: u32)
        ensures
            final(self)@ == old(self)@,
    {
    }
}

/// After an update to time `now` that took the first `k` callbacks, none
/// of the callbacks left is due yet.
pub proof fn lemma_update_leaves_none_due(pending: Seq<(u64, u32)>, now: u64, k: int)
    requires
        sorted_by_time(pending),
        due_count(pending, now, k),
    ensures
        forall|i: int|
            0 <= i < pending.subrange(k, pending.len() as int).len() ==> (#[trigger] pending.subrange(
                k,
                pending.len() as int,
            )[i]).0 > now,
{
    let rest = pending.subrange(k, pending.len() as int);
    assert forall|i: int| 0 <= i < rest.len() implies (#[trigger] rest[i]).0 > now by {
        assert(rest[i] == pending[i + k]);
        assert(pending[k].0 <= pending[i + k].0);
    }
}

/// Ids handed out by two `schedule` calls in a row differ, and a new id
/// differs from every pending one.
pub proof fn lemma_schedule_fresh(pre: TimerView, id: u32)
    requires
        timer_inv(pre),
        id == pre.id + 1,
    ensures
        forall|i: int| 0 <= i < pre.pending.len() ==> (#[trigger] pre.pending[i]).1 != id,
{
}

} // verus!
