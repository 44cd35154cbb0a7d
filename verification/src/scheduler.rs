//! Cooperative task queue and timers. Tasks run in the order they became
//! ready; overdue timers wake in the order they were registered, whatever
//! their deadlines.
use crate::machine::{visit_each, RootVisitor, ThunkId, ARENA_LIMIT};
use std::collections::VecDeque;
use vstd::prelude::*;

verus! {

/// A task waiting for a deadline. `order` is its registration number.
#[derive(Clone, Copy, Debug, PartialEq, Eq, Structural)]
pub struct Timer {
    pub order: u64,
    pub deadline: u64,
    pub action: ThunkId,
}

/// The queue of ready tasks, the parked timers, the count of live tasks and
/// the next registration number.
pub struct State {
    pub ready: VecDeque<ThunkId>,
    pub timers: Vec<Timer>,
    pub live: usize,
    pub next_wait: u64,
}

/// Whether a timer is due at `now` and was registered before `order`.
pub open spec fn due(t: Timer, now: u64, order: u64) -> bool {
    t.deadline <= now && t.order < order
}

pub open spec fn actions(ts: Seq<Timer>) -> Seq<ThunkId> {
    ts.map_values(|t: Timer| t.action)
}

/// The timers due at `now` before `order`, in registration order.
pub open spec fn due_timers(ts: Seq<Timer>, now: u64, order: u64) -> Seq<Timer> {
    ts.filter(|t: Timer| due(t, now, order))
}

/// The timers that stay parked.
pub open spec fn kept_timers(ts: Seq<Timer>, now: u64, order: u64) -> Seq<Timer> {
    ts.filter(|t: Timer| !due(t, now, order))
}

/// Registration numbers rise along the timer list and stay below the next one.
pub open spec fn registered_in_order(ts: Seq<Timer>, next: u64) -> bool {
    &&& forall|i: int, j: int| 0 <= i < j < ts.len() ==> ts[i].order < ts[j].order
    &&& forall|i: int| 0 <= i < ts.len() ==> (#[trigger] ts[i]).order < next
}

/// Dropping timers keeps the rest in registration order.
proof fn lemma_filter_in_order(ts: Seq<Timer>, next: u64, p: spec_fn(Timer) -> bool)
    requires
        registered_in_order(ts, next),
    ensures
        registered_in_order(ts.filter(p), next),
    decreases ts.len(),
{
    if ts.len() > 0 {
        let d = ts.drop_last();
        lemma_filter_in_order(d, next, p);
        let f = d.filter(p);
        reveal(Seq::filter);
        assert(ts.filter(p) == if p(ts.last()) { f.push(ts.last()) } else { f });
        assert forall|i: int| 0 <= i < f.len() implies (#[trigger] f[i]).order < ts.last().order by {
            assert(f.contains(f[i]));
            d.lemma_filter_contains_rev(p, f[i]);
            let j = choose|j: int| 0 <= j < d.len() && d[j] == f[i];
            assert(ts[j] == d[j]);
        }
    }
}

impl State {
    /// The timers were registered in list order.
    pub open spec fn wf(&self) -> bool {
        registered_in_order(self.timers@, self.next_wait)
    }

    /// A scheduler with no task.
    pub fn new() -> (r: State)
        ensures
            r.wf(),
            r.ready@.len() == 0,
            r.timers@.len() == 0,
            r.live == 0,
            r.next_wait == 0,
    {
        State { ready: VecDeque::new(), timers: Vec::new(), live: 0, next_wait: 0 }
    }

    /// Start a task: it counts as live and joins the back of the queue.
    pub fn spawn(&mut self, action: ThunkId) -> (r: Result<(), String>)
        requires
            old(self).wf(),
        ensures
            final(self).wf(),
            r is Err <==> old(self).live >= ARENA_LIMIT,
            r is Err ==> *final(self) == *old(self),
            r is Ok ==> final(self).live == old(self).live + 1 && final(self).ready@ == old(self).ready@.push(action)
                && final(self).timers@ == old(self).timers@ && final(self).next_wait == old(self).next_wait,
    {
        if self.live >= ARENA_LIMIT {
            return Err("IO pending task budget exhausted".to_owned());
        }
        self.live = self.live + 1;
        self.ready.push_back(action);
        Ok(())
    }

    /// The task at the front of the queue, taken off it.
    pub fn next(&mut self) -> (r: Option<ThunkId>)
        requires
            old(self).wf(),
        ensures
            final(self).wf(),
            final(self).timers@ == old(self).timers@,
            final(self).live == old(self).live,
            final(self).next_wait == old(self).next_wait,
            old(self).ready@.len() == 0 ==> r is None && final(self).ready@ == old(self).ready@,
            old(self).ready@.len() > 0 ==> r == Some(old(self).ready@[0]) && final(self).ready@
                == old(self).ready@.drop_first(),
    {
        self.ready.pop_front()
    }

    /// Resume a task that was waiting elsewhere (on a channel); it does not
    /// count as a new task, so every queued or parked task must leave room.
    pub fn resume(&mut self, action: ThunkId) -> (r: Result<(), String>)
        requires
            old(self).wf(),
        ensures
            final(self).wf(),
            r is Err <==> old(self).ready@.len() + old(self).timers@.len() >= old(self).live,
            r is Err ==> *final(self) == *old(self),
            r is Ok ==> final(self).ready@ == old(self).ready@.push(action) && final(self).timers@ == old(self).timers@
                && final(self).live == old(self).live && final(self).next_wait == old(self).next_wait,
    {
        if self.ready.len() >= self.live || self.timers.len() >= self.live - self.ready.len() {
            return Err("invalid native scheduler wake count".to_owned());
        }
        self.ready.push_back(action);
        Ok(())
    }

    /// A task finished: one fewer live task.
    pub fn complete(&mut self) -> (r: Result<(), String>)
        requires
            old(self).wf(),
        ensures
            final(self).wf(),
            r is Err <==> old(self).live == 0,
            r is Err ==> *final(self) == *old(self),
            r is Ok ==> final(self).live == old(self).live - 1 && final(self).ready@ == old(self).ready@
                && final(self).timers@ == old(self).timers@ && final(self).next_wait == old(self).next_wait,
    {
        match self.live.checked_sub(1) {
            Some(live) => {
                self.live = live;
                Ok(())
            },
            None => Err("invalid native scheduler task count".to_owned()),
        }
    }

    /// Whether no task is live.
    pub fn finished(&self) -> (r: bool)
        ensures
            r == (self.live == 0),
    {
        self.live == 0
    }

    /// Park the running task until `deadline`, registered after every
    /// timer so far.
    pub fn sleep(&mut self, deadline: u64, action: ThunkId) -> (r: Result<(), String>)
        requires
            old(self).wf(),
        ensures
            final(self).wf(),
            r is Err <==> old(self).timers@.len() >= old(self).live || old(self).ready@.len() + old(self).timers@.len()
                >= ARENA_LIMIT || old(self).next_wait == u64::MAX,
            r is Err ==> *final(self) == *old(self),
            r is Ok ==> final(self).timers@ == old(self).timers@.push(
                Timer { order: old(self).next_wait, deadline, action },
            ) && final(self).next_wait == old(self).next_wait + 1 && final(self).ready@ == old(self).ready@
                && final(self).live == old(self).live,
    {
        if self.timers.len() >= self.live || self.ready.len() >= ARENA_LIMIT || self.timers.len() >= ARENA_LIMIT
            - self.ready.len() {
            return Err("IO pending task budget exhausted".to_owned());
        }
        let order = match self.reserve_wait() {
            Ok(order) => order,
            Err(e) => {
                return Err(e);
            },
        };
        self.timers.push(Timer { order, deadline, action });
        Ok(())
    }

    /// The next registration number, shared by timers and descriptor waits.
    pub fn reserve_wait(&mut self) -> (r: Result<u64, String>)
        requires
            old(self).wf(),
        ensures
            final(self).wf(),
            final(self).ready@ == old(self).ready@,
            final(self).timers@ == old(self).timers@,
            final(self).live == old(self).live,
            r is Err <==> old(self).next_wait == u64::MAX,
            r is Err ==> *final(self) == *old(self),
            r matches Ok(order) ==> order == old(self).next_wait && final(self).next_wait == order + 1,
    {
        let order = self.next_wait;
        match order.checked_add(1) {
            Some(next) => {
                self.next_wait = next;
                Ok(order)
            },
            None => Err("native wait identity exhausted".to_owned()),
        }
    }

    /// Wake every timer due at `now`, in registration order.
    pub fn wake(&mut self, now: u64)
        requires
            old(self).wf(),
        ensures
            final(self).wf(),
            final(self).ready@ == old(self).ready@ + actions(due_timers(old(self).timers@, now, u64::MAX)),
            final(self).timers@ == kept_timers(old(self).timers@, now, u64::MAX),
            final(self).live == old(self).live,
            final(self).next_wait == old(self).next_wait,
    {
        self.wake_before(now, u64::MAX);
    }

    /// Wake the timers due at `now` that were registered before `order`,
    /// in registration order; the others stay parked, in order.
    pub fn wake_before(&mut self, now: u64, order: u64)
        requires
            old(self).wf(),
        ensures
            final(self).wf(),
            final(self).ready@ == old(self).ready@ + actions(due_timers(old(self).timers@, now, order)),
            final(self).timers@ == kept_timers(old(self).timers@, now, order),
            final(self).live == old(self).live,
            final(self).next_wait == old(self).next_wait,
    {
        let ghost ts = self.timers@;
        let ghost ready0 = self.ready@;
        let mut kept: Vec<Timer> = Vec::new();
        let mut i: usize = 0;
        while i < self.timers.len()
            invariant
                self.timers@ == ts,
                self.live == old(self).live,
                self.next_wait == old(self).next_wait,
                ts == old(self).timers@,
                ready0 == old(self).ready@,
                i <= ts.len(),
                kept@ == kept_timers(ts.take(i as int), now, order),
                self.ready@ == ready0 + actions(due_timers(ts.take(i as int), now, order)),
            decreases ts.len() - i,
        {
            let t = self.timers[i];
            proof {
                assert(ts.take(i + 1).drop_last() =~= ts.take(i as int));
                assert(ts.take(i + 1).last() == t);
            }
            if t.deadline <= now && t.order < order {
                self.ready.push_back(t.action);
                proof {
                    reveal(Seq::filter);
                    assert(due_timers(ts.take(i + 1), now, order) == due_timers(ts.take(i as int), now, order).push(t));
                    assert(kept_timers(ts.take(i + 1), now, order) == kept_timers(ts.take(i as int), now, order));
                    assert(actions(due_timers(ts.take(i as int), now, order).push(t)) =~= actions(
                        due_timers(ts.take(i as int), now, order),
                    ).push(t.action));
                }
            } else {
                kept.push(t);
                proof {
                    reveal(Seq::filter);
                    assert(due_timers(ts.take(i + 1), now, order) == due_timers(ts.take(i as int), now, order));
                    assert(kept_timers(ts.take(i + 1), now, order) == kept_timers(ts.take(i as int), now, order).push(t));
                }
            }
            i = i + 1;
        }
        proof {
            assert(ts.take(i as int) =~= ts);
        }
        self.timers = kept;
        proof {
            lemma_filter_in_order(ts, self.next_wait, |t: Timer| !due(t, now, order));
        }
    }

    /// The earliest deadline among the parked timers.
    pub fn next_deadline(&self) -> (r: Option<u64>)
        ensures
            r is None <==> self.timers@.len() == 0,
            r matches Some(d) ==> (exists|i: int| 0 <= i < self.timers@.len() && self.timers@[i].deadline == d)
                && forall|i: int| 0 <= i < self.timers@.len() ==> d <= #[trigger] self.timers@[i].deadline,
    {
        let mut best: Option<u64> = None;
        let mut i: usize = 0;
        while i < self.timers.len()
            invariant
                i <= self.timers@.len(),
                best is None <==> i == 0,
                best matches Some(d) ==> (exists|j: int| 0 <= j < i && self.timers@[j].deadline == d)
                    && forall|j: int| 0 <= j < i ==> d <= #[trigger] self.timers@[j].deadline,
            decreases self.timers@.len() - i,
        {
            let d = self.timers[i].deadline;
            best = match best {
                Some(b) => if d < b { Some(d) } else { Some(b) },
                None => Some(d),
            };
            i = i + 1;
        }
        best
    }

    /// Whether a task is ready to run.
    pub fn has_ready(&self) -> (r: bool)
        ensures
            r == (self.ready@.len() > 0),
    {
        self.ready.len() > 0
    }

    /// Visit every task the scheduler keeps alive, in the order of `roots`,
    /// stopping at the first error.
    pub fn visit_roots<V: RootVisitor>(&self, visitor: &mut V) -> (r: Result<(), String>)
        ensures
            (self.ready@ + actions(self.timers@)).len() == 0 ==> r is Ok,
    {
        let roots = self.roots();
        visit_each(&roots, visitor)
    }

    /// Every task the scheduler keeps alive: the ready queue, then the
    /// parked timers in registration order.
    pub fn roots(&self) -> (r: Vec<ThunkId>)
        ensures
            r@ == self.ready@ + actions(self.timers@),
    {
        let mut out: Vec<ThunkId> = Vec::new();
        let mut i: usize = 0;
        while i < self.ready.len()
            invariant
                i <= self.ready@.len(),
                out@ == self.ready@.take(i as int),
            decreases self.ready@.len() - i,
        {
            out.push(self.ready[i]);
            proof {
                assert(self.ready@.take(i + 1) =~= self.ready@.take(i as int).push(self.ready@[i as int]));
            }
            i = i + 1;
        }
        let mut j: usize = 0;
        while j < self.timers.len()
            invariant
                i == self.ready@.len(),
                j <= self.timers@.len(),
                out@ == self.ready@.take(i as int) + actions(self.timers@.take(j as int)),
            decreases self.timers@.len() - j,
        {
            out.push(self.timers[j].action);
            proof {
                assert(actions(self.timers@.take(j + 1)) =~= actions(self.timers@.take(j as int)).push(
                    self.timers@[j as int].action,
                ));
            }
            j = j + 1;
        }
        proof {
            assert(self.ready@.take(i as int) =~= self.ready@);
            assert(self.timers@.take(j as int) =~= self.timers@);
        }
        out
    }
}

proof fn lemma_all_due(ts: Seq<Timer>, now: u64, next: u64)
    requires
        forall|i: int| 0 <= i < ts.len() ==> (#[trigger] ts[i]).deadline <= now && ts[i].order < next,
    ensures
        due_timers(ts, now, next) == ts,
        kept_timers(ts, now, next) == Seq::<Timer>::empty(),
    decreases ts.len(),
{
    reveal(Seq::filter);
    if ts.len() > 0 {
        lemma_all_due(ts.drop_last(), now, next);
        assert(ts.drop_last().push(ts.last()) =~= ts);
    }
}

/// Once every deadline has passed, waking moves every parked timer to the
/// ready queue, in registration order, and leaves none parked.
pub proof fn law_wake_after_every_deadline_wakes_all(s: State, now: u64)
    requires
        s.wf(),
        forall|i: int| 0 <= i < s.timers@.len() ==> (#[trigger] s.timers@[i]).deadline <= now,
    ensures
        actions(due_timers(s.timers@, now, u64::MAX)) == actions(s.timers@),
        kept_timers(s.timers@, now, u64::MAX).len() == 0,
{
    lemma_all_due(s.timers@, now, u64::MAX);
}

/// Waking splits the parked timers: each one either wakes or stays, so the
/// two lists together are as long as the timers were.
pub proof fn law_wake_keeps_every_timer(ts: Seq<Timer>, now: u64, order: u64)
    ensures
        due_timers(ts, now, order).len() + kept_timers(ts, now, order).len() == ts.len(),
    decreases ts.len(),
{
    reveal(Seq::filter);
    if ts.len() > 0 {
        law_wake_keeps_every_timer(ts.drop_last(), now, order);
    }
}

/// The ready queue is first in, first out: after two tasks join an empty
/// queue (as `spawn` or `resume` adds them), `next` hands out the first,
/// then the second.
pub proof fn law_ready_queue_is_fifo(q0: Seq<ThunkId>, q1: Seq<ThunkId>, q2: Seq<ThunkId>, a: ThunkId, b: ThunkId)
    requires
        q0.len() == 0,
        q1 == q0.push(a),
        q2 == q1.push(b),
    ensures
        q2[0] == a,
        q2.drop_first()[0] == b,
        q2.drop_first().drop_first().len() == 0,
{
}

} // verus!
