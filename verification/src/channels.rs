//! Channels between tasks: a table of bounded FIFO buffers with queues of
//! parked senders and receivers. A transition reports the answer for the
//! acting task and the waiting tasks it wakes, in registration order; the
//! scheduler applies them. Handles carry a generation, so a stale handle
//! never reaches a reused row.
use crate::machine::{visit_each, RootVisitor, ThunkId, ARENA_LIMIT};
use std::collections::VecDeque;
use vstd::prelude::*;

verus! {

/// A channel as a program holds it: a row of the table and its generation.
#[derive(Clone, Copy, Debug, PartialEq, Eq, Structural)]
pub struct Handle {
    pub index: usize,
    pub generation: u32,
}

/// What a channel operation answers.
#[derive(Clone, Copy, Debug, PartialEq, Eq, Structural)]
pub enum Answer {
    Bool(bool),
    Payload(ThunkId),
    Nothing,
    Unit,
}

/// Whether the acting task goes on with an answer or waits.
#[derive(Clone, Copy, Debug, PartialEq, Eq, Structural)]
pub enum Outcome {
    Ready(Answer),
    Parked,
}

/// A waiting task to resume with an answer.
#[derive(Clone, Copy, Debug, PartialEq, Eq, Structural)]
pub struct Wake {
    pub continuation: ThunkId,
    pub answer: Answer,
}

/// The result of one channel operation.
#[derive(Debug)]
pub struct Transition {
    pub outcome: Outcome,
    pub wakes: Vec<Wake>,
}

/// A parked task.
#[derive(Clone, Copy, Debug, PartialEq, Eq, Structural)]
pub enum Waiter {
    Sender { continuation: ThunkId, payload: ThunkId },
    Receiver { continuation: ThunkId },
}

/// An open channel: its buffer room, whether it was closed, the buffered
/// payloads and the parked tasks, oldest first.
pub struct Channel {
    pub room: u32,
    pub closed: bool,
    pub buffer: VecDeque<ThunkId>,
    pub wait: VecDeque<Waiter>,
}

pub struct Row {
    pub generation: u32,
    pub channel: Option<Channel>,
}

/// The channel table with its free rows and its aggregate counts.
pub struct State {
    pub rows: Vec<Row>,
    pub free: Vec<usize>,
    pub payloads: usize,
    pub waiters: usize,
}

fn ready(answer: Answer) -> (r: Transition)
    ensures
        r.outcome == Outcome::Ready(answer),
        r.wakes@.len() == 0,
{
    Transition { outcome: Outcome::Ready(answer), wakes: Vec::new() }
}

fn parked() -> (r: Transition)
    ensures
        r.outcome == Outcome::Parked,
        r.wakes@.len() == 0,
{
    Transition { outcome: Outcome::Parked, wakes: Vec::new() }
}

fn waking(answer: Answer, continuation: ThunkId, wake_answer: Answer) -> (r: Transition)
    ensures
        r.outcome == Outcome::Ready(answer),
        r.wakes@ == seq![Wake { continuation, answer: wake_answer }],
{
    let mut wakes = Vec::new();
    wakes.push(Wake { continuation, answer: wake_answer });
    proof {
        assert(wakes@ =~= seq![Wake { continuation, answer: wake_answer }]);
    }
    Transition { outcome: Outcome::Ready(answer), wakes }
}

/// How many parked senders, whose payloads the channel holds.
pub open spec fn senders(w: Seq<Waiter>) -> nat
    decreases w.len(),
{
    if w.len() == 0 {
        0
    } else {
        senders(w.drop_last()) + if w.last() is Sender { 1nat } else { 0nat }
    }
}

/// The payloads a row holds: buffered ones and those of parked senders.
pub open spec fn row_payloads(r: Row) -> nat {
    match r.channel {
        Some(c) => c.buffer@.len() + senders(c.wait@),
        None => 0,
    }
}

/// The tasks parked on a row.
pub open spec fn row_waiters(r: Row) -> nat {
    match r.channel {
        Some(c) => c.wait@.len(),
        None => 0,
    }
}

pub open spec fn total_payloads(rows: Seq<Row>) -> nat
    decreases rows.len(),
{
    if rows.len() == 0 {
        0
    } else {
        total_payloads(rows.drop_last()) + row_payloads(rows.last())
    }
}

pub open spec fn total_waiters(rows: Seq<Row>) -> nat
    decreases rows.len(),
{
    if rows.len() == 0 {
        0
    } else {
        total_waiters(rows.drop_last()) + row_waiters(rows.last())
    }
}

proof fn lemma_totals_update(rows: Seq<Row>, i: int, r: Row)
    requires
        0 <= i < rows.len(),
    ensures
        total_payloads(rows.update(i, r)) == total_payloads(rows) - row_payloads(rows[i]) + row_payloads(r),
        total_waiters(rows.update(i, r)) == total_waiters(rows) - row_waiters(rows[i]) + row_waiters(r),
        total_payloads(rows) >= row_payloads(rows[i]),
        total_waiters(rows) >= row_waiters(rows[i]),
    decreases rows.len(),
{
    if i < rows.len() - 1 {
        assert(rows.update(i, r).drop_last() =~= rows.drop_last().update(i, r));
        lemma_totals_update(rows.drop_last(), i, r);
    } else {
        assert(rows.update(i, r).drop_last() =~= rows.drop_last());
    }
}

proof fn lemma_totals_push(rows: Seq<Row>, r: Row)
    ensures
        total_payloads(rows.push(r)) == total_payloads(rows) + row_payloads(r),
        total_waiters(rows.push(r)) == total_waiters(rows) + row_waiters(r),
{
    assert(rows.push(r).drop_last() =~= rows);
}

proof fn lemma_senders_drop_first(w: Seq<Waiter>)
    requires
        w.len() > 0,
    ensures
        senders(w) == senders(w.drop_first()) + if w[0] is Sender { 1nat } else { 0nat },
    decreases w.len(),
{
    if w.len() > 1 {
        assert(w.drop_first().drop_last() =~= w.drop_last().drop_first());
        lemma_senders_drop_first(w.drop_last());
    } else {
        assert(w.drop_first() =~= Seq::<Waiter>::empty());
        assert(w.drop_last() =~= Seq::<Waiter>::empty());
    }
}

proof fn lemma_senders_push(w: Seq<Waiter>, x: Waiter)
    ensures
        senders(w.push(x)) == senders(w) + if x is Sender { 1nat } else { 0nat },
{
    assert(w.push(x).drop_last() =~= w);
}

proof fn lemma_senders_split(w: Seq<Waiter>, k: int)
    requires
        0 <= k <= w.len(),
    ensures
        senders(w) == senders(w.take(k)) + senders(w.skip(k)),
    decreases w.len(),
{
    if k == w.len() {
        assert(w.take(k) =~= w);
        assert(w.skip(k) =~= Seq::<Waiter>::empty());
    } else {
        lemma_senders_split(w.drop_last(), k);
        assert(w.drop_last().take(k) =~= w.take(k));
        assert(w.skip(k).drop_last() =~= w.drop_last().skip(k));
        assert(w.skip(k).last() == w.last());
    }
}

proof fn lemma_senders_bound(w: Seq<Waiter>)
    ensures
        senders(w) <= w.len(),
    decreases w.len(),
{
    if w.len() > 0 {
        lemma_senders_bound(w.drop_last());
    }
}

/// The abstract state of a channel: room, closed, buffer and waiters.
pub open spec fn view_of(c: Channel) -> (u32, bool, Seq<ThunkId>, Seq<Waiter>) {
    (c.room, c.closed, c.buffer@, c.wait@)
}

/// A channel's waiters are all receivers or all senders; receivers wait
/// only on an empty buffer; a closed channel has no waiters.
pub open spec fn coherent(c: Channel) -> bool {
    &&& forall|j: int, k: int| 0 <= j < c.wait@.len() && 0 <= k < c.wait@.len() && (#[trigger] c.wait@[j]) is Receiver
        ==> (#[trigger] c.wait@[k]) is Receiver
    &&& forall|k: int| 0 <= k < c.wait@.len() && (#[trigger] c.wait@[k]) is Receiver ==> c.buffer@.len() == 0
    &&& c.closed ==> c.wait@.len() == 0
}

pub open spec fn row_coherent(r: Row) -> bool {
    match r.channel {
        Some(c) => coherent(c),
        None => true,
    }
}

/// The waiter that `close` wakes: a sender with `false`, a receiver with nothing.
pub open spec fn closing_wake(w: Waiter) -> Wake {
    match w {
        Waiter::Sender { continuation, .. } => Wake { continuation, answer: Answer::Bool(false) },
        Waiter::Receiver { continuation } => Wake { continuation, answer: Answer::Nothing },
    }
}

/// Replacing one live row with a coherent row of the same generation, with
/// counts that match, keeps the table well formed.
proof fn lemma_row_replaced(old: State, new: State, i: int)
    requires
        old.wf(),
        0 <= i < old.rows@.len(),
        old.rows@[i].channel is Some,
        new.free@ == old.free@,
        new.rows@ == old.rows@.update(i, new.rows@[i]),
        new.rows@[i].generation == old.rows@[i].generation,
        row_coherent(new.rows@[i]),
        new.payloads == total_payloads(new.rows@),
        new.waiters == total_waiters(new.rows@),
        new.payloads <= ARENA_LIMIT,
        new.waiters <= ARENA_LIMIT,
    ensures
        new.wf(),
        new.only_row(&old, i),
{
    assert forall|k: int| 0 <= k < new.free@.len() implies #[trigger] new.free@[k] < new.rows@.len()
        && new.rows@[new.free@[k] as int].channel is None by {
        assert(old.rows@[old.free@[k] as int].channel is None);
    }
    assert forall|k: int| 0 <= k < new.rows@.len() implies row_coherent(#[trigger] new.rows@[k]) by {
        if k != i {
            assert(new.rows@[k] == old.rows@[k]);
        }
    }
}

/// What `send` does to a well-formed table.
pub open spec fn send_post(old: State, new: State, handle: Handle, payload: ThunkId, continuation: ThunkId, r: Result<Transition, String>) -> bool {
    match old.at(handle) {
                None => r matches Ok(t) && t.outcome == Outcome::Ready(Answer::Bool(false)) && t.wakes@.len() == 0
                    && new.same(&old),
                Some((room, closed, buffer, wait)) => {
                    &&& new.only_row(&old, handle.index as int)
                    &&& closed ==> (r matches Ok(t) && t.outcome == Outcome::Ready(Answer::Bool(false)) && t.wakes@.len() == 0
                        && new.same(&old))
                    &&& !closed && wait.len() > 0 && wait[0] is Receiver ==> (r matches Ok(t)
                        && t.outcome == Outcome::Ready(Answer::Bool(true))
                        && t.wakes@ == seq![Wake { continuation: wait[0]->Receiver_continuation, answer: Answer::Payload(payload) }]
                        && new.at(handle) == Some((room, closed, buffer, wait.drop_first())))
                    &&& !closed && !(wait.len() > 0 && wait[0] is Receiver) && (old.payloads >= ARENA_LIMIT
                        || (buffer.len() >= room && old.waiters >= ARENA_LIMIT)) ==> r is Err && new.same(&old)
                    &&& !closed && !(wait.len() > 0 && wait[0] is Receiver) && old.payloads < ARENA_LIMIT && buffer.len()
                        < room ==> (r matches Ok(t) && t.outcome == Outcome::Ready(Answer::Bool(true)) && t.wakes@.len() == 0
                        && new.at(handle) == Some((room, closed, buffer.push(payload), wait)))
                    &&& !closed && !(wait.len() > 0 && wait[0] is Receiver) && old.payloads < ARENA_LIMIT && buffer.len()
                        >= room && old.waiters < ARENA_LIMIT ==> (r matches Ok(t) && t.outcome == Outcome::Parked
                        && t.wakes@.len() == 0 && new.at(handle) == Some(
                        (room, closed, buffer, wait.push(Waiter::Sender { continuation, payload })),
                    ))
                },
            }
}

/// What `recv` does to a well-formed table.
pub open spec fn recv_post(old: State, new: State, handle: Handle, continuation: ThunkId, r: Result<Transition, String>) -> bool {
            match old.at(handle) {
                None => r matches Ok(t) && t.outcome == Outcome::Ready(Answer::Nothing) && t.wakes@.len() == 0
                    && new.same(&old),
                Some((room, closed, buffer, wait)) => {
                    &&& new.only_row(&old, handle.index as int)
                    &&& buffer.len() > 0 && wait.len() > 0 ==> (r matches Ok(t)
                        && t.outcome == Outcome::Ready(Answer::Payload(buffer[0]))
                        && t.wakes@ == seq![Wake { continuation: wait[0]->Sender_continuation, answer: Answer::Bool(true) }]
                        && new.at(handle) == Some((room, closed, buffer.drop_first().push(wait[0]->Sender_payload), wait.drop_first())))
                    &&& buffer.len() > 0 && wait.len() == 0 ==> (r matches Ok(t)
                        && t.outcome == Outcome::Ready(Answer::Payload(buffer[0])) && t.wakes@.len() == 0
                        && new.at(handle) == if closed && buffer.len() == 1 {
                            None
                        } else {
                            Some((room, closed, buffer.drop_first(), wait))
                        })
                    &&& buffer.len() == 0 && wait.len() > 0 && wait[0] is Sender ==> (r matches Ok(t)
                        && t.outcome == Outcome::Ready(Answer::Payload(wait[0]->Sender_payload))
                        && t.wakes@ == seq![Wake { continuation: wait[0]->Sender_continuation, answer: Answer::Bool(true) }]
                        && new.at(handle) == Some((room, closed, buffer, wait.drop_first())))
                    &&& buffer.len() == 0 && !(wait.len() > 0 && wait[0] is Sender) && closed ==> (r matches Ok(t)
                        && t.outcome == Outcome::Ready(Answer::Nothing) && t.wakes@.len() == 0 && new.at(handle) is None)
                    &&& buffer.len() == 0 && !(wait.len() > 0 && wait[0] is Sender) && !closed && old.waiters
                        >= ARENA_LIMIT ==> r is Err && new.same(&old)
                    &&& buffer.len() == 0 && !(wait.len() > 0 && wait[0] is Sender) && !closed && old.waiters
                        < ARENA_LIMIT ==> (r matches Ok(t) && t.outcome == Outcome::Parked && t.wakes@.len() == 0
                        && new.at(handle) == Some((room, closed, buffer, wait.push(Waiter::Receiver { continuation }))))
                },
            }
}

/// What `close` does to a well-formed table.
pub open spec fn close_post(old: State, new: State, handle: Handle, r: Transition) -> bool {
    r.outcome == Outcome::Ready(Answer::Unit) && match old.at(handle) {
                None => r.wakes@.len() == 0 && new.same(&old),
                Some((room, closed, buffer, wait)) => {
                    &&& new.only_row(&old, handle.index as int)
                    &&& closed ==> r.wakes@.len() == 0 && new.same(&old)
                    &&& !closed ==> r.wakes@ == wait.map_values(|w: Waiter| closing_wake(w))
                        && new.at(handle) == if buffer.len() == 0 {
                            None
                        } else {
                            Some((room, true, buffer, Seq::<Waiter>::empty()))
                        }
                },
            }
}

/// `VecDeque::capacity`: how many items the deque holds without
/// reallocating, which is at least its length.
#[verifier::external_body]
fn capacity_of<T>(queue: &VecDeque<T>) -> (r: usize)
    ensures
        r >= queue@.len(),
{
    queue.capacity()
}

/// `VecDeque::shrink_to_fit`: gives back spare capacity; the items stay.
#[verifier::external_body]
fn shrink<T>(queue: &mut VecDeque<T>)
    ensures
        final(queue)@ == old(queue)@,
{
    queue.shrink_to_fit()
}

/// Give back a queue's spare room once it is more than four times its
/// length (and more than four), so an idle row keeps no large allocation.
fn compact<T>(queue: &mut VecDeque<T>)
    ensures
        final(queue)@ == old(queue)@,
{
    let len = queue.len();
    let keep = if len <= usize::MAX / 4 {
        if len * 4 > 4 { len * 4 } else { 4 }
    } else {
        usize::MAX
    };
    if capacity_of(queue) > keep {
        shrink(queue);
    }
}

/// What a parked task keeps alive: its continuation, and a sender's payload.
pub open spec fn waiter_roots(w: Waiter) -> Seq<ThunkId> {
    match w {
        Waiter::Sender { continuation, payload } => seq![continuation, payload],
        Waiter::Receiver { continuation } => seq![continuation],
    }
}

pub open spec fn wait_roots(w: Seq<Waiter>) -> Seq<ThunkId>
    decreases w.len(),
{
    if w.len() == 0 {
        Seq::empty()
    } else {
        wait_roots(w.drop_last()) + waiter_roots(w.last())
    }
}

/// The roots of one row: buffered payloads, then the parked tasks in order.
pub open spec fn row_roots(r: Row) -> Seq<ThunkId> {
    match r.channel {
        Some(c) => c.buffer@ + wait_roots(c.wait@),
        None => Seq::empty(),
    }
}

/// Every value the table keeps alive, row by row.
pub open spec fn table_roots(rows: Seq<Row>) -> Seq<ThunkId>
    decreases rows.len(),
{
    if rows.len() == 0 {
        Seq::empty()
    } else {
        table_roots(rows.drop_last()) + row_roots(rows.last())
    }
}

/// What a woken task keeps alive: its continuation and a delivered payload.
pub open spec fn wake_roots(w: Wake) -> Seq<ThunkId> {
    match w.answer {
        Answer::Payload(p) => seq![w.continuation, p],
        _ => seq![w.continuation],
    }
}

pub open spec fn wakes_roots(w: Seq<Wake>) -> Seq<ThunkId>
    decreases w.len(),
{
    if w.len() == 0 {
        Seq::empty()
    } else {
        wakes_roots(w.drop_last()) + wake_roots(w.last())
    }
}

/// The values a transition carries out of the table: a received payload,
/// then each wake's continuation and payload.
pub open spec fn transition_roots(t: Transition) -> Seq<ThunkId> {
    let own = match t.outcome {
        Outcome::Ready(Answer::Payload(p)) => seq![p],
        _ => Seq::empty(),
    };
    own + wakes_roots(t.wakes@)
}

impl Transition {
    /// Visit the values this transition carries, in the order of `roots`,
    /// stopping at the first error.
    pub fn visit_roots<V: RootVisitor>(&self, visitor: &mut V) -> (r: Result<(), String>)
        ensures
            transition_roots(*self).len() == 0 ==> r is Ok,
    {
        let roots = self.roots();
        visit_each(&roots, visitor)
    }

    /// The values this transition carries that have left the table; they
    /// stay alive until the scheduler has applied the transition.
    pub fn roots(&self) -> (r: Vec<ThunkId>)
        ensures
            r@ == transition_roots(*self),
    {
        let mut out: Vec<ThunkId> = Vec::new();
        if let Outcome::Ready(Answer::Payload(p)) = self.outcome {
            out.push(p);
        }
        let ghost own = out@;
        let mut j: usize = 0;
        while j < self.wakes.len()
            invariant
                j <= self.wakes@.len(),
                out@ == own + wakes_roots(self.wakes@.take(j as int)),
                own == (match self.outcome {
                    Outcome::Ready(Answer::Payload(p)) => seq![p],
                    _ => Seq::<ThunkId>::empty(),
                }),
            decreases self.wakes@.len() - j,
        {
            let w = self.wakes[j];
            out.push(w.continuation);
            if let Answer::Payload(p) = w.answer {
                out.push(p);
            }
            proof {
                assert(self.wakes@.take(j + 1).drop_last() =~= self.wakes@.take(j as int));
                assert(out@ =~= own + wakes_roots(self.wakes@.take(j + 1)));
            }
            j = j + 1;
        }
        proof {
            assert(self.wakes@.take(j as int) =~= self.wakes@);
        }
        out
    }
}

fn gen_of(rows: &Vec<Row>, i: usize) -> (r: u32)
    requires
        i < rows@.len(),
    ensures
        r == rows@[i as int].generation,
{
    rows[i].generation
}

impl State {
    /// The counts match the table, stay within the budgets, and the free
    /// rows are distinct, empty, in range and still have generations left.
    pub open spec fn wf(&self) -> bool {
        &&& self.payloads == total_payloads(self.rows@)
        &&& self.waiters == total_waiters(self.rows@)
        &&& self.payloads <= ARENA_LIMIT
        &&& self.waiters <= ARENA_LIMIT
        &&& self.rows@.len() <= ARENA_LIMIT
        &&& forall|k: int| 0 <= k < self.free@.len() ==> #[trigger] self.free@[k] < self.rows@.len()
            && self.rows@[self.free@[k] as int].channel is None
            && self.rows@[self.free@[k] as int].generation < u32::MAX
        &&& forall|j: int, k: int| 0 <= j < k < self.free@.len() ==> self.free@[j] != self.free@[k]
        &&& forall|k: int| 0 <= k < self.rows@.len() ==> row_coherent(#[trigger] self.rows@[k])
    }

    /// The abstract state of the channel a handle names.
    pub open spec fn at(&self, h: Handle) -> Option<(u32, bool, Seq<ThunkId>, Seq<Waiter>)> {
        match self.live(h) {
            Some(c) => Some(view_of(c)),
            None => None,
        }
    }

    /// `self` is `old` with only row `i` changed, and that row keeps its generation.
    pub open spec fn only_row(&self, old: &State, i: int) -> bool {
        &&& self.rows@.len() == old.rows@.len()
        &&& forall|k: int| 0 <= k < self.rows@.len() && k != i ==> #[trigger] self.rows@[k] == old.rows@[k]
        &&& 0 <= i < self.rows@.len() ==> self.rows@[i].generation == old.rows@[i].generation
    }

    /// Nothing a program can observe changed.
    pub open spec fn same(&self, old: &State) -> bool {
        &&& self.rows@ == old.rows@
        &&& self.free@ == old.free@
        &&& self.payloads == old.payloads
        &&& self.waiters == old.waiters
    }

    /// The open channel that a handle names, if it is still that channel.
    pub open spec fn live(&self, h: Handle) -> Option<Channel> {
        if h.index < self.rows@.len() && self.rows@[h.index as int].generation == h.generation {
            self.rows@[h.index as int].channel
        } else {
            None
        }
    }

    /// An empty table.
    pub fn new() -> (r: State)
        ensures
            r.wf(),
            r.rows@.len() == 0,
    {
        State { rows: Vec::new(), free: Vec::new(), payloads: 0, waiters: 0 }
    }

    /// A fresh, empty channel with room for `room` buffered payloads, in a
    /// free row or a new one.
    pub fn open(&mut self, room: u32) -> (r: Result<Handle, String>)
        requires
            old(self).wf(),
        ensures
            final(self).wf(),
            r matches Ok(h) ==> final(self).live(h) matches Some(c) && c.room == room && !c.closed
                && c.buffer@.len() == 0 && c.wait@.len() == 0,
            r matches Ok(h) ==> old(self).live(h) is None,
            r matches Ok(h) ==> forall|g: Handle| g.index != h.index ==> #[trigger] final(self).live(g) == old(self).live(g),
            r matches Ok(h) ==> forall|g: Handle| g.index == h.index && g != h ==> #[trigger] final(self).live(g) is None,
            r is Err <==> old(self).free@.len() == 0 && old(self).rows@.len() >= ARENA_LIMIT,
            r is Err ==> final(self).same(old(self)),
    {
        let index = match self.free.pop() {
            Some(i) => i,
            None => {
                if self.rows.len() >= ARENA_LIMIT {
                    return Err("IO channel table budget exhausted".to_owned());
                }
                proof {
                    lemma_totals_push(self.rows@, Row { generation: 0, channel: None });
                }
                self.rows.push(Row { generation: 0, channel: None });
                self.rows.len() - 1
            },
        };
        let generation = match self.rows[index].generation.checked_add(1) {
            Some(g) => g,
            None => {
                return Err("IO channel generation exhausted".to_owned());
            },
        };
        let ghost before = self.rows@;
        let fresh = Row {
            generation,
            channel: Some(Channel { room, closed: false, buffer: VecDeque::new(), wait: VecDeque::new() }),
        };
        proof {
            lemma_totals_update(self.rows@, index as int, fresh);
            assert(senders(Seq::<Waiter>::empty()) == 0);
        }
        self.rows.set(index, fresh);
        proof {
            assert forall|k: int| 0 <= k < self.free@.len() implies #[trigger] self.free@[k] < self.rows@.len()
                && self.rows@[self.free@[k] as int].channel is None
                && self.rows@[self.free@[k] as int].generation < u32::MAX by {
                assert(self.free@[k] != index);
            }
        }
        Ok(Handle { index, generation })
    }

    /// Whether a handle names an open channel.
    pub fn is_live(&self, h: Handle) -> (r: bool)
        ensures
            r == self.live(h) is Some,
    {
        h.index < self.rows.len() && self.rows[h.index].generation == h.generation && self.rows[h.index].channel.is_some()
    }

    /// Send `payload`: hand it to the oldest parked receiver, or buffer it,
    /// or park the sender; a closed or stale channel answers `false`.
    pub fn send(&mut self, handle: Handle, payload: ThunkId, continuation: ThunkId) -> (r: Result<Transition, String>)
        requires
            old(self).wf(),
        ensures
            final(self).wf(),
            send_post(*old(self), *final(self), handle, payload, continuation, r),

    {
        if !self.is_live(handle) {
            return Ok(ready(Answer::Bool(false)));
        }
        let i = handle.index;
        let (closed, has_receiver, can_buffer) = match &self.rows[i].channel {
            Some(c) => {
                let front = if c.wait.len() > 0 {
                    match c.wait[0] {
                        Waiter::Receiver { .. } => true,
                        Waiter::Sender { .. } => false,
                    }
                } else {
                    false
                };
                (c.closed, front, c.buffer.len() < c.room as usize)
            },
            None => (true, false, false),
        };
        if closed {
            return Ok(ready(Answer::Bool(false)));
        }
        if !has_receiver {
            if self.payloads >= ARENA_LIMIT {
                return Err("IO channel payload budget exhausted".to_owned());
            }
            if !can_buffer && self.waiters >= ARENA_LIMIT {
                return Err("IO channel waiter budget exhausted".to_owned());
            }
        }
        let ghost old_row = self.rows@[i as int];
        let mut c = match self.rows[i].channel.take() {
            Some(c) => c,
            None => {
                return Err("invalid native channel row".to_owned());
            },
        };
        let ghost gen = self.rows@[i as int].generation;
        proof {
            lemma_totals_update(old(self).rows@, i as int, old_row);
        }
        if has_receiver {
            let k = match c.wait.pop_front() {
                Some(Waiter::Receiver { continuation: k }) => k,
                _ => {
                    self.rows.set(i, Row { generation: gen_of(&self.rows, i), channel: Some(c) });
                    return Err("invalid native channel receiver".to_owned());
                },
            };
            compact(&mut c.wait);
            proof {
                lemma_senders_drop_first(old_row.channel->Some_0.wait@);
                lemma_totals_update(old(self).rows@, i as int, Row { generation: gen, channel: Some(c) });
            }
            self.waiters = self.waiters - 1;
            let g = gen_of(&self.rows, i);
            self.rows.set(i, Row { generation: g, channel: Some(c) });
            proof {
                assert(self.rows@ =~= old(self).rows@.update(i as int, self.rows@[i as int]));
                lemma_row_replaced(*old(self), *self, i as int);
            }
            return Ok(waking(Answer::Bool(true), k, Answer::Payload(payload)));
        }
        self.payloads = self.payloads + 1;
        if can_buffer {
            c.buffer.push_back(payload);
            proof {
                lemma_totals_update(old(self).rows@, i as int, Row { generation: gen, channel: Some(c) });
            }
            let g = gen_of(&self.rows, i);
            self.rows.set(i, Row { generation: g, channel: Some(c) });
            proof {
                assert(self.rows@ =~= old(self).rows@.update(i as int, self.rows@[i as int]));
                lemma_row_replaced(*old(self), *self, i as int);
            }
            return Ok(ready(Answer::Bool(true)));
        }
        c.wait.push_back(Waiter::Sender { continuation, payload });
        proof {
            lemma_senders_push(old_row.channel->Some_0.wait@, Waiter::Sender { continuation, payload });
            lemma_totals_update(old(self).rows@, i as int, Row { generation: gen, channel: Some(c) });
        }
        self.waiters = self.waiters + 1;
        let g = gen_of(&self.rows, i);
        self.rows.set(i, Row { generation: g, channel: Some(c) });
        proof {
            assert(self.rows@ =~= old(self).rows@.update(i as int, self.rows@[i as int]));
                lemma_row_replaced(*old(self), *self, i as int);
        }
        Ok(parked())
    }

    /// Receive: the oldest buffered payload (refilling the buffer from the
    /// oldest parked sender), or a parked sender's payload directly, or
    /// nothing from a closed channel, or park the receiver. A closed channel
    /// whose buffer runs empty is retired.
    pub fn recv(&mut self, handle: Handle, continuation: ThunkId) -> (r: Result<Transition, String>)
        requires
            old(self).wf(),
        ensures
            final(self).wf(),
            recv_post(*old(self), *final(self), handle, continuation, r),

    {
        if !self.is_live(handle) {
            return Ok(ready(Answer::Nothing));
        }
        let i = handle.index;
        let (has_sender, empty, closed) = match &self.rows[i].channel {
            Some(c) => {
                let front = if c.wait.len() > 0 {
                    match c.wait[0] {
                        Waiter::Sender { .. } => true,
                        Waiter::Receiver { .. } => false,
                    }
                } else {
                    false
                };
                (front, c.buffer.len() == 0, c.closed)
            },
            None => (false, true, true),
        };
        if empty && !has_sender && !closed && self.waiters >= ARENA_LIMIT {
            return Err("IO channel waiter budget exhausted".to_owned());
        }
        let ghost old_row = self.rows@[i as int];
        let ghost oc = old_row.channel->Some_0;
        assert(old(self).at(handle) == Some(view_of(oc)));
        let mut c = match self.rows[i].channel.take() {
            Some(c) => c,
            None => {
                return Err("invalid native channel row".to_owned());
            },
        };
        let ghost gen = self.rows@[i as int].generation;
        proof {
            lemma_totals_update(old(self).rows@, i as int, old_row);
        }
        if let Some(payload) = c.buffer.pop_front() {
            let mut transition = ready(Answer::Payload(payload));
            let mut moved = false;
            if c.wait.len() > 0 {
                match c.wait.pop_front() {
                    Some(Waiter::Sender { continuation: k, payload: p }) => {
                        c.buffer.push_back(p);
                        transition.wakes.push(Wake { continuation: k, answer: Answer::Bool(true) });
                        moved = true;
                    },
                    _ => {
                        proof {
                            assert(oc.wait@[0] is Receiver);
                            assert(oc.buffer@.len() == 0);
                        }
                        return Err("invalid native buffered channel waiter".to_owned());
                    },
                }
            }
            compact(&mut c.buffer);
            compact(&mut c.wait);
            proof {
                assert(payload == oc.buffer@[0]);
                if moved {
                    assert(c.buffer@ =~= oc.buffer@.drop_first().push(oc.wait@[0]->Sender_payload));
                    assert(c.wait@ =~= oc.wait@.drop_first());
                    assert(transition.wakes@ =~= seq![Wake { continuation: oc.wait@[0]->Sender_continuation, answer: Answer::Bool(true) }]);
                } else {
                    assert(oc.wait@.len() == 0);
                    assert(c.buffer@ =~= oc.buffer@.drop_first());
                    assert(c.wait@ =~= oc.wait@);
                    assert(transition.wakes@.len() == 0);
                }
                if moved {
                    lemma_senders_drop_first(oc.wait@);
                    assert(oc.wait@[0] is Sender);
                    assert forall|j: int| 0 <= j < c.wait@.len() implies !(#[trigger] c.wait@[j] is Receiver) by {
                        assert(c.wait@[j] == oc.wait@[j + 1]);
                        if oc.wait@[j + 1] is Receiver {
                            assert(oc.wait@[0] is Receiver);
                        }
                    }
                } else {
                    assert forall|j: int| 0 <= j < c.wait@.len() implies !(#[trigger] c.wait@[j] is Receiver) by {
                    }
                }
                lemma_totals_update(old(self).rows@, i as int, Row { generation: gen, channel: Some(c) });
            }
            self.payloads = self.payloads - 1;
            if moved {
                self.waiters = self.waiters - 1;
            }
            let retire = c.closed && c.buffer.len() == 0;
            let ghost c_view = c;
            let g = gen_of(&self.rows, i);
            self.rows.set(i, Row { generation: g, channel: Some(c) });
            proof {
                assert(self.rows@ =~= old(self).rows@.update(i as int, self.rows@[i as int]));
                lemma_row_replaced(*old(self), *self, i as int);
            }
            if retire {
                self.release(i);
                proof {
                    assert(self.at(handle) is None);
                }
            }
            proof {
                assert(self.only_row(old(self), i as int));
                assert(!retire ==> self.at(handle) == Some(view_of(c_view)));
                assert(retire <==> (oc.closed && oc.buffer@.len() == 1 && oc.wait@.len() == 0));
                assert(old(self).at(handle) == Some((oc.room, oc.closed, oc.buffer@, oc.wait@)));
            }
            return Ok(transition);
        }
        if has_sender {
            let (k, p) = match c.wait.pop_front() {
                Some(Waiter::Sender { continuation: k, payload: p }) => (k, p),
                _ => {
                    return Err("invalid native channel sender".to_owned());
                },
            };
            compact(&mut c.wait);
            proof {
                lemma_senders_drop_first(oc.wait@);
                assert forall|j: int| 0 <= j < c.wait@.len() implies !(#[trigger] c.wait@[j] is Receiver) by {
                    assert(c.wait@[j] == oc.wait@[j + 1]);
                    if oc.wait@[j + 1] is Receiver {
                        assert(oc.wait@[0] is Receiver);
                    }
                }
                lemma_totals_update(old(self).rows@, i as int, Row { generation: gen, channel: Some(c) });
            }
            self.payloads = self.payloads - 1;
            self.waiters = self.waiters - 1;
            let g = gen_of(&self.rows, i);
            self.rows.set(i, Row { generation: g, channel: Some(c) });
            proof {
                assert(self.rows@ =~= old(self).rows@.update(i as int, self.rows@[i as int]));
                lemma_row_replaced(*old(self), *self, i as int);
            }
            return Ok(waking(Answer::Payload(p), k, Answer::Bool(true)));
        }
        if c.closed {
            let g = gen_of(&self.rows, i);
            proof {
                lemma_totals_update(old(self).rows@, i as int, Row { generation: gen, channel: Some(c) });
            }
            self.rows.set(i, Row { generation: g, channel: Some(c) });
            proof {
                assert(self.rows@ =~= old(self).rows@.update(i as int, self.rows@[i as int]));
                lemma_row_replaced(*old(self), *self, i as int);
            }
            self.release(i);
            return Ok(ready(Answer::Nothing));
        }
        c.wait.push_back(Waiter::Receiver { continuation });
        proof {
            lemma_senders_push(oc.wait@, Waiter::Receiver { continuation });
            assert forall|j: int| 0 <= j < oc.wait@.len() implies (#[trigger] oc.wait@[j]) is Receiver by {
                if !(oc.wait@[j] is Receiver) {
                    assert(oc.wait@[0] is Sender) by {
                        if oc.wait@[0] is Receiver {
                            assert(oc.wait@[j] is Receiver);
                        }
                    }
                }
            }
            lemma_totals_update(old(self).rows@, i as int, Row { generation: gen, channel: Some(c) });
        }
        self.waiters = self.waiters + 1;
        let g = gen_of(&self.rows, i);
        self.rows.set(i, Row { generation: g, channel: Some(c) });
        proof {
            assert(self.rows@ =~= old(self).rows@.update(i as int, self.rows@[i as int]));
            lemma_row_replaced(*old(self), *self, i as int);
        }
        Ok(parked())
    }

    /// Close a channel: every parked task wakes, senders with `false` and
    /// receivers with nothing, in registration order; the buffered payloads
    /// stay to be received, and an empty closed channel is retired. Closing
    /// twice, or a stale handle, changes nothing.
    pub fn close(&mut self, handle: Handle) -> (r: Transition)
        requires
            old(self).wf(),
        ensures
            final(self).wf(),
            close_post(*old(self), *final(self), handle, r),

    {
        let mut transition = ready(Answer::Unit);
        if !self.is_live(handle) {
            return transition;
        }
        let i = handle.index;
        let closed = match &self.rows[i].channel {
            Some(c) => c.closed,
            None => true,
        };
        if closed {
            return transition;
        }
        let ghost old_row = self.rows@[i as int];
        let ghost oc = old_row.channel->Some_0;
        assert(old(self).at(handle) == Some(view_of(oc)));
        let mut c = match self.rows[i].channel.take() {
            Some(c) => c,
            None => {
                return transition;
            },
        };
        let ghost gen = self.rows@[i as int].generation;
        proof {
            lemma_totals_update(old(self).rows@, i as int, old_row);
            lemma_senders_split(oc.wait@, 0);
        }
        c.closed = true;
        let ghost rows_mid = self.rows@;
        proof {
            assert(rows_mid =~= old(self).rows@.update(i as int, rows_mid[i as int]));
        }
        let mut n: usize = 0;
        while c.wait.len() > 0
            invariant
                self.rows@ == rows_mid,
                self.free@ == old(self).free@,
                i < rows_mid.len(),
                rows_mid == old(self).rows@.update(i as int, rows_mid[i as int]),
                rows_mid[i as int].generation == gen,
                gen == old(self).rows@[i as int].generation,
                old_row == old(self).rows@[i as int],
                old_row.channel == Some(oc),
                n <= oc.wait@.len(),
                c.wait@ == oc.wait@.skip(n as int),
                c.buffer@ == oc.buffer@,
                c.room == oc.room,
                c.closed,
                transition.outcome == Outcome::Ready(Answer::Unit),
                transition.wakes@ == oc.wait@.take(n as int).map_values(|w: Waiter| closing_wake(w)),
                self.payloads + senders(oc.wait@.take(n as int)) == old(self).payloads,
                self.waiters + n == old(self).waiters,
                old(self).payloads >= oc.buffer@.len() + senders(oc.wait@),
                old(self).waiters >= oc.wait@.len(),
                senders(oc.wait@) == senders(oc.wait@.take(n as int)) + senders(oc.wait@.skip(n as int)),
            decreases c.wait@.len(),
        {
            let ghost w = oc.wait@[n as int];
            let waiter = c.wait.pop_front();
            proof {
                assert(oc.wait@.skip(n as int)[0] == w);
                assert(oc.wait@.take(n + 1).drop_last() =~= oc.wait@.take(n as int));
                assert(oc.wait@.take(n + 1).last() == w);
                lemma_senders_split(oc.wait@, n + 1);
                lemma_senders_split(oc.wait@.skip(n as int), 1);
                assert(oc.wait@.skip(n as int).skip(1) =~= oc.wait@.skip(n + 1));
                assert(oc.wait@.skip(n as int).take(1) =~= seq![w]);
                assert(seq![w].drop_last() =~= Seq::<Waiter>::empty());
            }
            self.waiters = self.waiters - 1;
            match waiter {
                Some(Waiter::Sender { continuation, .. }) => {
                    self.payloads = self.payloads - 1;
                    transition.wakes.push(Wake { continuation, answer: Answer::Bool(false) });
                },
                Some(Waiter::Receiver { continuation }) => {
                    transition.wakes.push(Wake { continuation, answer: Answer::Nothing });
                },
                None => {},
            }
            proof {
                assert(oc.wait@.take(n + 1).map_values(|w: Waiter| closing_wake(w)) =~= oc.wait@.take(n as int).map_values(
                    |w: Waiter| closing_wake(w),
                ).push(closing_wake(w)));
            }
            n = n + 1;
        }
        compact(&mut c.wait);
        proof {
            assert(oc.wait@.take(n as int) =~= oc.wait@);
            assert(c.wait@.len() == 0);
            lemma_totals_update(old(self).rows@, i as int, Row { generation: gen, channel: Some(c) });
        }
        let retire = c.buffer.len() == 0;
        proof {
            assert(c.wait@ =~= Seq::<Waiter>::empty());
            assert(view_of(c) == (oc.room, true, oc.buffer@, Seq::<Waiter>::empty()));
        }
        let g = gen_of(&self.rows, i);
        self.rows.set(i, Row { generation: g, channel: Some(c) });
        proof {
            assert(self.rows@ =~= old(self).rows@.update(i as int, self.rows@[i as int]));
            lemma_row_replaced(*old(self), *self, i as int);
        }
        if retire {
            self.release(i);
            proof {
                assert(self.at(handle) is None);
            }
        }
        proof {
            assert(self.only_row(old(self), i as int));
            assert(!retire ==> self.at(handle) == Some((oc.room, true, oc.buffer@, Seq::<Waiter>::empty())));
            assert(retire ==> oc.buffer@.len() == 0);
            assert(transition.wakes@ == oc.wait@.map_values(|w: Waiter| closing_wake(w)));
            assert(old(self).at(handle) == Some((oc.room, oc.closed, oc.buffer@, oc.wait@)));
            assert(!oc.closed);
        }
        transition
    }

    /// Visit every value the table keeps alive, in the order of `roots`,
    /// stopping at the first error.
    pub fn visit_roots<V: RootVisitor>(&self, visitor: &mut V) -> (r: Result<(), String>)
        ensures
            table_roots(self.rows@).len() == 0 ==> r is Ok,
    {
        let roots = self.roots();
        visit_each(&roots, visitor)
    }

    /// Every value the table keeps alive: each open row's buffered payloads,
    /// then its parked tasks' continuations and payloads, oldest first.
    pub fn roots(&self) -> (r: Vec<ThunkId>)
        ensures
            r@ == table_roots(self.rows@),
    {
        let mut out: Vec<ThunkId> = Vec::new();
        let mut i: usize = 0;
        while i < self.rows.len()
            invariant
                i <= self.rows@.len(),
                out@ == table_roots(self.rows@.take(i as int)),
            decreases self.rows@.len() - i,
        {
            proof {
                assert(self.rows@.take(i + 1).drop_last() =~= self.rows@.take(i as int));
            }
            if let Some(c) = &self.rows[i].channel {
                let ghost before = out@;
                let mut j: usize = 0;
                while j < c.buffer.len()
                    invariant
                        j <= c.buffer@.len(),
                        out@ == before + c.buffer@.take(j as int),
                    decreases c.buffer@.len() - j,
                {
                    out.push(c.buffer[j]);
                    proof {
                        assert(c.buffer@.take(j + 1) =~= c.buffer@.take(j as int).push(c.buffer@[j as int]));
                        assert(out@ =~= before + c.buffer@.take(j + 1));
                    }
                    j = j + 1;
                }
                proof {
                    assert(c.buffer@.take(j as int) =~= c.buffer@);
                }
                let ghost mid = out@;
                let mut k: usize = 0;
                while k < c.wait.len()
                    invariant
                        k <= c.wait@.len(),
                        out@ == mid + wait_roots(c.wait@.take(k as int)),
                    decreases c.wait@.len() - k,
                {
                    match c.wait[k] {
                        Waiter::Sender { continuation, payload } => {
                            out.push(continuation);
                            out.push(payload);
                        },
                        Waiter::Receiver { continuation } => {
                            out.push(continuation);
                        },
                    }
                    proof {
                        assert(c.wait@.take(k + 1).drop_last() =~= c.wait@.take(k as int));
                        assert(out@ =~= mid + wait_roots(c.wait@.take(k + 1)));
                    }
                    k = k + 1;
                }
                proof {
                    assert(c.wait@.take(k as int) =~= c.wait@);
                    assert(out@ =~= table_roots(self.rows@.take(i + 1)));
                }
            } else {
                proof {
                    assert(out@ =~= table_roots(self.rows@.take(i + 1)));
                }
            }
            i = i + 1;
        }
        proof {
            assert(self.rows@.take(i as int) =~= self.rows@);
        }
        out
    }

    /// Retire row `i` after its channel drained: it becomes free unless its
    /// generation is used up, so a stale handle is never revived.
    fn release(&mut self, i: usize)
        requires
            old(self).wf(),
            i < old(self).rows@.len(),
            old(self).rows@[i as int].channel is Some,
            row_payloads(old(self).rows@[i as int]) == 0,
            row_waiters(old(self).rows@[i as int]) == 0,
        ensures
            final(self).wf(),
            final(self).only_row(old(self), i as int),
            final(self).rows@[i as int].channel is None,
            final(self).payloads == old(self).payloads,
            final(self).waiters == old(self).waiters,
    {
        let generation = self.rows[i].generation;
        proof {
            lemma_totals_update(self.rows@, i as int, Row { generation, channel: None });
        }
        self.rows.set(i, Row { generation, channel: None });
        if generation < u32::MAX {
            let ghost before = self.free@;
            self.free.push(i);
            proof {
                assert forall|j: int, k: int| 0 <= j < k < self.free@.len() implies self.free@[j] != self.free@[k] by {
                    if k == self.free@.len() - 1 {
                        assert(before[j] < old(self).rows@.len());
                        assert(old(self).rows@[before[j] as int].channel is None);
                    } else {
                        assert(self.free@[j] == before[j] && self.free@[k] == before[k]);
                    }
                }
                assert forall|k: int| 0 <= k < self.free@.len() implies #[trigger] self.free@[k] < self.rows@.len()
                    && self.rows@[self.free@[k] as int].channel is None by {
                    if k < before.len() {
                        assert(self.free@[k] == before[k]);
                        assert(before[k] != i) by {
                            assert(old(self).rows@[before[k] as int].channel is None);
                        }
                    }
                }
            }
        } else {
            proof {
                assert forall|k: int| 0 <= k < self.free@.len() implies #[trigger] self.free@[k] < self.rows@.len()
                    && self.rows@[self.free@[k] as int].channel is None by {
                    assert(old(self).rows@[self.free@[k] as int].channel is None);
                }
            }
        }
    }

}

/// Closing a channel a second time wakes no one and changes nothing.
pub proof fn law_close_twice_changes_nothing(s0: State, s1: State, s2: State, h: Handle, t1: Transition, t2: Transition)
    requires
        s0.wf(),
        close_post(s0, s1, h, t1),
        close_post(s1, s2, h, t2),
    ensures
        t2.outcome == Outcome::Ready(Answer::Unit),
        t2.wakes@.len() == 0,
        s2.same(&s1),
{
}

/// After `close`, a send on the same handle answers `false` and changes nothing.
pub proof fn law_send_after_close_is_refused(
    s0: State,
    s1: State,
    s2: State,
    h: Handle,
    t1: Transition,
    payload: ThunkId,
    continuation: ThunkId,
    r: Result<Transition, String>,
)
    requires
        s0.wf(),
        close_post(s0, s1, h, t1),
        send_post(s1, s2, h, payload, continuation, r),
    ensures
        r matches Ok(t) && t.outcome == Outcome::Ready(Answer::Bool(false)) && t.wakes@.len() == 0,
        s2.same(&s1),
{
}

/// A payload sent into a channel with buffer room comes out first when the
/// buffer was empty; otherwise the oldest buffered payload comes out first.
pub proof fn law_buffered_send_then_recv(
    s0: State,
    s1: State,
    s2: State,
    h: Handle,
    payload: ThunkId,
    k1: ThunkId,
    k2: ThunkId,
    r1: Result<Transition, String>,
    r2: Result<Transition, String>,
)
    requires
        s0.wf(),
        s0.at(h) matches Some((room, closed, buffer, wait)) && !closed && wait.len() == 0 && buffer.len() < room,
        s0.payloads < ARENA_LIMIT,
        send_post(s0, s1, h, payload, k1, r1),
        recv_post(s1, s2, h, k2, r2),
    ensures
        r1 matches Ok(t) && t.outcome == Outcome::Ready(Answer::Bool(true)),
        r2 matches Ok(t) && t.wakes@.len() == 0 && t.outcome == Outcome::Ready(Answer::Payload(
            if s0.at(h)->Some_0.2.len() == 0 { payload } else { s0.at(h)->Some_0.2[0] },
        )),
{
    let buffer = s0.at(h)->Some_0.2;
    assert(buffer.push(payload)[0] == if buffer.len() == 0 { payload } else { buffer[0] });
}

/// A receiver parked on an empty open channel is handed the next payload
/// sent there directly, and the sender goes on with `true`.
pub proof fn law_parked_receiver_gets_next_send(
    s0: State,
    s1: State,
    s2: State,
    h: Handle,
    payload: ThunkId,
    receiver: ThunkId,
    sender: ThunkId,
    r1: Result<Transition, String>,
    r2: Result<Transition, String>,
)
    requires
        s0.wf(),
        s0.at(h) matches Some((room, closed, buffer, wait)) && !closed && wait.len() == 0 && buffer.len() == 0,
        s0.waiters < ARENA_LIMIT,
        recv_post(s0, s1, h, receiver, r1),
        send_post(s1, s2, h, payload, sender, r2),
    ensures
        r1 matches Ok(t) && t.outcome == Outcome::Parked,
        r2 matches Ok(t) && t.outcome == Outcome::Ready(Answer::Bool(true))
            && t.wakes@ == seq![Wake { continuation: receiver, answer: Answer::Payload(payload) }],
        s2.at(h) == s0.at(h),
{
    let (room, closed, buffer, wait) = s0.at(h)->Some_0;
    assert(wait.push(Waiter::Receiver { continuation: receiver }).drop_first() =~= wait);
}

} // verus!
