//! Owned network descriptors and parked requests. The table holds each
//! socket or listener under a sealed identity; a request parks with the
//! descriptor it waits on, in registration order, within an aggregate count
//! and a budget of bytes held for transfers.
use crate::host_files::{Codes, Failure};
use crate::machine::{visit_each, RootVisitor, ThunkId, ARENA_LIMIT};
use std::collections::BTreeMap;
use vstd::prelude::*;

verus! {

broadcast use {vstd::std_specs::btree::group_btree_axioms, vstd::laws_cmp::group_laws_cmp};

/// The most bytes one transfer may move.
pub const TRANSFER_BYTES: usize = 8 * 1024 * 1024;

/// The most bytes all parked requests may hold together.
pub const RETAINED_BYTES: usize = 64 * 1024 * 1024;

/// A descriptor identity as a program holds it; only the table makes one.
#[derive(Clone, Copy, Debug, PartialEq, Eq, Structural)]
pub struct Handle(u64);

impl Handle {
    /// The identity number.
    pub closed spec fn number(self) -> u64 {
        self.0
    }

    /// The identity number.
    pub fn id(self) -> (r: u64)
        ensures
            r == self.number(),
    {
        self.0
    }
}

/// What readiness a parked request waits for.
#[derive(Clone, Copy, Debug, PartialEq, Eq, Structural)]
pub enum Interest {
    Read,
    Write,
}

/// A socket or a listener.
pub enum Resource<S, L> {
    Socket(S),
    Listener(L),
}

/// A borrowed descriptor to wait on.
pub enum Source<'a, S, L> {
    Socket(&'a S),
    Listener(&'a L),
}

/// One descriptor and the readiness it waits for.
pub struct Registration<'a, S, L> {
    pub source: Source<'a, S, L>,
    pub interest: Interest,
}

impl<S, L> Resource<S, L> {
    /// The socket, or an error for a listener.
    pub fn socket(&self) -> (r: Result<&S, String>)
        ensures
            match self {
                Resource::Socket(s) => r == Ok::<&S, String>(s),
                Resource::Listener(_) => r is Err,
            },
    {
        match self {
            Resource::Socket(s) => Ok(s),
            Resource::Listener(_) => Err("expected a native socket".to_owned()),
        }
    }

    /// The listener, or an error for a socket.
    pub fn listener(&self) -> (r: Result<&L, String>)
        ensures
            match self {
                Resource::Listener(l) => r == Ok::<&L, String>(l),
                Resource::Socket(_) => r is Err,
            },
    {
        match self {
            Resource::Listener(l) => Ok(l),
            Resource::Socket(_) => Err("expected a native listener".to_owned()),
        }
    }

    /// The descriptor to wait on.
    pub fn source(&self) -> (r: Source<'_, S, L>)
        ensures
            match self {
                Resource::Socket(s) => r == Source::<'_, S, L>::Socket(s),
                Resource::Listener(l) => r == Source::<'_, S, L>::Listener(l),
            },
    {
        match self {
            Resource::Socket(s) => Source::Socket(s),
            Resource::Listener(l) => Source::Listener(l),
        }
    }
}

/// A network operation waiting for readiness.
pub enum Operation {
    Connect,
    Accept,
    Send { data: Vec<u8>, offset: usize },
    Recv { max: u32 },
    SendTo { host: Vec<u8>, port: u32, data: Vec<u8> },
    RecvFrom { max: u32 },
}

/// The readiness an operation waits for: writing for connects and sends.
pub open spec fn spec_interest(op: Operation) -> Interest {
    match op {
        Operation::Connect => Interest::Write,
        Operation::Send { .. } => Interest::Write,
        Operation::SendTo { .. } => Interest::Write,
        _ => Interest::Read,
    }
}

/// The bytes an operation holds or may receive.
pub open spec fn op_bytes(op: Operation) -> nat {
    match op {
        Operation::Connect => 0,
        Operation::Accept => 0,
        Operation::Send { data, .. } => data@.len(),
        Operation::SendTo { host, data, .. } => host@.len() + data@.len(),
        Operation::Recv { max } => max as nat,
        Operation::RecvFrom { max } => max as nat,
    }
}

impl Operation {
    pub fn interest(&self) -> (r: Interest)
        ensures
            r == spec_interest(*self),
    {
        match self {
            Operation::Connect => Interest::Write,
            Operation::Send { .. } => Interest::Write,
            Operation::SendTo { .. } => Interest::Write,
            _ => Interest::Read,
        }
    }

    /// The bytes this operation holds, as far as a `usize` counts.
    pub fn bytes(&self) -> (r: usize)
        ensures
            r == if op_bytes(*self) <= usize::MAX { op_bytes(*self) } else { usize::MAX as nat },
    {
        match self {
            Operation::Connect => 0,
            Operation::Accept => 0,
            Operation::Send { data, .. } => data.len(),
            Operation::SendTo { host, data, .. } => match host.len().checked_add(data.len()) {
                Some(n) => n,
                None => usize::MAX,
            },
            Operation::Recv { max } => *max as usize,
            Operation::RecvFrom { max } => *max as usize,
        }
    }
}

/// A parked request: the descriptor it took out of the table (and the
/// identity to return it under), its continuation and its operation.
pub struct Request<S, L> {
    pub resource: Resource<S, L>,
    pub handle: Option<Handle>,
    pub continuation: ThunkId,
    pub operation: Operation,
}

/// The bytes all parked requests hold.
pub open spec fn pending_bytes<S, L>(p: Seq<(u64, Request<S, L>)>) -> nat
    decreases p.len(),
{
    if p.len() == 0 {
        0
    } else {
        pending_bytes(p.drop_last()) + op_bytes(p.last().1.operation)
    }
}

proof fn lemma_pending_bytes_add<S, L>(a: Seq<(u64, Request<S, L>)>, b: Seq<(u64, Request<S, L>)>)
    ensures
        pending_bytes(a + b) == pending_bytes(a) + pending_bytes(b),
    decreases b.len(),
{
    if b.len() > 0 {
        lemma_pending_bytes_add(a, b.drop_last());
        assert((a + b).drop_last() =~= a + b.drop_last());
    } else {
        assert(a + b =~= a);
    }
}

proof fn lemma_pending_bytes_insert<S, L>(p: Seq<(u64, Request<S, L>)>, i: int, x: (u64, Request<S, L>))
    requires
        0 <= i <= p.len(),
    ensures
        pending_bytes(p.insert(i, x)) == pending_bytes(p) + op_bytes(x.1.operation),
{
    let one = seq![x];
    assert(one.drop_last() =~= Seq::<(u64, Request<S, L>)>::empty());
    assert(pending_bytes(one.drop_last()) == 0);
    assert(pending_bytes(one) == op_bytes(x.1.operation));
    lemma_pending_bytes_add(p.take(i), one);
    lemma_pending_bytes_add(p.take(i) + one, p.skip(i));
    lemma_pending_bytes_add(p.take(i), p.skip(i));
    assert(p.insert(i, x) =~= p.take(i) + one + p.skip(i));
    assert(p =~= p.take(i) + p.skip(i));
}

proof fn lemma_pending_bytes_remove<S, L>(p: Seq<(u64, Request<S, L>)>, i: int)
    requires
        0 <= i < p.len(),
    ensures
        pending_bytes(p.remove(i)) + op_bytes(p[i].1.operation) == pending_bytes(p),
{
    lemma_pending_bytes_insert(p.remove(i), i, p[i]);
    assert(p.remove(i).insert(i, p[i]) =~= p);
}

/// The continuations of the parked requests, in registration order.
pub open spec fn pending_roots<S, L>(p: Seq<(u64, Request<S, L>)>) -> Seq<ThunkId> {
    p.map_values(|e: (u64, Request<S, L>)| e.1.continuation)
}

/// The registration numbers of the parked requests.
pub open spec fn orders<S, L>(p: Seq<(u64, Request<S, L>)>) -> Seq<u64> {
    p.map_values(|e: (u64, Request<S, L>)| e.0)
}

/// The descriptor table and the parked requests, ordered by registration.
pub struct State<S, L> {
    pub resources: BTreeMap<u64, Resource<S, L>>,
    pub pending: Vec<(u64, Request<S, L>)>,
    pub next: u64,
    pub retained_bytes: usize,
}

impl<S, L> State<S, L> {
    /// Parked requests are in rising registration order, the retained byte
    /// count is theirs and within budget, and the aggregate count is too.
    pub open spec fn wf(&self) -> bool {
        &&& forall|i: int, j: int| 0 <= i < j < self.pending@.len() ==> self.pending@[i].0 < self.pending@[j].0
        &&& self.retained_bytes == pending_bytes(self.pending@)
        &&& self.retained_bytes <= RETAINED_BYTES
        &&& self.resources@.len() + self.pending@.len() <= ARENA_LIMIT
    }

    /// An empty table.
    pub fn new() -> (r: State<S, L>)
        ensures
            r.wf(),
            r.resources@ == Map::<u64, Resource<S, L>>::empty(),
            r.pending@.len() == 0,
            r.next == 0,
    {
        State { resources: BTreeMap::new(), pending: Vec::new(), next: 0, retained_bytes: 0 }
    }

    /// Hold a new descriptor under the next identity. The identity is spent
    /// even when the table then refuses the descriptor.
    pub fn insert(&mut self, resource: Resource<S, L>) -> (r: Result<Handle, String>)
        requires
            old(self).wf(),
        ensures
            final(self).wf(),
            final(self).pending@ == old(self).pending@,
            old(self).next == u64::MAX ==> r is Err && final(self).resources@ == old(self).resources@ && final(self).next == old(self).next,
            old(self).next < u64::MAX ==> final(self).next == old(self).next + 1,
            old(self).next < u64::MAX && (old(self).resources@.len() + old(self).pending@.len() >= ARENA_LIMIT
                || old(self).resources@.contains_key(old(self).next)) ==> r is Err && final(self).resources@ == old(self).resources@,
            old(self).next < u64::MAX && old(self).resources@.len() + old(self).pending@.len() < ARENA_LIMIT
                && !old(self).resources@.contains_key(old(self).next) ==> (r matches Ok(h) && h.number() == old(self).next && final(self).resources@ == old(self).resources@.insert(old(self).next, resource)),
    {
        let id = self.next;
        match id.checked_add(1) {
            Some(next) => {
                self.next = next;
            },
            None => {
                return Err("native network handle identity exhausted".to_owned());
            },
        }
        let handle = Handle(id);
        match self.restore(handle, resource) {
            Ok(()) => Ok(handle),
            Err(e) => Err(e),
        }
    }

    /// Return a descriptor that an operation took out.
    pub fn restore(&mut self, handle: Handle, resource: Resource<S, L>) -> (r: Result<(), String>)
        requires
            old(self).wf(),
        ensures
            final(self).wf(),
            final(self).pending@ == old(self).pending@,
            final(self).next == old(self).next,
            r is Err <==> old(self).resources@.len() + old(self).pending@.len() >= ARENA_LIMIT
                || old(self).resources@.contains_key(handle.number()),
            r is Err ==> final(self).resources@ == old(self).resources@,
            r is Ok ==> final(self).resources@ == old(self).resources@.insert(handle.number(), resource),
    {
        if self.resources.len() >= ARENA_LIMIT || self.pending.len() >= ARENA_LIMIT - self.resources.len() {
            return Err("native network handle budget exhausted".to_owned());
        }
        if self.resources.contains_key(&handle.0) {
            return Err("native network handle returned twice".to_owned());
        }
        self.resources.insert(handle.0, resource);
        Ok(())
    }

    /// Take a descriptor out of the table for an operation.
    pub fn take(&mut self, handle: Handle) -> (r: Result<Resource<S, L>, String>)
        requires
            old(self).wf(),
        ensures
            final(self).wf(),
            final(self).pending@ == old(self).pending@,
            final(self).next == old(self).next,
            old(self).resources@.contains_key(handle.number()) ==> r == Ok::<Resource<S, L>, String>(
                old(self).resources@[handle.number()],
            ) && final(self).resources@ == old(self).resources@.remove(handle.number()),
            !old(self).resources@.contains_key(handle.number()) ==> r is Err && final(self).resources@ == old(self).resources@,
    {
        match self.resources.remove(&handle.0) {
            Some(resource) => Ok(resource),
            None => Err("native network handle is closed or belongs to a pending operation".to_owned()),
        }
    }

    /// Park a request under its registration number.
    pub fn park(&mut self, order: u64, request: Request<S, L>) -> (r: Result<(), String>)
        requires
            old(self).wf(),
        ensures
            final(self).wf(),
            final(self).resources@ == old(self).resources@,
            final(self).next == old(self).next,
            r is Err <==> old(self).resources@.len() + old(self).pending@.len() >= ARENA_LIMIT || old(self).retained_bytes + op_bytes(request.operation) > RETAINED_BYTES || orders(old(self).pending@).contains(
                order,
            ),
            r is Err ==> final(self).pending@ == old(self).pending@ && final(self).retained_bytes == old(self).retained_bytes,
            r is Ok ==> final(self).retained_bytes == old(self).retained_bytes + op_bytes(request.operation)
                && exists|i: int|
                0 <= i <= old(self).pending@.len() && final(self).pending@ == old(self).pending@.insert(
                    i,
                    (order, request),
                ),
    {
        if self.pending.len() >= ARENA_LIMIT || self.resources.len() >= ARENA_LIMIT - self.pending.len() {
            return Err("native network wait budget exhausted".to_owned());
        }
        let bytes = match self.retained_bytes.checked_add(request.operation.bytes()) {
            Some(b) => b,
            None => {
                return Err("native network buffer budget exhausted".to_owned());
            },
        };
        if bytes > RETAINED_BYTES {
            return Err("native network buffer budget exhausted".to_owned());
        }
        let mut i: usize = 0;
        let mut hi: usize = self.pending.len();
        while i < hi
            invariant
                i <= hi <= self.pending@.len(),
                forall|k: int| 0 <= k < i ==> self.pending@[k].0 < order,
                forall|k: int| hi <= k < self.pending@.len() ==> self.pending@[k].0 >= order,
                forall|a: int, b: int| 0 <= a < b < self.pending@.len() ==> self.pending@[a].0 < self.pending@[b].0,
            decreases hi - i,
        {
            let mid = i + (hi - i) / 2;
            if self.pending[mid].0 < order {
                proof {
                    assert forall|k: int| 0 <= k < mid + 1 implies self.pending@[k].0 < order by {
                        if k < mid {
                            assert(self.pending@[k].0 < self.pending@[mid as int].0);
                        }
                    }
                }
                i = mid + 1;
            } else {
                proof {
                    assert forall|k: int| mid <= k < self.pending@.len() implies self.pending@[k].0 >= order by {
                        if k > mid {
                            assert(self.pending@[mid as int].0 < self.pending@[k].0);
                        }
                    }
                }
                hi = mid;
            }
        }
        if i < self.pending.len() && self.pending[i].0 == order {
            proof {
                assert(orders(self.pending@)[i as int] == order);
            }
            return Err("duplicate native network wait identity".to_owned());
        }
        proof {
            assert(!orders(self.pending@).contains(order)) by {
                if orders(self.pending@).contains(order) {
                    let k = choose|k: int| 0 <= k < self.pending@.len() && orders(self.pending@)[k] == order;
                    if k >= i {
                        assert(self.pending@[i as int].0 > order);
                        if k > i {
                            assert(self.pending@[i as int].0 < self.pending@[k].0);
                        }
                    }
                }
            }
            lemma_pending_bytes_insert(self.pending@, i as int, (order, request));
        }
        self.pending.insert(i, (order, request));
        self.retained_bytes = bytes;
        Ok(())
    }

    /// Take the request parked under `order` off the waiting list.
    pub fn take_pending(&mut self, order: u64) -> (r: Result<Request<S, L>, String>)
        requires
            old(self).wf(),
        ensures
            final(self).wf(),
            final(self).resources@ == old(self).resources@,
            final(self).next == old(self).next,
            !orders(old(self).pending@).contains(order) ==> r is Err && final(self).pending@ == old(self).pending@,
            orders(old(self).pending@).contains(order) ==> exists|i: int|
                0 <= i < old(self).pending@.len() && old(self).pending@[i].0 == order && r == Ok::<
                    Request<S, L>,
                    String,
                >(old(self).pending@[i].1) && final(self).pending@ == old(self).pending@.remove(i)
                    && final(self).retained_bytes == old(self).retained_bytes - op_bytes(old(self).pending@[i].1.operation),
    {
        let mut i: usize = 0;
        let mut found = false;
        while i < self.pending.len()
            invariant_except_break
                !found,
            invariant
                i <= self.pending@.len(),
                forall|k: int| 0 <= k < i ==> self.pending@[k].0 != order,
            ensures
                found ==> i < self.pending@.len() && self.pending@[i as int].0 == order,
                !found ==> i == self.pending@.len() && forall|k: int| 0 <= k < i ==> self.pending@[k].0 != order,
            decreases self.pending@.len() - i,
        {
            if self.pending[i].0 == order {
                found = true;
                break;
            }
            i = i + 1;
        }
        if found {
            proof {
                assert(orders(self.pending@)[i as int] == order);
                lemma_pending_bytes_remove(self.pending@, i as int);
            }
            let (_, request) = self.pending.remove(i);
            let bytes = request.operation.bytes();
            self.retained_bytes = self.retained_bytes - bytes;
            proof {
                assert forall|a: int, b: int| 0 <= a < b < self.pending@.len() implies self.pending@[a].0
                    < self.pending@[b].0 by {
                    if a >= i {
                        assert(self.pending@[a] == old(self).pending@[a + 1]);
                    }
                    if b >= i {
                        assert(self.pending@[b] == old(self).pending@[b + 1]);
                    }
                }
            }
            return Ok(request);
        }
        proof {
            assert(!orders(self.pending@).contains(order)) by {
                if orders(self.pending@).contains(order) {
                    let k = choose|k: int| 0 <= k < self.pending@.len() && orders(self.pending@)[k] == order;
                    assert(self.pending@[k].0 == order);
                }
            }
        }
        Err("missing native network wait".to_owned())
    }

    /// What to wait on: every parked request's descriptor and interest in
    /// registration order, then the wake socket if there is one.
    pub fn registrations<'a>(&'a self, wake: Option<&'a S>) -> (r: Vec<Registration<'a, S, L>>)
        ensures
            r@.len() == self.pending@.len() + if wake is Some { 1int } else { 0int },
            forall|k: int| 0 <= k < self.pending@.len() ==> (#[trigger] r@[k]).interest == spec_interest(
                self.pending@[k].1.operation,
            ),
            wake matches Some(w) ==> r@.last().source == Source::<'a, S, L>::Socket(w) && r@.last().interest
                == Interest::Read,
    {
        let mut out: Vec<Registration<'a, S, L>> = Vec::new();
        let mut i: usize = 0;
        while i < self.pending.len()
            invariant
                i <= self.pending@.len(),
                out@.len() == i,
                forall|k: int| 0 <= k < i ==> (#[trigger] out@[k]).interest == spec_interest(
                    self.pending@[k].1.operation,
                ),
            decreases self.pending@.len() - i,
        {
            let request = &self.pending[i].1;
            out.push(Registration { source: request.resource.source(), interest: request.operation.interest() });
            i = i + 1;
        }
        if let Some(w) = wake {
            out.push(Registration { source: Source::Socket(w), interest: Interest::Read });
        }
        out
    }

    /// The registration numbers of the parked requests that `ready` marks,
    /// in registration order; `ready` must answer every registration,
    /// including the wake socket (whose answer is not a request's).
    pub fn ready_orders(&self, ready: &Vec<bool>, wake: bool) -> (r: Result<Vec<u64>, String>)
        ensures
            r is Err <==> ready@.len() != self.pending@.len() + if wake { 1int } else { 0int },
            r matches Ok(v) ==> v@ == ready_filter(self.pending@, ready@),
    {
        let given = ready.len();
        let expected = if wake {
            if self.pending.len() == usize::MAX {
                return Err("native poll returned invalid readiness count".to_owned());
            }
            self.pending.len() + 1
        } else {
            self.pending.len()
        };
        if given != expected {
            return Err("native poll returned invalid readiness count".to_owned());
        }
        let mut out: Vec<u64> = Vec::new();
        let mut i: usize = 0;
        while i < self.pending.len()
            invariant
                i <= self.pending@.len(),
                ready@.len() >= self.pending@.len(),
                out@ == ready_filter(self.pending@.take(i as int), ready@),
            decreases self.pending@.len() - i,
        {
            proof {
                assert(self.pending@.take(i + 1).drop_last() =~= self.pending@.take(i as int));
            }
            if ready[i] {
                out.push(self.pending[i].0);
            }
            i = i + 1;
        }
        proof {
            assert(self.pending@.take(i as int) =~= self.pending@);
        }
        Ok(out)
    }

    /// Whether a request is parked.
    pub fn has_pending(&self) -> (r: bool)
        ensures
            r == (self.pending@.len() > 0),
    {
        self.pending.len() > 0
    }

    /// Whether nothing is held, parked or retained.
    pub fn is_empty(&self) -> (r: bool)
        ensures
            r == (self.resources@.len() == 0 && self.pending@.len() == 0 && self.retained_bytes == 0),
    {
        self.resources.is_empty() && self.pending.len() == 0 && self.retained_bytes == 0
    }

    /// The continuations the parked requests keep alive, in registration order.
    pub fn roots(&self) -> (r: Vec<ThunkId>)
        ensures
            r@ == pending_roots(self.pending@),
    {
        let mut out: Vec<ThunkId> = Vec::new();
        let mut i: usize = 0;
        while i < self.pending.len()
            invariant
                i <= self.pending@.len(),
                out@ == pending_roots(self.pending@.take(i as int)),
            decreases self.pending@.len() - i,
        {
            out.push(self.pending[i].1.continuation);
            proof {
                assert(pending_roots(self.pending@.take(i + 1)) =~= pending_roots(self.pending@.take(i as int)).push(
                    self.pending@[i as int].1.continuation,
                ));
            }
            i = i + 1;
        }
        proof {
            assert(self.pending@.take(i as int) =~= self.pending@);
        }
        out
    }

    /// Visit the continuations the parked requests keep alive, stopping at
    /// the first error.
    pub fn visit_roots<V: RootVisitor>(&self, visitor: &mut V) -> (r: Result<(), String>)
        ensures
            (pending_roots(self.pending@)).len() == 0 ==> r is Ok,
    {
        let roots = self.roots();
        visit_each(&roots, visitor)
    }
}

/// A network request of a program, its arguments already read.
pub enum NetworkRequest {
    Listen { port: u32 },
    Bind { port: u32 },
    Connect { host: Vec<u8>, port: u32 },
    Accept { listener: Handle },
    Recv { socket: Handle, max: u32 },
    RecvFrom { socket: Handle, max: u32 },
    Send { socket: Handle, data: Vec<u8> },
    SendTo { socket: Handle, host: Vec<u8>, port: u32, data: Vec<u8> },
    Poll { socket: Handle, max: u32 },
    Close { handle: Handle, listener: bool },
}

/// What the host does next for a network request.
pub enum NetworkAction<S, L> {
    /// Open a TCP listener on the port and hold it with `insert`.
    Listen { port: u32 },
    /// Bind a UDP socket to the port and hold it with `insert`.
    Bind { port: u32 },
    /// Start a TCP connection: hold it with `insert` once connected, or park
    /// it under `Operation::Connect` while it is pending.
    Connect { host: Vec<u8>, port: u32 },
    /// Register the request and try it once its descriptor is ready.
    Park(Request<S, L>),
    /// Try the request's operation now, parking it if it would wait.
    Advance(Request<S, L>),
    /// Receive one datagram if one is ready, then `restore` the socket.
    Poll { socket: Handle, resource: Resource<S, L>, max: u32 },
    /// The descriptor was dropped: answer with unit.
    Closed,
}

/// Whether the table holds a descriptor of the expected kind under `h`.
pub open spec fn holds<S, L>(resources: Map<u64, Resource<S, L>>, h: Handle, listener: bool) -> bool {
    &&& resources.contains_key(h.number())
    &&& (resources[h.number()] is Listener) == listener
}

/// A request made of its parts.
pub open spec fn request_of<S, L>(resource: Resource<S, L>, handle: Option<Handle>, continuation: ThunkId, operation: Operation) -> Request<S, L> {
    Request { resource, handle, continuation, operation }
}

/// A receive of `max` bytes fits one transfer.
pub open spec fn transfer_fits(max: u32) -> bool {
    max as int <= TRANSFER_BYTES
}

/// The descriptor under `h` leaves the table for an operation, or the
/// request is refused (`None`) and the table stays.
pub open spec fn take_then<S, L>(
    resources: Map<u64, Resource<S, L>>,
    h: Handle,
    listener: bool,
    action: spec_fn(Resource<S, L>) -> NetworkAction<S, L>,
) -> (Option<NetworkAction<S, L>>, Map<u64, Resource<S, L>>) {
    if holds(resources, h, listener) {
        (Some(action(resources[h.number()])), resources.remove(h.number()))
    } else {
        (None, resources)
    }
}

/// The decision for a network request on the descriptor table: the action
/// for the host (`None` for a refusal) and the table afterwards.
pub open spec fn spec_network_step<S, L>(
    resources: Map<u64, Resource<S, L>>,
    request: NetworkRequest,
    continuation: ThunkId,
) -> (Option<NetworkAction<S, L>>, Map<u64, Resource<S, L>>) {
    match request {
        NetworkRequest::Listen { port } => (Some(NetworkAction::Listen { port }), resources),
        NetworkRequest::Bind { port } => (Some(NetworkAction::Bind { port }), resources),
        NetworkRequest::Connect { host, port } => (Some(NetworkAction::Connect { host, port }), resources),
        NetworkRequest::Accept { listener } => take_then(resources, listener, true, |r: Resource<S, L>|
            NetworkAction::Park(request_of(r, Some(listener), continuation, Operation::Accept))),
        NetworkRequest::Recv { socket, max } => if transfer_fits(max) {
            take_then(resources, socket, false, |r: Resource<S, L>|
                NetworkAction::Park(request_of(r, Some(socket), continuation, Operation::Recv { max })))
        } else {
            (None, resources)
        },
        NetworkRequest::RecvFrom { socket, max } => if transfer_fits(max) {
            take_then(resources, socket, false, |r: Resource<S, L>|
                NetworkAction::Park(request_of(r, Some(socket), continuation, Operation::RecvFrom { max })))
        } else {
            (None, resources)
        },
        NetworkRequest::Send { socket, data } => take_then(resources, socket, false, |r: Resource<S, L>|
            NetworkAction::Advance(request_of(r, Some(socket), continuation, Operation::Send { data, offset: 0 }))),
        NetworkRequest::SendTo { socket, host, port, data } => take_then(resources, socket, false, |r: Resource<S, L>|
            NetworkAction::Advance(request_of(r, Some(socket), continuation, Operation::SendTo { host, port, data }))),
        NetworkRequest::Poll { socket, max } => if transfer_fits(max) {
            take_then(resources, socket, false, |r: Resource<S, L>| NetworkAction::Poll { socket, resource: r, max })
        } else {
            (None, resources)
        },
        NetworkRequest::Close { handle, listener } => take_then(resources, handle, listener, |r: Resource<S, L>|
            NetworkAction::Closed),
    }
}

impl<S, L> State<S, L> {
    /// Take the descriptor under `handle` out of the table if it is of the
    /// expected kind; otherwise leave the table as it was.
    pub fn take_kind(&mut self, handle: Handle, listener: bool) -> (r: Result<Resource<S, L>, String>)
        requires
            old(self).wf(),
        ensures
            final(self).wf(),
            final(self).pending@ == old(self).pending@,
            final(self).next == old(self).next,
            holds(old(self).resources@, handle, listener) ==> r == Ok::<Resource<S, L>, String>(old(self).resources@[handle.number()])
                && final(self).resources@ == old(self).resources@.remove(handle.number()),
            !holds(old(self).resources@, handle, listener) ==> r is Err && final(self).resources@ == old(self).resources@,
    {
        let resource = self.take(handle)?;
        let is_listener = match &resource {
            Resource::Listener(_) => true,
            Resource::Socket(_) => false,
        };
        if is_listener != listener {
            let restored = self.restore(handle, resource);
            proof {
                assert(restored is Ok);
                assert(self.resources@ =~= old(self).resources@);
            }
            return Err("expected a sealed native socket/listener handle".to_owned());
        }
        Ok(resource)
    }
}

/// Decide a network request: refuse it, or take its descriptor out of the
/// table and say what the host does next. Listening, binding and connecting
/// are the host's to do first; receives park at once; sends are tried at
/// once; a poll takes the socket for one try; a close drops the descriptor.
pub fn network_step<S, L>(table: &mut State<S, L>, request: NetworkRequest, continuation: ThunkId) -> (r: Result<NetworkAction<S, L>, String>)
    requires
        old(table).wf(),
    ensures
        final(table).wf(),
        final(table).pending@ == old(table).pending@,
        final(table).next == old(table).next,
        final(table).resources@ == spec_network_step(old(table).resources@, request, continuation).1,
        match spec_network_step(old(table).resources@, request, continuation).0 {
            Some(action) => r == Ok::<NetworkAction<S, L>, String>(action),
            None => r is Err,
        },
{
    let ghost resources = table.resources@;
    match request {
        NetworkRequest::Listen { port } => Ok(NetworkAction::Listen { port }),
        NetworkRequest::Bind { port } => Ok(NetworkAction::Bind { port }),
        NetworkRequest::Connect { host, port } => Ok(NetworkAction::Connect { host, port }),
        NetworkRequest::Accept { listener } => {
            let resource = table.take_kind(listener, true)?;
            Ok(NetworkAction::Park(Request { resource, handle: Some(listener), continuation, operation: Operation::Accept }))
        },
        NetworkRequest::Recv { socket, max } => {
            if max as usize > TRANSFER_BYTES {
                return Err("native file read exceeds byte budget".to_owned());
            }
            let resource = table.take_kind(socket, false)?;
            Ok(NetworkAction::Park(Request { resource, handle: Some(socket), continuation, operation: Operation::Recv { max } }))
        },
        NetworkRequest::RecvFrom { socket, max } => {
            if max as usize > TRANSFER_BYTES {
                return Err("native file read exceeds byte budget".to_owned());
            }
            let resource = table.take_kind(socket, false)?;
            Ok(NetworkAction::Park(Request { resource, handle: Some(socket), continuation, operation: Operation::RecvFrom { max } }))
        },
        NetworkRequest::Send { socket, data } => {
            let resource = table.take_kind(socket, false)?;
            Ok(NetworkAction::Advance(Request { resource, handle: Some(socket), continuation, operation: Operation::Send { data, offset: 0 } }))
        },
        NetworkRequest::SendTo { socket, host, port, data } => {
            let resource = table.take_kind(socket, false)?;
            Ok(NetworkAction::Advance(Request { resource, handle: Some(socket), continuation, operation: Operation::SendTo { host, port, data } }))
        },
        NetworkRequest::Poll { socket, max } => {
            if max as usize > TRANSFER_BYTES {
                return Err("native file read exceeds byte budget".to_owned());
            }
            let resource = table.take_kind(socket, false)?;
            Ok(NetworkAction::Poll { socket, resource, max })
        },
        NetworkRequest::Close { handle, listener } => {
            let _dropped = table.take_kind(handle, listener)?;
            Ok(NetworkAction::Closed)
        },
    }
}

/// What one try to send the rest of a TCP buffer did.
#[derive(Debug)]
pub enum SendOutcome {
    /// The socket would block.
    Wait,
    /// This many bytes were sent.
    Sent(usize),
    /// The send failed.
    Failed(Failure),
}

/// What follows one try of a TCP send.
#[derive(Debug)]
pub enum SendNext {
    /// Park the request until the socket can be written.
    Park,
    /// Try again from this offset (all is sent once it reaches the end).
    Continue(usize),
    /// Answer the send with this failure.
    Failed(Failure),
}

/// Decide what follows one try of a TCP send that had sent `offset` of
/// `total` bytes: a send that makes no progress, or claims more than was
/// left, is refused.
pub fn send_progress(total: usize, offset: usize, outcome: SendOutcome) -> (r: Result<SendNext, String>)
    requires
        offset < total,
    ensures
        outcome is Wait ==> r matches Ok(SendNext::Park),
        outcome matches SendOutcome::Sent(c) ==> (0 < c <= total - offset ==> (r matches Ok(SendNext::Continue(n)) && n == offset + c)),
        outcome matches SendOutcome::Sent(c) && (c == 0 || c > total - offset) ==> r is Err,
        outcome matches SendOutcome::Failed(f) ==> (r matches Ok(SendNext::Failed(g)) && g == f),
{
    match outcome {
        SendOutcome::Wait => Ok(SendNext::Park),
        SendOutcome::Sent(count) => {
            if count == 0 {
                return Err("native TCP send made no progress".to_owned());
            }
            if count > total - offset {
                return Err("native TCP send returned an invalid count".to_owned());
            }
            Ok(SendNext::Continue(offset + count))
        },
        SendOutcome::Failed(f) => Ok(SendNext::Failed(f)),
    }
}

/// The registration numbers of the requests whose readiness is `true`.
pub open spec fn ready_filter<S, L>(p: Seq<(u64, Request<S, L>)>, ready: Seq<bool>) -> Seq<u64>
    decreases p.len(),
{
    if p.len() == 0 {
        Seq::empty()
    } else {
        let rest = ready_filter(p.drop_last(), ready);
        if ready[p.len() - 1] {
            rest.push(p.last().0)
        } else {
            rest
        }
    }
}

/// A request parked under a fresh registration number is the one that
/// `take_pending` finds under that number: taking it back leaves the
/// waiting list and the retained byte count as they were before `park`.
pub proof fn law_park_then_take_pending<S, L>(
    p: Seq<(u64, Request<S, L>)>,
    i: int,
    order: u64,
    request: Request<S, L>,
    j: int,
)
    requires
        0 <= i <= p.len(),
        !orders(p).contains(order),
        0 <= j < p.len() + 1,
        p.insert(i, (order, request))[j].0 == order,
    ensures
        j == i,
        p.insert(i, (order, request))[j].1 == request,
        p.insert(i, (order, request)).remove(j) == p,
        pending_bytes(p.insert(i, (order, request))) - op_bytes(request.operation) == pending_bytes(p),
{
    let q = p.insert(i, (order, request));
    if j < i {
        assert(q[j] == p[j]);
        assert(orders(p)[j] == order);
    } else if j > i {
        assert(q[j] == p[j - 1]);
        assert(orders(p)[j - 1] == order);
    }
    assert(q.remove(j) =~= p);
    lemma_pending_bytes_insert(p, i, (order, request));
}

/// The dot-separated fields of a byte string (one empty field for no bytes).
pub open spec fn fields(s: Seq<u8>) -> Seq<Seq<u8>>
    decreases s.len(),
{
    if s.len() == 0 {
        seq![Seq::empty()]
    } else {
        let f = fields(s.drop_last());
        if s.last() == 46u8 {
            f.push(Seq::empty())
        } else {
            f.update(f.len() - 1, f.last().push(s.last()))
        }
    }
}

/// The value of a string of decimal digits.
pub open spec fn digits_value(s: Seq<u8>) -> nat
    decreases s.len(),
{
    if s.len() == 0 {
        0
    } else {
        digits_value(s.drop_last()) * 10 + (s.last() - 48) as nat
    }
}

/// One to three decimal digits, without a leading zero, at most 255.
pub open spec fn canonical_octet(c: Seq<u8>) -> bool {
    &&& 1 <= c.len() <= 3
    &&& !(c.len() > 1 && c[0] == 48u8)
    &&& forall|k: int| 0 <= k < c.len() ==> 48u8 <= #[trigger] c[k] <= 57u8
    &&& digits_value(c) <= 255
}

/// A dotted-quad IPv4 address in canonical decimal.
pub open spec fn dotted_quad(host: Seq<u8>) -> bool {
    &&& fields(host).len() == 4
    &&& forall|k: int| 0 <= k < 4 ==> canonical_octet(#[trigger] fields(host)[k])
}

proof fn lemma_fields_nonempty(s: Seq<u8>)
    ensures
        fields(s).len() >= 1,
    decreases s.len(),
{
    if s.len() > 0 {
        lemma_fields_nonempty(s.drop_last());
    }
}

/// The fields completed in a prefix are fields of the whole string.
proof fn lemma_fields_prefix(s: Seq<u8>, n: int)
    requires
        0 <= n <= s.len(),
    ensures
        fields(s).len() >= fields(s.take(n)).len(),
        forall|k: int| 0 <= k < fields(s.take(n)).len() - 1 ==> #[trigger] fields(s)[k] == fields(s.take(n))[k],
    decreases s.len(),
{
    if n < s.len() {
        lemma_fields_prefix(s.drop_last(), n);
        assert(s.drop_last().take(n) =~= s.take(n));
        lemma_fields_nonempty(s.drop_last());
    } else {
        assert(s.take(n) =~= s);
    }
}

/// The value of `host[start..end]` if it is a canonical octet.
fn octet(host: &[u8], start: usize, end: usize) -> (r: Option<u8>)
    requires
        start <= end <= host@.len(),
    ensures
        r is Some <==> canonical_octet(host@.subrange(start as int, end as int)),
        r matches Some(v) ==> v == digits_value(host@.subrange(start as int, end as int)),
{
    let ghost c = host@.subrange(start as int, end as int);
    let len = end - start;
    if len == 0 || len > 3 || (len > 1 && host[start] == 48u8) {
        return None;
    }
    let mut value: u16 = 0;
    let mut k: usize = start;
    while k < end
        invariant
            start <= k <= end,
            end <= host@.len(),
            end - start <= 3,
            c == host@.subrange(start as int, end as int),
            forall|j: int| start <= j < k ==> 48u8 <= #[trigger] host@[j] <= 57u8,
            value == digits_value(host@.subrange(start as int, k as int)),
            k - start == 0 ==> value == 0,
            k - start == 1 ==> value <= 9,
            k - start == 2 ==> value <= 99,
            value <= 999,
        decreases end - k,
    {
        let b = host[k];
        if b < 48u8 || b > 57u8 {
            proof {
                assert(c[k - start] == b);
            }
            return None;
        }
        proof {
            assert(host@.subrange(start as int, k + 1).drop_last() =~= host@.subrange(start as int, k as int));
        }
        value = value * 10 + (b - 48u8) as u16;
        k = k + 1;
    }
    proof {
        assert(host@.subrange(start as int, k as int) =~= c);
        assert forall|j: int| 0 <= j < c.len() implies 48u8 <= #[trigger] c[j] <= 57u8 by {
            assert(c[j] == host@[start + j]);
        }
    }
    if value > 255 {
        return None;
    }
    Some(value as u8)
}

/// Read a dotted-quad IPv4 address and a port; anything else (a name, a
/// short or long form, a leading zero, a sign or a space, a port above
/// 65535) is the host's invalid-argument error.
pub fn address(host: &[u8], port: u32, codes: Codes) -> (r: Result<([u8; 4], u16), Failure>)
    ensures
        r is Ok <==> port <= 65535 && dotted_quad(host@),
        r matches Ok((octets, p)) ==> p == port && forall|k: int| 0 <= k < 4 ==> octets@[k] == digits_value(
            #[trigger] fields(host@)[k],
        ),
        r matches Err(e) ==> e == Failure::Io(codes.invalid),
{
    if port > 65535 {
        return Err(Failure::Io(codes.invalid));
    }
    let mut octets: [u8; 4] = [0u8; 4];
    let mut count: usize = 0;
    let mut start: usize = 0;
    let mut i: usize = 0;
    proof {
        assert(host@.take(0) =~= Seq::<u8>::empty());
        assert(host@.subrange(0, 0) =~= Seq::<u8>::empty());
    }
    while i < host.len()
        invariant
            start <= i <= host@.len(),
            count <= 3,
            fields(host@.take(i as int)).len() == count + 1,
            fields(host@.take(i as int)).last() == host@.subrange(start as int, i as int),
            forall|k: int| 0 <= k < count ==> canonical_octet(#[trigger] fields(host@.take(i as int))[k])
                && octets@[k] == digits_value(fields(host@.take(i as int))[k]),
        decreases host@.len() - i,
    {
        proof {
            assert(host@.take(i + 1).drop_last() =~= host@.take(i as int));
            lemma_fields_nonempty(host@.take(i as int));
        }
        if host[i] == 46u8 {
            let field = octet(host, start, i);
            proof {
                lemma_fields_prefix(host@, i + 1);
            }
            match field {
                Some(v) => {
                    if count == 3 {
                        return Err(Failure::Io(codes.invalid));
                    }
                    octets[count] = v;
                    count = count + 1;
                    start = i + 1;
                    proof {
                        assert(host@.subrange(start as int, i + 1) =~= Seq::<u8>::empty());
                    }
                },
                None => {
                    proof {
                        assert(fields(host@)[count as int] == host@.subrange(start as int, i as int));
                    }
                    return Err(Failure::Io(codes.invalid));
                },
            }
        } else {
            proof {
                assert(host@.subrange(start as int, i + 1) =~= host@.subrange(start as int, i as int).push(host@[i as int]));
            }
        }
        i = i + 1;
    }
    proof {
        assert(host@.take(i as int) =~= host@);
    }
    if count != 3 {
        return Err(Failure::Io(codes.invalid));
    }
    match octet(host, start, host.len()) {
        Some(v) => {
            octets[3] = v;
        },
        None => {
            return Err(Failure::Io(codes.invalid));
        },
    }
    Ok((octets, port as u16))
}

} // verus!
