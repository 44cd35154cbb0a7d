//! Bounded, nonmoving reclamation at committed evaluator transitions only.
use crate::machine::{
    charge, env_ok, frame_ok, frames_ok, thunk_ok, value_ok, Cancellation, EnvId, Environment,
    Frame, Machine, RuntimeError, Thunk, ThunkId, Value, ARENA_LIMIT,
};
use vstd::prelude::*;

verus! {

/// Slots kept free for one transition's allocations.
pub const RESERVE: usize = 8_192;

/// Allocations after which a collection may run.
pub const COLLECTION_DEBT: usize = 8_192;

// ---------------------------------------------------------------------------
// The reference graph of the arenas.
// ---------------------------------------------------------------------------

/// Thunk `j` is referenced by the value `v`.
pub open spec fn value_thunk_edge(v: Value, j: int) -> bool {
    match v {
        Value::Constructor { fields, .. } => exists|k: int| 0 <= k < fields@.len() && fields@[k] == j,
        Value::Match { arm, fallback, .. } => j == arm || j == fallback,
        Value::Numeric { arguments, .. } => exists|k: int| 0 <= k < arguments@.len() && arguments@[k] == j,
        Value::Natural { arguments, .. } => exists|k: int| 0 <= k < arguments@.len() && arguments@[k] == j,
        _ => false,
    }
}

/// Thunk `j` is referenced by the slot content `t`.
pub open spec fn thunk_edge(t: Thunk, j: int) -> bool {
    match t {
        Thunk::Application(f, a) => j == f || j == a,
        Thunk::Ready(v) => value_thunk_edge(v, j),
        _ => false,
    }
}

/// Environment `e` is referenced by the slot content `t`.
pub open spec fn thunk_env_edge(t: Thunk, e: int) -> bool {
    match t {
        Thunk::Expression(_, env) => e == env,
        Thunk::Ready(Value::Closure { environment, .. }) => e == environment,
        _ => false,
    }
}

/// Thunk `j` is bound in environment `env`.
pub open spec fn env_thunk_edge(env: Environment, j: int) -> bool {
    exists|k: int| 0 <= k < env.bindings@.len() && env.bindings@[k].1 == j
}

/// Environment `e` is the parent of `env`.
pub open spec fn env_env_edge(env: Environment, e: int) -> bool {
    env.parent matches Some(p) && p == e
}

/// The sets `mt` (thunks) and `me` (environments) name slots in use whose
/// references all stay inside the sets.
pub open spec fn closed(
    arena: Seq<Option<Thunk>>,
    envs: Seq<Option<Environment>>,
    mt: Set<int>,
    me: Set<int>,
) -> bool {
    &&& forall|i: int| #[trigger] mt.contains(i) ==> {
        &&& 0 <= i < arena.len()
        &&& arena[i] is Some
        &&& forall|j: int| #[trigger] thunk_edge(arena[i]->0, j) ==> mt.contains(j)
        &&& forall|e: int| #[trigger] thunk_env_edge(arena[i]->0, e) ==> me.contains(e)
    }
    &&& forall|e: int| #[trigger] me.contains(e) ==> {
        &&& 0 <= e < envs.len()
        &&& envs[e] is Some
        &&& forall|j: int| #[trigger] env_thunk_edge(envs[e]->0, j) ==> mt.contains(j)
        &&& forall|f: int| #[trigger] env_env_edge(envs[e]->0, f) ==> me.contains(f)
    }
}

/// Thunk `i` is named by a continuation.
pub open spec fn frame_names(f: Frame, i: int) -> bool {
    match f {
        Frame::Update(j) => i == j,
        Frame::Apply(j) => i == j,
        Frame::Match { arm, fallback, argument, .. } => i == arm || i == fallback || i == argument,
        Frame::Numeric(state) => exists|k: int| 0 <= k < state.arguments@.len() && state.arguments@[k] == i,
        Frame::Natural(state) => exists|k: int| 0 <= k < state.arguments@.len() && state.arguments@[k] == i,
    }
}

impl<'p> Machine<'p> {
    /// Thunk `i` is a root of a collection started at `current` under `frames`.
    pub open spec fn is_thunk_root(&self, current: ThunkId, frames: Seq<Frame>, i: int) -> bool {
        ||| i == current
        ||| exists|k: int| 0 <= k < frames.len() && frame_names(frames[k], i)
        ||| exists|k: int| 0 <= k < self.globals@.len() && self.globals@[k].1 == i
        ||| exists|k: int| 0 <= k < self.gc.roots@.len() && self.gc.roots@[k] == i
    }

    /// The sets contain every root: the root environment and all root thunks.
    pub open spec fn roots_in(&self, current: ThunkId, frames: Seq<Frame>, mt: Set<int>, me: Set<int>) -> bool {
        &&& me.contains(0)
        &&& forall|i: int| self.is_thunk_root(current, frames, i) ==> #[trigger] mt.contains(i)
    }

    /// `self` differs from `old` only by slots emptied outside some closed set
    /// of slots that contains every root: no slot reachable from a root is freed,
    /// and no slot's content changes.
    pub open spec fn reclaims_only_garbage(&self, old: &Machine<'p>, current: ThunkId, frames: Seq<Frame>) -> bool {
        &&& self.arena@.len() == old.arena@.len()
        &&& self.environments@.len() == old.environments@.len()
        &&& forall|i: int| 0 <= i < self.arena@.len() ==> (#[trigger] self.arena@[i] == old.arena@[i] || self.arena@[i] is None)
        &&& forall|e: int| 0 <= e < self.environments@.len() ==> (#[trigger] self.environments@[e] == old.environments@[e] || self.environments@[e] is None)
        &&& ((self.arena@ == old.arena@ && self.environments@ == old.environments@) || exists|mt: Set<int>, me: Set<int>| {
            &&& old.roots_in(current, frames, mt, me)
            &&& closed(old.arena@, old.environments@, mt, me)
            &&& forall|i: int| #[trigger] mt.contains(i) ==> self.arena@[i] == old.arena@[i]
            &&& forall|e: int| #[trigger] me.contains(e) ==> self.environments@[e] == old.environments@[e]
        })
    }
}

/// The ways a collection can stop: a signal, the step budget, or a root or
/// reference that names no slot in use.
pub open spec fn collection_error(e: RuntimeError) -> bool {
    ||| e is Cancelled
    ||| e is StepBudget
    ||| e is InvalidThunkRoot
    ||| e is InvalidEnvironmentRoot
    ||| e is VacantThunkRoot
    ||| e is VacantEnvironmentRoot
}

/// A slot awaiting the tracing of its references.
pub enum Node {
    Thunk(ThunkId),
    Environment(EnvId),
}

/// The mark bits of both arenas and the work list of marked, untraced slots.
pub struct Marks {
    pub thunks: Vec<bool>,
    pub environments: Vec<bool>,
    pub pending: Vec<Node>,
}

pub open spec fn pending_thunk(m: Marks, i: int) -> bool {
    exists|k: int| 0 <= k < m.pending@.len() && m.pending@[k] == Node::Thunk(i as usize)
}

pub open spec fn pending_env(m: Marks, e: int) -> bool {
    exists|k: int| 0 <= k < m.pending@.len() && m.pending@[k] == Node::Environment(e as usize)
}

/// Every reference of thunk slot `i` is marked.
pub open spec fn traced_thunk(m: Marks, arena: Seq<Option<Thunk>>, i: int) -> bool {
    &&& arena[i] is Some
    &&& forall|j: int| #[trigger] thunk_edge(arena[i]->0, j) ==> 0 <= j < m.thunks@.len() && m.thunks@[j]
    &&& forall|e: int| #[trigger] thunk_env_edge(arena[i]->0, e) ==> 0 <= e < m.environments@.len() && m.environments@[e]
}

/// Every reference of environment slot `e` is marked.
pub open spec fn traced_env(m: Marks, envs: Seq<Option<Environment>>, e: int) -> bool {
    &&& envs[e] is Some
    &&& forall|j: int| #[trigger] env_thunk_edge(envs[e]->0, j) ==> 0 <= j < m.thunks@.len() && m.thunks@[j]
    &&& forall|f: int| #[trigger] env_env_edge(envs[e]->0, f) ==> 0 <= f < m.environments@.len() && m.environments@[f]
}

/// Mark bits cover both arenas, pending slots are marked, and every marked
/// slot that is no longer pending has all of its references marked.
pub open spec fn marks_inv(m: Marks, arena: Seq<Option<Thunk>>, envs: Seq<Option<Environment>>) -> bool {
    marks_inv_except(m, arena, envs, None)
}

/// The mark invariant, except that the slot `skip` (being traced) may still
/// have unmarked references.
pub open spec fn marks_inv_except(m: Marks, arena: Seq<Option<Thunk>>, envs: Seq<Option<Environment>>, skip: Option<Node>) -> bool {
    &&& m.thunks@.len() == arena.len()
    &&& m.environments@.len() == envs.len()
    &&& forall|k: int| 0 <= k < m.pending@.len() ==> match #[trigger] m.pending@[k] {
        Node::Thunk(i) => i < arena.len() && m.thunks@[i as int],
        Node::Environment(e) => e < envs.len() && m.environments@[e as int],
    }
    &&& forall|i: int| 0 <= i < arena.len() && #[trigger] m.thunks@[i] && !pending_thunk(m, i) && skip != Some(Node::Thunk(i as usize)) ==> traced_thunk(m, arena, i)
    &&& forall|e: int| 0 <= e < envs.len() && #[trigger] m.environments@[e] && !pending_env(m, e) && skip != Some(Node::Environment(e as usize)) ==> traced_env(m, envs, e)
}

/// Marks only accumulate.
pub open spec fn marks_grow(new: Marks, old: Marks) -> bool {
    &&& new.thunks@.len() == old.thunks@.len()
    &&& new.environments@.len() == old.environments@.len()
    &&& forall|i: int| 0 <= i < old.thunks@.len() && #[trigger] old.thunks@[i] ==> new.thunks@[i]
    &&& forall|e: int| 0 <= e < old.environments@.len() && #[trigger] old.environments@[e] ==> new.environments@[e]
}

proof fn lemma_traced_grow(old: Marks, new: Marks, arena: Seq<Option<Thunk>>, envs: Seq<Option<Environment>>, i: int, e: int)
    requires
        marks_grow(new, old),
    ensures
        traced_thunk(old, arena, i) ==> traced_thunk(new, arena, i),
        traced_env(old, envs, e) ==> traced_env(new, envs, e),
{
    assert(new.thunks@.len() == old.thunks@.len());
    assert(new.environments@.len() == old.environments@.len());
    if traced_thunk(old, arena, i) {
        assert forall|j: int| #[trigger] thunk_edge(arena[i]->0, j) implies 0 <= j < new.thunks@.len() && new.thunks@[j] by {
            assert(0 <= j < old.thunks@.len() && old.thunks@[j]);
        }
        assert forall|f: int| #[trigger] thunk_env_edge(arena[i]->0, f) implies 0 <= f < new.environments@.len() && new.environments@[f] by {
            assert(0 <= f < old.environments@.len() && old.environments@[f]);
        }
    }
    if traced_env(old, envs, e) {
        assert forall|j: int| #[trigger] env_thunk_edge(envs[e]->0, j) implies 0 <= j < new.thunks@.len() && new.thunks@[j] by {
            assert(0 <= j < old.thunks@.len() && old.thunks@[j]);
        }
        assert forall|f: int| #[trigger] env_env_edge(envs[e]->0, f) implies 0 <= f < new.environments@.len() && new.environments@[f] by {
            assert(0 <= f < old.environments@.len() && old.environments@[f]);
        }
    }
}

/// Mark thunk `id` and queue it for tracing, unless it is already marked.
pub fn mark_thunk(
    m: &mut Marks,
    remaining: &mut usize,
    cancelled: Option<&dyn Cancellation>,
    id: ThunkId,
    Ghost(arena): Ghost<Seq<Option<Thunk>>>,
    Ghost(envs): Ghost<Seq<Option<Environment>>>,
    Ghost(skip): Ghost<Option<Node>>,
) -> (r: Result<(), RuntimeError>)
    requires
        marks_inv_except(*old(m), arena, envs, skip),
    ensures
        marks_inv_except(*final(m), arena, envs, skip),
        marks_grow(*final(m), *old(m)),
        *final(remaining) <= *old(remaining),
        r is Ok ==> id < arena.len() && final(m).thunks@[id as int],
        r is Err ==> r == Err::<(), RuntimeError>(RuntimeError::Cancelled) || r == Err::<(), RuntimeError>(RuntimeError::StepBudget)
            || r == Err::<(), RuntimeError>(RuntimeError::InvalidThunkRoot),
        r == Err::<(), RuntimeError>(RuntimeError::Cancelled) ==> cancelled is Some,
{
    charge(remaining, cancelled)?;
    if id >= m.thunks.len() {
        return Err(RuntimeError::InvalidThunkRoot);
    }
    if !m.thunks[id] {
        let ghost prior = *m;
        m.thunks.set(id, true);
        m.pending.push(Node::Thunk(id));
        proof {
            let n = *m;
            assert(pending_thunk(n, id as int)) by {
                assert(n.pending@[n.pending@.len() - 1] == Node::Thunk(id));
            }
            assert forall|i: int| 0 <= i < arena.len() && #[trigger] n.thunks@[i] && !pending_thunk(n, i) && skip != Some(Node::Thunk(i as usize)) implies traced_thunk(n, arena, i) by {
                assert(i != id);
                assert(prior.thunks@[i]);
                if pending_thunk(prior, i) {
                    let k = choose|k: int| 0 <= k < prior.pending@.len() && prior.pending@[k] == Node::Thunk(i as usize);
                    assert(n.pending@[k] == prior.pending@[k]);
                }
                assert(traced_thunk(prior, arena, i));
                lemma_traced_grow(prior, n, arena, envs, i, 0);
            }
            assert forall|e: int| 0 <= e < envs.len() && #[trigger] n.environments@[e] && !pending_env(n, e) && skip != Some(Node::Environment(e as usize)) implies traced_env(n, envs, e) by {
                if pending_env(prior, e) {
                    let k = choose|k: int| 0 <= k < prior.pending@.len() && prior.pending@[k] == Node::Environment(e as usize);
                    assert(n.pending@[k] == prior.pending@[k]);
                }
                assert(traced_env(prior, envs, e));
                lemma_traced_grow(prior, n, arena, envs, 0, e);
            }
            assert forall|k: int| 0 <= k < n.pending@.len() implies match #[trigger] n.pending@[k] {
                Node::Thunk(i) => i < arena.len() && n.thunks@[i as int],
                Node::Environment(e) => e < envs.len() && n.environments@[e as int],
            } by {
                if k < prior.pending@.len() {
                    assert(n.pending@[k] == prior.pending@[k]);
                }
            }
        }
    }
    Ok(())
}

/// Mark every thunk of a list.
pub fn mark_thunks(
    m: &mut Marks,
    remaining: &mut usize,
    cancelled: Option<&dyn Cancellation>,
    ids: &Vec<ThunkId>,
    Ghost(arena): Ghost<Seq<Option<Thunk>>>,
    Ghost(envs): Ghost<Seq<Option<Environment>>>,
    Ghost(skip): Ghost<Option<Node>>,
) -> (r: Result<(), RuntimeError>)
    requires
        marks_inv_except(*old(m), arena, envs, skip),
    ensures
        marks_inv_except(*final(m), arena, envs, skip),
        marks_grow(*final(m), *old(m)),
        *final(remaining) <= *old(remaining),
        r is Ok ==> forall|j: int| 0 <= j < ids@.len() ==> ids@[j] < arena.len() && final(m).thunks@[#[trigger] ids@[j] as int],
        r is Err ==> r == Err::<(), RuntimeError>(RuntimeError::Cancelled) || r == Err::<(), RuntimeError>(RuntimeError::StepBudget)
            || r == Err::<(), RuntimeError>(RuntimeError::InvalidThunkRoot),
        r == Err::<(), RuntimeError>(RuntimeError::Cancelled) ==> cancelled is Some,
{
    let ghost start = *m;
    let mut k: usize = 0;
    while k < ids.len()
        invariant
            k <= ids@.len(),
            marks_inv_except(*m, arena, envs, skip),
            marks_grow(*m, start),
            start == *old(m),
            *remaining <= *old(remaining),
            forall|j: int| 0 <= j < k ==> ids@[j] < arena.len() && m.thunks@[#[trigger] ids@[j] as int],
        decreases ids@.len() - k,
    {
        let ghost before = *m;
        mark_thunk(m, remaining, cancelled, ids[k], Ghost(arena), Ghost(envs), Ghost(skip))?;
        proof {
            lemma_grow_trans(*m, before, start);
            assert forall|j: int| 0 <= j < k + 1 implies ids@[j] < arena.len() && m.thunks@[#[trigger] ids@[j] as int] by {
                if j < k {
                    assert(before.thunks@[ids@[j] as int]);
                }
            }
        }
        k = k + 1;
    }
    Ok(())
}

/// Mark environment `id` and queue it for tracing, unless it is already marked.
pub fn mark_environment(
    m: &mut Marks,
    remaining: &mut usize,
    cancelled: Option<&dyn Cancellation>,
    id: EnvId,
    Ghost(arena): Ghost<Seq<Option<Thunk>>>,
    Ghost(envs): Ghost<Seq<Option<Environment>>>,
    Ghost(skip): Ghost<Option<Node>>,
) -> (r: Result<(), RuntimeError>)
    requires
        marks_inv_except(*old(m), arena, envs, skip),
    ensures
        marks_inv_except(*final(m), arena, envs, skip),
        marks_grow(*final(m), *old(m)),
        *final(remaining) <= *old(remaining),
        r is Ok ==> id < envs.len() && final(m).environments@[id as int],
        r is Err ==> r == Err::<(), RuntimeError>(RuntimeError::Cancelled) || r == Err::<(), RuntimeError>(RuntimeError::StepBudget)
            || r == Err::<(), RuntimeError>(RuntimeError::InvalidEnvironmentRoot),
        r == Err::<(), RuntimeError>(RuntimeError::Cancelled) ==> cancelled is Some,
{
    charge(remaining, cancelled)?;
    if id >= m.environments.len() {
        return Err(RuntimeError::InvalidEnvironmentRoot);
    }
    if !m.environments[id] {
        let ghost prior = *m;
        m.environments.set(id, true);
        m.pending.push(Node::Environment(id));
        proof {
            let n = *m;
            assert(pending_env(n, id as int)) by {
                assert(n.pending@[n.pending@.len() - 1] == Node::Environment(id));
            }
            assert forall|i: int| 0 <= i < arena.len() && #[trigger] n.thunks@[i] && !pending_thunk(n, i) && skip != Some(Node::Thunk(i as usize)) implies traced_thunk(n, arena, i) by {
                if pending_thunk(prior, i) {
                    let k = choose|k: int| 0 <= k < prior.pending@.len() && prior.pending@[k] == Node::Thunk(i as usize);
                    assert(n.pending@[k] == prior.pending@[k]);
                }
                assert(traced_thunk(prior, arena, i));
                lemma_traced_grow(prior, n, arena, envs, i, 0);
            }
            assert forall|e: int| 0 <= e < envs.len() && #[trigger] n.environments@[e] && !pending_env(n, e) && skip != Some(Node::Environment(e as usize)) implies traced_env(n, envs, e) by {
                assert(e != id);
                assert(prior.environments@[e]);
                if pending_env(prior, e) {
                    let k = choose|k: int| 0 <= k < prior.pending@.len() && prior.pending@[k] == Node::Environment(e as usize);
                    assert(n.pending@[k] == prior.pending@[k]);
                }
                assert(traced_env(prior, envs, e));
                lemma_traced_grow(prior, n, arena, envs, 0, e);
            }
            assert forall|k: int| 0 <= k < n.pending@.len() implies match #[trigger] n.pending@[k] {
                Node::Thunk(i) => i < arena.len() && n.thunks@[i as int],
                Node::Environment(e) => e < envs.len() && n.environments@[e as int],
            } by {
                if k < prior.pending@.len() {
                    assert(n.pending@[k] == prior.pending@[k]);
                }
            }
        }
    }
    Ok(())
}

proof fn lemma_grow_trans(c: Marks, b: Marks, a: Marks)
    requires
        marks_grow(c, b),
        marks_grow(b, a),
    ensures
        marks_grow(c, a),
{
    assert forall|i: int| 0 <= i < a.thunks@.len() && #[trigger] a.thunks@[i] implies c.thunks@[i] by {
        assert(b.thunks@[i]);
    }
    assert forall|e: int| 0 <= e < a.environments@.len() && #[trigger] a.environments@[e] implies c.environments@[e] by {
        assert(b.environments@[e]);
    }
}

/// Mark every reference of thunk slot `i`, which was just taken off the work list.
pub fn trace_thunk(
    m: &mut Marks,
    remaining: &mut usize,
    cancelled: Option<&dyn Cancellation>,
    i: ThunkId,
    arena: &Vec<Option<Thunk>>,
    envs: &Vec<Option<Environment>>,
) -> (r: Result<(), RuntimeError>)
    requires
        marks_inv_except(*old(m), arena@, envs@, Some(Node::Thunk(i))),
        i < arena@.len(),
        old(m).thunks@[i as int],
    ensures
        r is Ok ==> marks_grow(*final(m), *old(m)),
        *final(remaining) <= *old(remaining),
        r is Ok ==> marks_inv(*final(m), arena@, envs@),
        arena@[i as int] is None ==> r == Err::<(), RuntimeError>(RuntimeError::VacantThunkRoot),
        arena@[i as int] == Some(Thunk::Evaluating) ==> r is Ok && *final(m) == *old(m),
        r matches Err(e) ==> collection_error(e),
        r == Err::<(), RuntimeError>(RuntimeError::Cancelled) ==> cancelled is Some,
{
    let ghost a = arena@;
    let ghost e = envs@;
    let ghost skip = Some(Node::Thunk(i));
    let ghost start = *m;
    assert(a.len() == arena.len() && e.len() == envs.len());
    match &arena[i] {
        None => {
            return Err(RuntimeError::VacantThunkRoot);
        },
        Some(Thunk::Expression(_, env)) => {
            mark_environment(m, remaining, cancelled, *env, Ghost(a), Ghost(e), Ghost(skip))?;
        },
        Some(Thunk::Application(f, x)) => {
            mark_thunk(m, remaining, cancelled, *f, Ghost(a), Ghost(e), Ghost(skip))?;
            let ghost mid = *m;
            mark_thunk(m, remaining, cancelled, *x, Ghost(a), Ghost(e), Ghost(skip))?;
            proof {
                lemma_grow_trans(*m, mid, start);
                assert(mid.thunks@[*f as int]);
            }
        },
        Some(Thunk::Ready(value)) => match value {
            Value::Constructor { fields, .. } => {
                let mut k: usize = 0;
                while k < fields.len()
                    invariant
                        k <= fields@.len(),
                        marks_inv_except(*m, a, e, skip),
                        marks_grow(*m, start),
                        *remaining <= *old(remaining),
                        forall|j: int| 0 <= j < k ==> fields@[j] < m.thunks@.len() && m.thunks@[#[trigger] fields@[j] as int],
                        arena@[i as int] is Some && arena@[i as int] != Some(Thunk::Evaluating),
                    decreases fields@.len() - k,
                {
                    let ghost before = *m;
                    mark_thunk(m, remaining, cancelled, fields[k], Ghost(a), Ghost(e), Ghost(skip))?;
                    proof {
                        lemma_grow_trans(*m, before, start);
                        assert forall|j: int| 0 <= j < k + 1 implies fields@[j] < m.thunks@.len() && m.thunks@[#[trigger] fields@[j] as int] by {
                            if j < k {
                                assert(before.thunks@[fields@[j] as int]);
                            }
                        }
                    }
                    k = k + 1;
                }
            },
            Value::Closure { environment, .. } => {
                mark_environment(m, remaining, cancelled, *environment, Ghost(a), Ghost(e), Ghost(skip))?;
            },
            Value::Numeric { arguments, .. } => {
                mark_thunks(m, remaining, cancelled, arguments, Ghost(a), Ghost(e), Ghost(skip))?;
            },
            Value::Natural { arguments, .. } => {
                mark_thunks(m, remaining, cancelled, arguments, Ghost(a), Ghost(e), Ghost(skip))?;
            },
            Value::Match { arm, fallback, .. } => {
                mark_thunk(m, remaining, cancelled, *arm, Ghost(a), Ghost(e), Ghost(skip))?;
                let ghost mid = *m;
                mark_thunk(m, remaining, cancelled, *fallback, Ghost(a), Ghost(e), Ghost(skip))?;
                proof {
                    lemma_grow_trans(*m, mid, start);
                    assert(mid.thunks@[*arm as int]);
                }
            },
            _ => {},
        },
        Some(Thunk::Evaluating) => {},
    }
    proof {
        let n = *m;
        assert(n.thunks@[i as int]);
        assert(traced_thunk(n, a, i as int));
        assert forall|x: int| 0 <= x < a.len() && #[trigger] n.thunks@[x] && !pending_thunk(n, x) && None::<Node> != Some(Node::Thunk(x as usize)) implies traced_thunk(n, a, x) by {
            if x != i {
                assert(skip != Some(Node::Thunk(x as usize)));
            }
        }
    }
    Ok(())
}

/// Mark every reference of environment slot `id`, which was just taken off the work list.
pub fn trace_environment(
    m: &mut Marks,
    remaining: &mut usize,
    cancelled: Option<&dyn Cancellation>,
    id: EnvId,
    arena: &Vec<Option<Thunk>>,
    envs: &Vec<Option<Environment>>,
) -> (r: Result<(), RuntimeError>)
    requires
        marks_inv_except(*old(m), arena@, envs@, Some(Node::Environment(id))),
        id < envs@.len(),
        old(m).environments@[id as int],
    ensures
        r is Ok ==> marks_grow(*final(m), *old(m)),
        *final(remaining) <= *old(remaining),
        r is Ok ==> marks_inv(*final(m), arena@, envs@),
        envs@[id as int] is None ==> r == Err::<(), RuntimeError>(RuntimeError::VacantEnvironmentRoot),
        r matches Err(e) ==> collection_error(e),
        r == Err::<(), RuntimeError>(RuntimeError::Cancelled) ==> cancelled is Some,
{
    let ghost a = arena@;
    let ghost e = envs@;
    let ghost skip = Some(Node::Environment(id));
    let ghost start = *m;
    assert(a.len() == arena.len() && e.len() == envs.len());
    match &envs[id] {
        None => {
            return Err(RuntimeError::VacantEnvironmentRoot);
        },
        Some(environment) => {
            if let Some(parent) = environment.parent {
                mark_environment(m, remaining, cancelled, parent, Ghost(a), Ghost(e), Ghost(skip))?;
            }
            let ghost after_parent = *m;
            let mut k: usize = 0;
            while k < environment.bindings.len()
                invariant
                    k <= environment.bindings@.len(),
                    marks_inv_except(*m, a, e, skip),
                    marks_grow(*m, after_parent),
                    marks_grow(*m, start),
                    *remaining <= *old(remaining),
                    forall|j: int| 0 <= j < k ==> environment.bindings@[j].1 < m.thunks@.len() && m.thunks@[#[trigger] environment.bindings@[j].1 as int],
                    envs@[id as int] == Some(*environment),
                decreases environment.bindings@.len() - k,
            {
                let ghost before = *m;
                mark_thunk(m, remaining, cancelled, environment.bindings[k].1, Ghost(a), Ghost(e), Ghost(skip))?;
                proof {
                    lemma_grow_trans(*m, before, start);
                    lemma_grow_trans(*m, before, after_parent);
                    assert forall|j: int| 0 <= j < k + 1 implies environment.bindings@[j].1 < m.thunks@.len() && m.thunks@[#[trigger] environment.bindings@[j].1 as int] by {
                        if j < k {
                            assert(before.thunks@[environment.bindings@[j].1 as int]);
                        }
                    }
                }
                k = k + 1;
            }
            proof {
                let n = *m;
                if let Some(parent) = environment.parent {
                    assert(after_parent.environments@[parent as int]);
                }
                assert forall|j: int| #[trigger] env_thunk_edge(*environment, j) implies 0 <= j < n.thunks@.len() && n.thunks@[j] by {
                    let w = choose|w: int| 0 <= w < environment.bindings@.len() && environment.bindings@[w].1 == j;
                    assert(n.thunks@[environment.bindings@[w].1 as int]);
                }
                assert(traced_env(n, e, id as int));
            }
        },
    }
    proof {
        let n = *m;
        assert(n.environments@[id as int]);
        assert(traced_env(n, e, id as int));
        assert forall|x: int| 0 <= x < e.len() && #[trigger] n.environments@[x] && !pending_env(n, x) && None::<Node> != Some(Node::Environment(x as usize)) implies traced_env(n, e, x) by {
            if x != id {
                assert(skip != Some(Node::Environment(x as usize)));
            }
        }
    }
    Ok(())
}

/// The thunk slots in use.
pub open spec fn live_thunks(arena: Seq<Option<Thunk>>) -> Set<int> {
    Set::new(|i: int| 0 <= i < arena.len() && arena[i] is Some)
}

/// The environment slots in use.
pub open spec fn live_envs(envs: Seq<Option<Environment>>) -> Set<int> {
    Set::new(|e: int| 0 <= e < envs.len() && envs[e] is Some)
}

pub open spec fn marked_thunks(m: Marks) -> Set<int> {
    Set::new(|i: int| 0 <= i < m.thunks@.len() && m.thunks@[i])
}

pub open spec fn marked_envs(m: Marks) -> Set<int> {
    Set::new(|e: int| 0 <= e < m.environments@.len() && m.environments@[e])
}

/// A vector of `n` cleared mark bits.
fn cleared(n: usize) -> (r: Vec<bool>)
    ensures
        r@.len() == n,
        forall|i: int| 0 <= i < n ==> !#[trigger] r@[i],
{
    let mut v: Vec<bool> = Vec::new();
    let mut i: usize = 0;
    while i < n
        invariant
            i <= n,
            v@.len() == i,
            forall|j: int| 0 <= j < i ==> !#[trigger] v@[j],
        decreases n - i,
    {
        v.push(false);
        i = i + 1;
    }
    v
}

impl<'p> Machine<'p> {
    /// The machine context other than the arenas, free lists and step budget is kept.
    pub open spec fn gc_context(&self, old: &Machine<'p>) -> bool {
        &&& self.program == old.program
        &&& self.cancelled == old.cancelled
        &&& self.globals == old.globals
        &&& self.gc.roots == old.gc.roots
        &&& self.output_nodes == old.output_nodes
        &&& self.remaining <= old.remaining
    }

    /// Mark every slot reachable from the roots and free every other slot.
    /// An interrupted collection frees only unreachable slots and keeps both
    /// free lists consistent, so a later collection can complete the work.
    pub fn collect(&mut self, current: ThunkId, frames: &Vec<Frame>) -> (r: Result<(), RuntimeError>)
        requires
            old(self).wf(),
        ensures
            final(self).wf(),
            final(self).gc_context(old(self)),
            final(self).reclaims_only_garbage(old(self), current, frames@),
            r is Ok ==> {
                &&& final(self).roots_in(current, frames@, live_thunks(final(self).arena@), live_envs(final(self).environments@))
                &&& closed(final(self).arena@, final(self).environments@, live_thunks(final(self).arena@), live_envs(final(self).environments@))
                &&& forall|i: int| 0 <= i < final(self).arena@.len() ==> (final(self).arena@[i] is None <==> #[trigger] final(self).gc.free_thunks@.contains(i as usize))
                &&& forall|e: int| 0 < e < final(self).environments@.len() ==> (final(self).environments@[e] is None <==> #[trigger] final(self).gc.free_environments@.contains(e as usize))
                &&& final(self).gc.allocation_debt == 0
                &&& final(self).gc.collections == old(self).gc.collections + 1 || old(self).gc.collections == usize::MAX
            },
            r matches Err(e) ==> collection_error(e),
            r == Err::<(), RuntimeError>(RuntimeError::Cancelled) ==> old(self).cancelled is Some,
    {
        let nt = self.arena.len();
        let ne = self.environments.len();
        let ghost a = self.arena@;
        let ghost e = self.environments@;
        let mut marks = Marks { thunks: cleared(nt), environments: cleared(ne), pending: Vec::new() };
        let ghost none: Option<Node> = None;
        proof {
            assert(marks_inv(marks, a, e));
        }
        // Roots.
        mark_thunk(&mut marks, &mut self.remaining, self.cancelled, current, Ghost(a), Ghost(e), Ghost(None))?;
        mark_environment(&mut marks, &mut self.remaining, self.cancelled, 0, Ghost(a), Ghost(e), Ghost(None))?;
        let mut k: usize = 0;
        while k < frames.len()
            invariant
                self.wf(),
                self.arena@ == a,
                self.environments@ == e,
                a == old(self).arena@,
                e == old(self).environments@,
                self.gc == old(self).gc,
                self.program == old(self).program,
                self.cancelled == old(self).cancelled,
                self.globals == old(self).globals,
                self.output_nodes == old(self).output_nodes,
                self.remaining <= old(self).remaining,
                marks_inv(marks, a, e),
                k <= frames@.len(),
                current < a.len(),
                marks.thunks@[current as int],
                marks.environments@[0],
                forall|j: int, i: int| 0 <= j < k && #[trigger] frame_names(frames@[j], i) ==> 0 <= i < a.len() && marks.thunks@[i],
            decreases frames@.len() - k,
        {
            let ghost before = marks;
            match &frames[k] {
                Frame::Update(i) | Frame::Apply(i) => {
                    mark_thunk(&mut marks, &mut self.remaining, self.cancelled, *i, Ghost(a), Ghost(e), Ghost(None))?;
                },
                Frame::Numeric(state) => {
                    mark_thunks(&mut marks, &mut self.remaining, self.cancelled, &state.arguments, Ghost(a), Ghost(e), Ghost(None))?;
                },
                Frame::Natural(state) => {
                    mark_thunks(&mut marks, &mut self.remaining, self.cancelled, &state.arguments, Ghost(a), Ghost(e), Ghost(None))?;
                },
                Frame::Match { arm, fallback, argument, .. } => {
                    mark_thunk(&mut marks, &mut self.remaining, self.cancelled, *arm, Ghost(a), Ghost(e), Ghost(None))?;
                    let ghost m1 = marks;
                    mark_thunk(&mut marks, &mut self.remaining, self.cancelled, *fallback, Ghost(a), Ghost(e), Ghost(None))?;
                    let ghost m2 = marks;
                    mark_thunk(&mut marks, &mut self.remaining, self.cancelled, *argument, Ghost(a), Ghost(e), Ghost(None))?;
                    proof {
                        lemma_grow_trans(marks, m2, m1);
                        lemma_grow_trans(marks, m1, before);
                        assert(m1.thunks@[*arm as int]);
                        assert(m2.thunks@[*fallback as int]);
                    }
                },
            }
            proof {
                assert(marks_grow(marks, before));
                assert(before.thunks@[current as int]);
                assert(before.environments@[0]);
                assert forall|j: int, i: int| 0 <= j < k + 1 && #[trigger] frame_names(frames@[j], i) implies 0 <= i < a.len() && marks.thunks@[i] by {
                    if j < k {
                        assert(before.thunks@[i]);
                    }
                }
            }
            k = k + 1;
        }
        let ghost after_frames = marks;
        let mut g: usize = 0;
        while g < self.globals.len()
            invariant
                self.wf(),
                self.arena@ == a,
                self.environments@ == e,
                a == old(self).arena@,
                e == old(self).environments@,
                self.gc == old(self).gc,
                self.program == old(self).program,
                self.cancelled == old(self).cancelled,
                self.globals == old(self).globals,
                self.output_nodes == old(self).output_nodes,
                self.remaining <= old(self).remaining,
                marks_inv(marks, a, e),
                marks_grow(marks, after_frames),
                g <= self.globals@.len(),
                forall|j: int| 0 <= j < g ==> marks.thunks@[#[trigger] self.globals@[j].1 as int],
            decreases self.globals@.len() - g,
        {
            let ghost before = marks;
            let id = self.globals[g].1;
            mark_thunk(&mut marks, &mut self.remaining, self.cancelled, id, Ghost(a), Ghost(e), Ghost(None))?;
            proof {
                lemma_grow_trans(marks, before, after_frames);
                assert forall|j: int| 0 <= j < g + 1 implies marks.thunks@[#[trigger] self.globals@[j].1 as int] by {
                    if j < g {
                        assert(before.thunks@[self.globals@[j].1 as int]);
                    }
                }
            }
            g = g + 1;
        }
        let ghost after_globals = marks;
        let mut q: usize = 0;
        while q < self.gc.roots.len()
            invariant
                self.wf(),
                self.arena@ == a,
                self.environments@ == e,
                a == old(self).arena@,
                e == old(self).environments@,
                self.gc == old(self).gc,
                self.program == old(self).program,
                self.cancelled == old(self).cancelled,
                self.globals == old(self).globals,
                self.output_nodes == old(self).output_nodes,
                self.remaining <= old(self).remaining,
                marks_inv(marks, a, e),
                marks_grow(marks, after_globals),
                q <= self.gc.roots@.len(),
                forall|j: int| 0 <= j < q ==> 0 <= self.gc.roots@[j] < a.len() && marks.thunks@[#[trigger] self.gc.roots@[j] as int],
            decreases self.gc.roots@.len() - q,
        {
            let ghost before = marks;
            let id = self.gc.roots[q];
            mark_thunk(&mut marks, &mut self.remaining, self.cancelled, id, Ghost(a), Ghost(e), Ghost(None))?;
            proof {
                lemma_grow_trans(marks, before, after_globals);
                assert forall|j: int| 0 <= j < q + 1 implies 0 <= self.gc.roots@[j] < a.len() && marks.thunks@[#[trigger] self.gc.roots@[j] as int] by {
                    if j < q {
                        assert(before.thunks@[self.gc.roots@[j] as int]);
                    }
                }
            }
            q = q + 1;
        }
        let ghost after_roots = marks;
        proof {
            lemma_grow_trans(marks, after_globals, after_frames);
        }
        // Trace until no marked slot remains untraced.
        while marks.pending.len() > 0
            invariant
                self.wf(),
                self.arena@ == a,
                self.environments@ == e,
                a == old(self).arena@,
                e == old(self).environments@,
                self.gc == old(self).gc,
                self.program == old(self).program,
                self.cancelled == old(self).cancelled,
                self.globals == old(self).globals,
                self.output_nodes == old(self).output_nodes,
                self.remaining <= old(self).remaining,
                marks_inv(marks, a, e),
                marks_grow(marks, after_roots),
            decreases self.remaining,
        {
            let ghost before = marks;
            let node = marks.pending.pop().unwrap();
            charge(&mut self.remaining, self.cancelled)?;
            proof {
                assert(before.pending@[before.pending@.len() - 1] == node);
                let n = marks;
                assert forall|i: int| 0 <= i < a.len() && #[trigger] n.thunks@[i] && !pending_thunk(n, i) && Some(node) != Some(Node::Thunk(i as usize)) implies traced_thunk(n, a, i) by {
                    if pending_thunk(before, i) {
                        let w = choose|w: int| 0 <= w < before.pending@.len() && before.pending@[w] == Node::Thunk(i as usize);
                        if w < n.pending@.len() {
                            assert(n.pending@[w] == before.pending@[w]);
                        }
                    }
                }
                assert forall|x: int| 0 <= x < e.len() && #[trigger] n.environments@[x] && !pending_env(n, x) && Some(node) != Some(Node::Environment(x as usize)) implies traced_env(n, e, x) by {
                    if pending_env(before, x) {
                        let w = choose|w: int| 0 <= w < before.pending@.len() && before.pending@[w] == Node::Environment(x as usize);
                        if w < n.pending@.len() {
                            assert(n.pending@[w] == before.pending@[w]);
                        }
                    }
                }
                assert forall|w: int| 0 <= w < n.pending@.len() implies match #[trigger] n.pending@[w] {
                    Node::Thunk(i) => i < a.len() && n.thunks@[i as int],
                    Node::Environment(x) => x < e.len() && n.environments@[x as int],
                } by {
                    assert(n.pending@[w] == before.pending@[w]);
                }
                assert(marks_inv_except(n, a, e, Some(node)));
            }
            match node {
                Node::Thunk(i) => {
                    trace_thunk(&mut marks, &mut self.remaining, self.cancelled, i, &self.arena, &self.environments)?;
                },
                Node::Environment(x) => {
                    trace_environment(&mut marks, &mut self.remaining, self.cancelled, x, &self.arena, &self.environments)?;
                },
            }
            proof {
                lemma_grow_trans(marks, before, after_roots);
            }
        }
        let ghost mt = marked_thunks(marks);
        let ghost me = marked_envs(marks);
        proof {
            assert forall|i: int| #[trigger] mt.contains(i) implies {
                &&& 0 <= i < a.len()
                &&& a[i] is Some
                &&& forall|j: int| #[trigger] thunk_edge(a[i]->0, j) ==> mt.contains(j)
                &&& forall|x: int| #[trigger] thunk_env_edge(a[i]->0, x) ==> me.contains(x)
            } by {
                assert(!pending_thunk(marks, i));
                assert(traced_thunk(marks, a, i));
            }
            assert forall|x: int| #[trigger] me.contains(x) implies {
                &&& 0 <= x < e.len()
                &&& e[x] is Some
                &&& forall|j: int| #[trigger] env_thunk_edge(e[x]->0, j) ==> mt.contains(j)
                &&& forall|f: int| #[trigger] env_env_edge(e[x]->0, f) ==> me.contains(f)
            } by {
                assert(!pending_env(marks, x));
                assert(traced_env(marks, e, x));
            }
            assert(closed(a, e, mt, me));
            assert forall|i: int| old(self).is_thunk_root(current, frames@, i) implies #[trigger] mt.contains(i) by {
                if exists|j: int| 0 <= j < frames@.len() && frame_names(frames@[j], i) {
                    let j = choose|j: int| 0 <= j < frames@.len() && frame_names(frames@[j], i);
                    assert(after_frames.thunks@[i]);
                } else if exists|j: int| 0 <= j < old(self).globals@.len() && old(self).globals@[j].1 == i {
                    let j = choose|j: int| 0 <= j < old(self).globals@.len() && old(self).globals@[j].1 == i;
                    assert(after_globals.thunks@[old(self).globals@[j].1 as int]);
                } else if exists|j: int| 0 <= j < old(self).gc.roots@.len() && old(self).gc.roots@[j] == i {
                    let j = choose|j: int| 0 <= j < old(self).gc.roots@.len() && old(self).gc.roots@[j] == i;
                    assert(after_roots.thunks@[old(self).gc.roots@[j] as int]);
                }
            }
            assert(old(self).roots_in(current, frames@, mt, me));
        }
        // Sweep thunks.
        self.gc.free_thunks.clear();
        let mut id: usize = 0;
        while id < nt
            invariant
                nt == a.len(),
                id <= nt,
                a == old(self).arena@,
                e == old(self).environments@,
                self.arena@.len() == a.len(),
                self.environments@ == e,
                self.program == old(self).program,
                self.cancelled == old(self).cancelled,
                self.globals == old(self).globals,
                self.gc.roots == old(self).gc.roots,
                self.gc.free_environments == old(self).gc.free_environments,
                self.gc.collections == old(self).gc.collections,
                self.output_nodes == old(self).output_nodes,
                self.remaining <= old(self).remaining,
                old(self).wf(),
                marks.thunks@.len() == nt,
                forall|i: int| 0 <= i < nt ==> (#[trigger] self.arena@[i] == if i < id && !marks.thunks@[i] { None } else { a[i] }),
                forall|k2: int| 0 <= k2 < self.gc.free_thunks@.len() ==> #[trigger] self.gc.free_thunks@[k2] < id && !marks.thunks@[self.gc.free_thunks@[k2] as int],
                forall|i: int| 0 <= i < id && !marks.thunks@[i] ==> #[trigger] self.gc.free_thunks@.contains(i as usize),
                forall|k1: int, k2: int| 0 <= k1 < k2 < self.gc.free_thunks@.len() ==> #[trigger] self.gc.free_thunks@[k1] < #[trigger] self.gc.free_thunks@[k2],
                closed(a, e, mt, me),
                mt == marked_thunks(marks),
                old(self).roots_in(current, frames@, mt, me),
                self.wf(),
            decreases nt - id,
        {
            self.tick()?;
            let ghost prior = self.gc.free_thunks@;
            if !marks.thunks[id] {
                self.arena.set(id, None);
                self.gc.free_thunks.push(id);
            }
            proof {
                let f = self.gc.free_thunks@;
                assert forall|i: int| 0 <= i < id + 1 && !marks.thunks@[i] implies #[trigger] f.contains(i as usize) by {
                    if i == id {
                        assert(f[f.len() - 1] == id);
                    } else {
                        assert(prior.contains(i as usize));
                        let w = choose|w: int| 0 <= w < prior.len() && prior[w] == i as usize;
                        assert(f[w] == prior[w]);
                    }
                }
            }
            id = id + 1;
        }
        // Sweep environments.
        self.gc.free_environments.clear();
        let mut x: usize = 0;
        while x < ne
            invariant
                ne == e.len(),
                x <= ne,
                a == old(self).arena@,
                e == old(self).environments@,
                self.arena@.len() == a.len(),
                forall|i: int| 0 <= i < a.len() ==> (#[trigger] self.arena@[i] == if !marks.thunks@[i] { None } else { a[i] }),
                forall|i: int| 0 <= i < a.len() ==> (self.arena@[i] is None <==> #[trigger] self.gc.free_thunks@.contains(i as usize)),
                self.environments@.len() == e.len(),
                self.gc.collections == old(self).gc.collections,
                self.program == old(self).program,
                self.cancelled == old(self).cancelled,
                self.globals == old(self).globals,
                self.gc.roots == old(self).gc.roots,
                self.output_nodes == old(self).output_nodes,
                self.remaining <= old(self).remaining,
                old(self).wf(),
                marks.environments@.len() == ne,
                marks.environments@[0],
                forall|y: int| 0 <= y < ne ==> (#[trigger] self.environments@[y] == if y < x && !marks.environments@[y] { None } else { e[y] }),
                forall|k2: int| 0 <= k2 < self.gc.free_environments@.len() ==> #[trigger] self.gc.free_environments@[k2] < x && !marks.environments@[self.gc.free_environments@[k2] as int],
                forall|y: int| 0 <= y < x && !marks.environments@[y] ==> #[trigger] self.gc.free_environments@.contains(y as usize),
                forall|k1: int, k2: int| 0 <= k1 < k2 < self.gc.free_environments@.len() ==> #[trigger] self.gc.free_environments@[k1] < #[trigger] self.gc.free_environments@[k2],
                closed(a, e, mt, me),
                mt == marked_thunks(marks),
                me == marked_envs(marks),
                old(self).roots_in(current, frames@, mt, me),
                self.wf(),
            decreases ne - x,
        {
            self.tick()?;
            let ghost prior = self.gc.free_environments@;
            if !marks.environments[x] {
                self.environments.set(x, None);
                self.gc.free_environments.push(x);
            }
            proof {
                let f = self.gc.free_environments@;
                assert forall|y: int| 0 <= y < x + 1 && !marks.environments@[y] implies #[trigger] f.contains(y as usize) by {
                    if y == x {
                        assert(f[f.len() - 1] == x);
                    } else {
                        assert(prior.contains(y as usize));
                        let w = choose|w: int| 0 <= w < prior.len() && prior[w] == y as usize;
                        assert(f[w] == prior[w]);
                    }
                }
            }
            x = x + 1;
        }
        proof {
            assert(live_thunks(self.arena@) =~= mt);
            assert(live_envs(self.environments@) =~= me);
            assert(self.roots_in(current, frames@, mt, me));
            assert(closed(self.arena@, self.environments@, mt, me));
            assert forall|i: int| 0 <= i < self.arena@.len() implies (self.arena@[i] is None <==> #[trigger] self.gc.free_thunks@.contains(i as usize)) by {
                if self.gc.free_thunks@.contains(i as usize) {
                    let w = choose|w: int| 0 <= w < self.gc.free_thunks@.len() && self.gc.free_thunks@[w] == i as usize;
                    assert(!marks.thunks@[i]);
                }
            }
            assert forall|y: int| 0 < y < self.environments@.len() implies (self.environments@[y] is None <==> #[trigger] self.gc.free_environments@.contains(y as usize)) by {
                if self.gc.free_environments@.contains(y as usize) {
                    let w = choose|w: int| 0 <= w < self.gc.free_environments@.len() && self.gc.free_environments@[w] == y as usize;
                    assert(!marks.environments@[y]);
                }
                if self.environments@[y] is None {
                    assert(!marks.environments@[y]);
                }
            }
        }
        self.gc.allocation_debt = 0;
        if self.gc.collections < usize::MAX {
            self.gc.collections = self.gc.collections + 1;
        }
        Ok(())
    }
}

impl<'p> Machine<'p> {
    /// Whether a collection is due: enough allocations happened since the last
    /// one, and one of the arenas is within its reserve of exhaustion.
    pub open spec fn collection_due(&self) -> bool {
        &&& self.gc.allocation_debt >= COLLECTION_DEBT
        &&& (ARENA_LIMIT - self.arena@.len() + self.gc.free_thunks@.len() <= RESERVE
            || ARENA_LIMIT - self.environments@.len() + self.gc.free_environments@.len() <= RESERVE)
    }

    /// Collect at a committed evaluator transition when a collection is due.
    pub fn collection_safe_point(&mut self, current: ThunkId, frames: &Vec<Frame>) -> (r: Result<(), RuntimeError>)
        requires
            old(self).wf(),
        ensures
            final(self).wf(),
            final(self).gc_context(old(self)),
            final(self).reclaims_only_garbage(old(self), current, frames@),
            !old(self).collection_due() ==> *final(self) == *old(self) && r is Ok,
            old(self).collection_due() && r is Ok ==> final(self).gc.collections == old(self).gc.collections + 1 || old(self).gc.collections == usize::MAX,
            r is Ok ==> forall|i: int| old(self).is_thunk_root(current, frames@, i) && 0 <= i < old(self).arena@.len()
                && (#[trigger] old(self).arena@[i]) is Some ==> final(self).arena@[i] == old(self).arena@[i],
            r matches Err(e) ==> collection_error(e),
            r == Err::<(), RuntimeError>(RuntimeError::Cancelled) ==> old(self).cancelled is Some,
    {
        let thunk_room: u128 = (ARENA_LIMIT - self.arena.len()) as u128 + self.gc.free_thunks.len() as u128;
        let environment_room: u128 = (ARENA_LIMIT - self.environments.len()) as u128 + self.gc.free_environments.len() as u128;
        let due = self.gc.allocation_debt >= COLLECTION_DEBT
            && (thunk_room <= RESERVE as u128 || environment_room <= RESERVE as u128);
        if due {
            self.collect(current, frames)?;
            proof {
                assert forall|i: int| old(self).is_thunk_root(current, frames@, i) && 0 <= i < old(self).arena@.len()
                    && (#[trigger] old(self).arena@[i]) is Some implies self.arena@[i] == old(self).arena@[i] by {
                    assert(self.is_thunk_root(current, frames@, i));
                    assert(live_thunks(self.arena@).contains(i));
                }
            }
        }
        Ok(())
    }

    /// Keep `ids` alive across nested evaluation, returning the height of the
    /// root stack to restore afterwards.
    pub fn push_roots(&mut self, ids: &Vec<ThunkId>) -> (r: Result<usize, RuntimeError>)
        requires
            old(self).wf(),
            old(self).gc.roots@.len() <= ARENA_LIMIT,
        ensures
            final(self).wf(),
            final(self).arena == old(self).arena,
            final(self).environments == old(self).environments,
            final(self).program == old(self).program,
            final(self).cancelled == old(self).cancelled,
            final(self).globals == old(self).globals,
            final(self).remaining == old(self).remaining,
            final(self).output_nodes == old(self).output_nodes,
            final(self).gc.free_thunks == old(self).gc.free_thunks,
            final(self).gc.free_environments == old(self).gc.free_environments,
            final(self).gc.allocation_debt == old(self).gc.allocation_debt,
            final(self).gc.collections == old(self).gc.collections,
            r matches Ok(start) ==> start == old(self).gc.roots@.len() && final(self).gc.roots@ == old(self).gc.roots@ + ids@,
            r is Err <==> ids@.len() > ARENA_LIMIT - old(self).gc.roots@.len(),
            r is Err ==> r == Err::<usize, RuntimeError>(RuntimeError::RootBudget) && final(self).gc.roots == old(self).gc.roots,
    {
        let start = self.gc.roots.len();
        if ids.len() > ARENA_LIMIT - start {
            return Err(RuntimeError::RootBudget);
        }
        let mut k: usize = 0;
        while k < ids.len()
            invariant
                k <= ids@.len(),
                self.gc.roots@ == old(self).gc.roots@ + ids@.take(k as int),
                self.arena == old(self).arena,
                self.environments == old(self).environments,
                self.program == old(self).program,
                self.cancelled == old(self).cancelled,
                self.globals == old(self).globals,
                self.remaining == old(self).remaining,
                self.output_nodes == old(self).output_nodes,
                self.gc.free_thunks == old(self).gc.free_thunks,
                self.gc.free_environments == old(self).gc.free_environments,
                self.gc.allocation_debt == old(self).gc.allocation_debt,
                self.gc.collections == old(self).gc.collections,
                start == old(self).gc.roots@.len(),
            decreases ids@.len() - k,
        {
            self.gc.roots.push(ids[k]);
            proof {
                assert(ids@.take(k + 1) =~= ids@.take(k as int).push(ids@[k as int]));
            }
            k = k + 1;
        }
        proof {
            assert(ids@.take(k as int) =~= ids@);
        }
        Ok(start)
    }

    /// Restore the root stack to the height returned by `push_roots`.
    pub fn restore_roots(&mut self, start: usize)
        requires
            old(self).wf(),
        ensures
            final(self).wf(),
            final(self).arena == old(self).arena,
            final(self).environments == old(self).environments,
            final(self).program == old(self).program,
            final(self).cancelled == old(self).cancelled,
            final(self).globals == old(self).globals,
            final(self).remaining == old(self).remaining,
            final(self).output_nodes == old(self).output_nodes,
            final(self).gc.free_thunks == old(self).gc.free_thunks,
            final(self).gc.free_environments == old(self).gc.free_environments,
            final(self).gc.collections == old(self).gc.collections,
            final(self).gc.roots@ == if start < old(self).gc.roots@.len() { old(self).gc.roots@.take(start as int) } else { old(self).gc.roots@ },
    {
        self.gc.roots.truncate(start);
    }
}

} // verus!
