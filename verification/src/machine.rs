//! Call-by-need execution of checked definitions. An explicit continuation
//! stack bounds evaluation without recursive host calls, and each invocation
//! owns its complete arena of thunks and environments.
use crate::naturals::Operation;
use crate::numeric::PureOptimization;
use crate::term::{share, Term, TermRef};
use crate::text::str_eq;
use crate::text::concat;
use std::rc::Rc;
use vstd::prelude::*;

verus! {

pub type ThunkId = usize;

pub type EnvId = usize;

/// Evaluation steps granted to one invocation.
pub const STEPS: usize = 2_000_000;

/// Capacity of each of the two arenas (thunks and environments).
pub const ARENA_LIMIT: usize = 131_072;

/// Maximum depth of the continuation stack.
pub const FRAME_LIMIT: usize = 4_096;

/// Maximum nesting of a materialized result.
pub const OUTPUT_DEPTH: usize = 96;

/// Maximum number of constructor nodes in a materialized result.
pub const OUTPUT_NODES: usize = 16_384;

/// Largest packed natural: Bend's native 48-bit immediate.
pub const NAT_MAX: u64 = 0xffff_ffff_ffff;

/// Why an evaluation stopped.
#[derive(Debug, PartialEq, Eq)]
pub enum RuntimeError {
    Cancelled,
    StepBudget,
    ThunkBudget,
    EnvironmentBudget,
    ContinuationDepth,
    RootBudget,
    InvalidThunkReference,
    InvalidEnvironmentReference,
    InvalidThunkRoot,
    InvalidEnvironmentRoot,
    VacantThunkRoot,
    VacantEnvironmentRoot,
    CyclicEvaluation,
    UnboundVariable,
    UndefinedReference(String),
    OpenDefinition,
    HoleReached,
    ImpossibleBranch,
    NotAFunction,
    ExpectedConstructor,
    InvalidPackedBits,
    OutputBudget,
    ErasedResult,
    FunctionResult,
    NatRequiresBase,
    NatBound,
    NatArity,
    NatBody,
    NumericArity,
    NumericBody,
}

/// The description of a runtime failure.
pub open spec fn runtime_message(e: RuntimeError) -> Seq<char> {
    match e {
        RuntimeError::Cancelled => "execution cancelled"@,
        RuntimeError::StepBudget => "data runtime step budget exhausted"@,
        RuntimeError::ThunkBudget => "data runtime thunk budget exhausted"@,
        RuntimeError::EnvironmentBudget => "data runtime environment budget exhausted"@,
        RuntimeError::ContinuationDepth => "data runtime continuation depth exhausted"@,
        RuntimeError::RootBudget => "data runtime caller root budget exhausted"@,
        RuntimeError::InvalidThunkReference => "invalid runtime thunk reference"@,
        RuntimeError::InvalidEnvironmentReference => "invalid runtime environment reference"@,
        RuntimeError::InvalidThunkRoot => "invalid runtime thunk root"@,
        RuntimeError::InvalidEnvironmentRoot => "invalid runtime environment root"@,
        RuntimeError::VacantThunkRoot => "vacant runtime thunk root"@,
        RuntimeError::VacantEnvironmentRoot => "vacant runtime environment root"@,
        RuntimeError::CyclicEvaluation => "cyclic data runtime evaluation"@,
        RuntimeError::UnboundVariable => "unbound runtime variable"@,
        RuntimeError::UndefinedReference(name) => "undefined runtime reference "@ + name@,
        RuntimeError::OpenDefinition => "unchecked open definition reached runtime"@,
        RuntimeError::HoleReached => "unchecked hole reached data runtime"@,
        RuntimeError::ImpossibleBranch => "entered an impossible runtime match branch"@,
        RuntimeError::NotAFunction => "runtime application of a non-function"@,
        RuntimeError::ExpectedConstructor => "runtime match expected constructor data"@,
        RuntimeError::InvalidPackedBits => "invalid packed Word width or bits"@,
        RuntimeError::OutputBudget => "data runtime output depth or node budget exhausted"@,
        RuntimeError::ErasedResult => "data runtime result contains an erased type or proof"@,
        RuntimeError::FunctionResult => "data runtime result contains a function"@,
        RuntimeError::NatRequiresBase => "native Nat requires sealed Base layouts"@,
        RuntimeError::NatBound => "native Nat exceeds the 48-bit bound"@,
        RuntimeError::NatArity => "native Nat operation has invalid arity"@,
        RuntimeError::NatBody => "native Nat optimization has no checked body"@,
        RuntimeError::NumericArity => "numeric intrinsic has an invalid arity"@,
        RuntimeError::NumericBody => "ordinary numeric optimization has no checked body"@,
    }
}

impl RuntimeError {
    /// A human-readable description of the failure.
    pub fn message(&self) -> (r: String)
        ensures
            r@ == runtime_message(*self),
    {
        match self {
            RuntimeError::Cancelled => "execution cancelled".to_owned(),
            RuntimeError::StepBudget => "data runtime step budget exhausted".to_owned(),
            RuntimeError::ThunkBudget => "data runtime thunk budget exhausted".to_owned(),
            RuntimeError::EnvironmentBudget => "data runtime environment budget exhausted".to_owned(),
            RuntimeError::ContinuationDepth => "data runtime continuation depth exhausted".to_owned(),
            RuntimeError::RootBudget => "data runtime caller root budget exhausted".to_owned(),
            RuntimeError::InvalidThunkReference => "invalid runtime thunk reference".to_owned(),
            RuntimeError::InvalidEnvironmentReference => "invalid runtime environment reference".to_owned(),
            RuntimeError::InvalidThunkRoot => "invalid runtime thunk root".to_owned(),
            RuntimeError::InvalidEnvironmentRoot => "invalid runtime environment root".to_owned(),
            RuntimeError::VacantThunkRoot => "vacant runtime thunk root".to_owned(),
            RuntimeError::VacantEnvironmentRoot => "vacant runtime environment root".to_owned(),
            RuntimeError::CyclicEvaluation => "cyclic data runtime evaluation".to_owned(),
            RuntimeError::UnboundVariable => "unbound runtime variable".to_owned(),
            RuntimeError::UndefinedReference(name) => concat("undefined runtime reference ", name.as_str()),
            RuntimeError::OpenDefinition => "unchecked open definition reached runtime".to_owned(),
            RuntimeError::HoleReached => "unchecked hole reached data runtime".to_owned(),
            RuntimeError::ImpossibleBranch => "entered an impossible runtime match branch".to_owned(),
            RuntimeError::NotAFunction => "runtime application of a non-function".to_owned(),
            RuntimeError::ExpectedConstructor => "runtime match expected constructor data".to_owned(),
            RuntimeError::InvalidPackedBits => "invalid packed Word width or bits".to_owned(),
            RuntimeError::OutputBudget => "data runtime output depth or node budget exhausted".to_owned(),
            RuntimeError::ErasedResult => "data runtime result contains an erased type or proof".to_owned(),
            RuntimeError::FunctionResult => "data runtime result contains a function".to_owned(),
            RuntimeError::NatRequiresBase => "native Nat requires sealed Base layouts".to_owned(),
            RuntimeError::NatBound => "native Nat exceeds the 48-bit bound".to_owned(),
            RuntimeError::NatArity => "native Nat operation has invalid arity".to_owned(),
            RuntimeError::NatBody => "native Nat optimization has no checked body".to_owned(),
            RuntimeError::NumericArity => "numeric intrinsic has an invalid arity".to_owned(),
            RuntimeError::NumericBody => "ordinary numeric optimization has no checked body".to_owned(),
        }
    }
}

/// A caller-supplied cancellation signal, polled at every evaluation step.
pub trait Cancellation {
    fn cancelled(&self) -> bool;
}

/// A caller-supplied visit of the thunks a structure keeps alive; an error
/// stops the walk.
pub trait RootVisitor {
    fn visit(&mut self, id: ThunkId) -> Result<(), String>;
}

/// Visit `roots` in order, stopping at the first error.
pub fn visit_each<V: RootVisitor>(roots: &Vec<ThunkId>, visitor: &mut V) -> (r: Result<(), String>)
    ensures
        roots@.len() == 0 ==> r is Ok,
{
    let mut i: usize = 0;
    while i < roots.len()
        invariant
            i <= roots@.len(),
        decreases roots@.len() - i,
    {
        visitor.visit(roots[i])?;
        i = i + 1;
    }
    Ok(())
}

/// The constructor wrapping a packed 32-bit word.
#[derive(Clone, Copy, Debug, PartialEq, Eq, Structural)]
pub enum Wrapper {
    U32,
    F32,
}

impl Wrapper {
    pub fn name(self) -> (r: &'static str)
        ensures
            r@ == wrapper_name(self),
    {
        match self {
            Wrapper::U32 => "U32",
            Wrapper::F32 => "F32",
        }
    }

    pub fn from_name(name: &str) -> (r: Option<Wrapper>)
        ensures
            r matches Some(w) ==> name@ == wrapper_name(w),
            r is None ==> name@ != wrapper_name(Wrapper::U32) && name@ != wrapper_name(Wrapper::F32),
    {
        if str_eq(name, "U32") {
            Some(Wrapper::U32)
        } else if str_eq(name, "F32") {
            Some(Wrapper::F32)
        } else {
            None
        }
    }
}

pub open spec fn wrapper_name(w: Wrapper) -> Seq<char> {
    match w {
        Wrapper::U32 => "U32"@,
        Wrapper::F32 => "F32"@,
    }
}

/// A weak-head value. Packed values are compact views of constructor trees.
pub enum Value {
    PackedNat(u64),
    PackedWord { wrapper: Wrapper, bits: u32 },
    PackedBits { bits: u32, width: u8 },
    Constructor { name: String, fields: Vec<ThunkId> },
    Closure { binder: usize, body: TermRef, environment: EnvId },
    Match { constructor: String, arm: ThunkId, fallback: ThunkId },
    Numeric { operation: PureOptimization, arguments: Vec<ThunkId> },
    Natural { operation: Operation, arguments: Vec<ThunkId> },
    Impossible,
    Erased,
}

/// One arena slot in use.
pub enum Thunk {
    Expression(TermRef, EnvId),
    Application(ThunkId, ThunkId),
    Evaluating,
    Ready(Value),
}

/// A scope: its enclosing scope and the thunks bound to binder identities.
pub struct Environment {
    pub parent: Option<EnvId>,
    pub bindings: Vec<(usize, ThunkId)>,
}

/// A pending continuation of the evaluator.
pub enum Frame {
    Update(ThunkId),
    Apply(ThunkId),
    Numeric(OrdinaryArguments),
    Natural(Evaluation),
    Match { constructor: String, arm: ThunkId, fallback: ThunkId, argument: ThunkId },
}

/// A native word operation collecting the bits of its `U32` arguments.
pub struct OrdinaryArguments {
    pub operation: PureOptimization,
    pub arguments: Vec<ThunkId>,
    pub words: Vec<u32>,
}

/// A native natural operation collecting its arguments' values; `prefix`
/// counts the successors already read off a rebuilt argument.
pub struct Evaluation {
    pub operation: Operation,
    pub arguments: Vec<ThunkId>,
    pub values: Vec<u64>,
    pub prefix: u64,
}

/// A checked definition with the body that the runtime evaluates.
pub struct Definition {
    pub name: String,
    pub body: Option<TermRef>,
}

/// The definitions and datatypes that a machine may reference.
pub struct Program {
    pub definitions: Vec<Definition>,
    pub datatypes: Vec<String>,
    pub packed: bool,
    pub optimizations: Vec<PureOptimization>,
    pub nat_optimizations: Vec<Operation>,
}

impl Program {
    /// A program over checked definitions, without packed native layouts.
    pub fn from_checked(definitions: Vec<Definition>, datatypes: Vec<String>) -> (r: Program)
        ensures
            r.definitions@ == definitions@,
            r.datatypes@ == datatypes@,
            !r.packed,
            r.optimizations@.len() == 0,
            r.nat_optimizations@.len() == 0,
    {
        Program { definitions, datatypes, packed: false, optimizations: Vec::new(), nat_optimizations: Vec::new() }
    }
}

/// Bookkeeping of the collector.
pub struct GcState {
    pub free_thunks: Vec<ThunkId>,
    pub free_environments: Vec<EnvId>,
    pub roots: Vec<ThunkId>,
    pub allocation_debt: usize,
    pub collections: usize,
}

pub struct Machine<'p> {
    pub program: &'p Program,
    pub arena: Vec<Option<Thunk>>,
    pub environments: Vec<Option<Environment>>,
    pub gc: GcState,
    pub globals: Vec<(String, ThunkId)>,
    pub remaining: usize,
    pub output_nodes: usize,
    pub cancelled: Option<&'p dyn Cancellation>,
}

// ---------------------------------------------------------------------------
// Well-formedness: every identifier stored in a live slot names a slot.
// ---------------------------------------------------------------------------

pub open spec fn value_ok(v: Value, nt: nat, ne: nat) -> bool {
    match v {
        Value::Constructor { fields, .. } => forall|k: int| 0 <= k < fields@.len() ==> #[trigger] fields@[k] < nt,
        Value::Closure { environment, .. } => environment < ne,
        Value::Match { arm, fallback, .. } => arm < nt && fallback < nt,
        Value::Numeric { arguments, .. } => forall|k: int| 0 <= k < arguments@.len() ==> #[trigger] arguments@[k] < nt,
        Value::Natural { arguments, .. } => forall|k: int| 0 <= k < arguments@.len() ==> #[trigger] arguments@[k] < nt,
        _ => true,
    }
}

pub open spec fn thunk_ok(t: Thunk, nt: nat, ne: nat) -> bool {
    match t {
        Thunk::Expression(_, e) => e < ne,
        Thunk::Application(f, a) => f < nt && a < nt,
        Thunk::Evaluating => true,
        Thunk::Ready(v) => value_ok(v, nt, ne),
    }
}

pub open spec fn env_ok(e: Environment, nt: nat, ne: nat) -> bool {
    &&& e.parent matches Some(p) ==> p < ne
    &&& forall|k: int| 0 <= k < e.bindings@.len() ==> #[trigger] e.bindings@[k].1 < nt
}

pub open spec fn frame_ok(f: Frame, nt: nat) -> bool {
    match f {
        Frame::Update(i) => i < nt,
        Frame::Apply(i) => i < nt,
        Frame::Match { arm, fallback, argument, .. } => arm < nt && fallback < nt && argument < nt,
        Frame::Numeric(state) => state.words@.len() < state.arguments@.len() && state.arguments@.len()
            == crate::numeric::optimization_arity(state.operation) && forall|k: int|
            0 <= k < state.arguments@.len() ==> #[trigger] state.arguments@[k] < nt,
        Frame::Natural(state) => state.values@.len() < state.arguments@.len() && state.arguments@.len()
            == crate::naturals::operation_arity(state.operation) && forall|k: int|
            0 <= k < state.arguments@.len() ==> #[trigger] state.arguments@[k] < nt,
    }
}

pub open spec fn frames_ok(fs: Seq<Frame>, nt: nat) -> bool {
    forall|k: int| 0 <= k < fs.len() ==> frame_ok(#[trigger] fs[k], nt)
}

pub open spec fn distinct(s: Seq<usize>) -> bool {
    forall|a: int, b: int| 0 <= a < s.len() && 0 <= b < s.len() && a != b ==> s[a] != s[b]
}

impl<'p> Machine<'p> {
    /// The arena invariant: every stored identifier is in bounds, the root
    /// environment exists, and each free list names distinct vacant slots.
    pub open spec fn wf(&self) -> bool {
        let nt = self.arena@.len();
        let ne = self.environments@.len();
        &&& nt <= ARENA_LIMIT
        &&& 1 <= ne <= ARENA_LIMIT
        &&& self.environments@[0] is Some
        &&& forall|i: int| 0 <= i < nt ==> (#[trigger] self.arena@[i] matches Some(t) ==> thunk_ok(t, nt, ne))
        &&& forall|i: int| 0 <= i < ne ==> (#[trigger] self.environments@[i] matches Some(e) ==> env_ok(e, nt, ne))
        &&& forall|k: int| 0 <= k < self.gc.free_thunks@.len() ==> {
            let id = #[trigger] self.gc.free_thunks@[k];
            &&& id < nt
            &&& self.arena@[id as int] is None
        }
        &&& forall|k: int| 0 <= k < self.gc.free_environments@.len() ==> {
            let id = #[trigger] self.gc.free_environments@[k];
            &&& 0 < id < ne
            &&& self.environments@[id as int] is None
        }
        &&& distinct(self.gc.free_thunks@)
        &&& distinct(self.gc.free_environments@)
        &&& forall|k: int| 0 <= k < self.globals@.len() ==> #[trigger] self.globals@[k].1 < nt
    }

    /// The arenas only grow: every bound valid before stays valid.
    pub open spec fn grows_from(&self, old: &Machine<'p>) -> bool {
        &&& self.arena@.len() >= old.arena@.len()
        &&& self.environments@.len() >= old.environments@.len()
        &&& self.program == old.program
        &&& self.cancelled == old.cancelled
        &&& self.remaining <= old.remaining
    }

    /// A fresh machine with an empty thunk arena and only the root environment.
    pub fn new(program: &'p Program) -> (r: Machine<'p>)
        ensures
            r.wf(),
            r.arena@.len() == 0,
            r.environments@.len() == 1,
            r.remaining == STEPS,
            r.program == program,
            r.cancelled is None,
            r.gc.free_thunks@.len() == 0,
            r.gc.free_environments@.len() == 0,
            r.gc.roots@.len() == 0,
            r.gc.collections == 0,
            r.globals@.len() == 0,
    {
        let mut environments = Vec::new();
        environments.push(Some(Environment { parent: None, bindings: Vec::new() }));
        Machine {
            program,
            arena: Vec::new(),
            environments,
            gc: GcState {
                free_thunks: Vec::new(),
                free_environments: Vec::new(),
                roots: Vec::new(),
                allocation_debt: 0,
                collections: 0,
            },
            globals: Vec::new(),
            remaining: STEPS,
            output_nodes: 0,
            cancelled: None,
        }
    }

    /// Spend one evaluation step, failing when the step budget is exhausted or
    /// the caller's cancellation signal is raised.
    pub fn tick(&mut self) -> (r: Result<(), RuntimeError>)
        ensures
            final(self).arena == old(self).arena,
            final(self).environments == old(self).environments,
            final(self).gc == old(self).gc,
            final(self).globals == old(self).globals,
            final(self).program == old(self).program,
            final(self).cancelled == old(self).cancelled,
            final(self).output_nodes == old(self).output_nodes,
            r is Ok ==> old(self).remaining > 0 && final(self).remaining == old(self).remaining - 1,
            r is Err ==> final(self).remaining == old(self).remaining,
            r is Err ==> r == Err::<(), RuntimeError>(RuntimeError::Cancelled) || r == Err::<(), RuntimeError>(RuntimeError::StepBudget),
            r == Err::<(), RuntimeError>(RuntimeError::StepBudget) ==> old(self).remaining == 0,
            old(self).cancelled is None ==> (r is Ok <==> old(self).remaining > 0),
            r == Err::<(), RuntimeError>(RuntimeError::Cancelled) ==> old(self).cancelled is Some,
    {
        charge(&mut self.remaining, self.cancelled)
    }
}

/// The allocation debt after one more allocation: one more, up to `usize::MAX`.
pub open spec fn debt_after(debt: usize) -> usize {
    if debt < usize::MAX {
        (debt + 1) as usize
    } else {
        usize::MAX
    }
}

/// Spend one unit of `remaining`, unless the cancellation signal is raised first.
pub fn charge(remaining: &mut usize, cancelled: Option<&dyn Cancellation>) -> (r: Result<(), RuntimeError>)
    ensures
        r is Ok ==> *old(remaining) > 0 && *final(remaining) == *old(remaining) - 1,
        r is Err ==> *final(remaining) == *old(remaining),
        r is Err ==> r == Err::<(), RuntimeError>(RuntimeError::Cancelled) || r == Err::<(), RuntimeError>(RuntimeError::StepBudget),
        r == Err::<(), RuntimeError>(RuntimeError::StepBudget) ==> *old(remaining) == 0,
        cancelled is None ==> (r is Ok <==> *old(remaining) > 0),
        r == Err::<(), RuntimeError>(RuntimeError::Cancelled) ==> cancelled is Some,
        cancelled is None ==> (r is Err ==> r == Err::<(), RuntimeError>(RuntimeError::StepBudget)),
{
    if let Some(signal) = cancelled {
        if signal.cancelled() {
            return Err(RuntimeError::Cancelled);
        }
    }
    if *remaining == 0 {
        return Err(RuntimeError::StepBudget);
    }
    *remaining = *remaining - 1;
    Ok(())
}

impl<'p> Machine<'p> {
    /// Every slot in use before is still in use.
    pub open spec fn keeps_live(&self, old: &Machine<'p>) -> bool {
        &&& self.arena@.len() >= old.arena@.len()
        &&& forall|i: int| 0 <= i < old.arena@.len() && (#[trigger] old.arena@[i]) is Some ==> self.arena@[i] is Some
    }

    /// Everything but the two arenas and the collector's free lists is kept.
    pub open spec fn same_context(&self, old: &Machine<'p>) -> bool {
        &&& self.program == old.program
        &&& self.cancelled == old.cancelled
        &&& self.globals == old.globals
        &&& self.gc.roots == old.gc.roots
        &&& self.remaining == old.remaining
        &&& self.output_nodes == old.output_nodes
    }

    /// Store `thunk` in a vacant slot, reusing the most recently freed one.
    pub fn allocate(&mut self, thunk: Thunk) -> (r: Result<ThunkId, RuntimeError>)
        requires
            old(self).wf(),
            thunk_ok(thunk, old(self).arena@.len() as nat, old(self).environments@.len() as nat),
        ensures
            final(self).keeps_live(old(self)),
            final(self).wf(),
            final(self).same_context(old(self)),
            final(self).environments == old(self).environments,
            final(self).gc.free_environments == old(self).gc.free_environments,
            final(self).arena@.len() >= old(self).arena@.len(),
            match r {
                Ok(id) => {
                    &&& id < final(self).arena@.len()
                    &&& final(self).arena@ == old(self).arena@.update(id as int, Some(thunk)) || (
                        id == old(self).arena@.len() && final(self).arena@ == old(self).arena@.push(Some(thunk)))
                    &&& old(self).gc.free_thunks@.len() > 0 ==> (id == old(self).gc.free_thunks@.last()
                        && final(self).arena@ == old(self).arena@.update(id as int, Some(thunk))
                        && final(self).gc.free_thunks@ == old(self).gc.free_thunks@.drop_last())
                    &&& old(self).gc.free_thunks@.len() == 0 ==> (id == old(self).arena@.len()
                        && final(self).arena@ == old(self).arena@.push(Some(thunk))
                        && final(self).gc.free_thunks@.len() == 0)
                    &&& final(self).gc.allocation_debt == debt_after(old(self).gc.allocation_debt)
                },
                Err(e) => {
                    &&& e == RuntimeError::ThunkBudget
                    &&& old(self).gc.free_thunks@.len() == 0
                    &&& old(self).arena@.len() >= ARENA_LIMIT
                    &&& final(self).arena == old(self).arena
                    &&& final(self).gc.free_thunks@ == old(self).gc.free_thunks@
                },
            },
    {
        if let Some(id) = self.gc.free_thunks.pop() {
            proof {
                assert(self.gc.free_thunks@ =~= old(self).gc.free_thunks@.drop_last());
                assert(old(self).gc.free_thunks@[old(self).gc.free_thunks@.len() - 1] == id);
            }
            self.arena.set(id, Some(thunk));
            self.gc.allocation_debt = if self.gc.allocation_debt < usize::MAX { self.gc.allocation_debt + 1 } else { usize::MAX };
            proof {
                let ft = self.gc.free_thunks@;
                let oft = old(self).gc.free_thunks@;
                assert forall|k: int| 0 <= k < ft.len() implies #[trigger] ft[k] < self.arena@.len() && self.arena@[ft[k] as int] is None by {
                    assert(ft[k] == oft[k]);
                    assert(oft[k] != oft[oft.len() - 1]);
                }
            }
            return Ok(id);
        }
        if self.arena.len() >= ARENA_LIMIT {
            return Err(RuntimeError::ThunkBudget);
        }
        let id = self.arena.len();
        self.arena.push(Some(thunk));
        self.gc.allocation_debt = if self.gc.allocation_debt < usize::MAX { self.gc.allocation_debt + 1 } else { usize::MAX };
        proof {
            let nt = self.arena@.len();
            let ne = self.environments@.len();
            assert forall|i: int| 0 <= i < nt implies (#[trigger] self.arena@[i] matches Some(t) ==> thunk_ok(t, nt, ne)) by {
                if i < nt - 1 {
                    assert(self.arena@[i] == old(self).arena@[i]);
                }
            }
            assert forall|i: int| 0 <= i < ne implies (#[trigger] self.environments@[i] matches Some(e) ==> env_ok(e, nt, ne)) by {
                if let Some(e) = self.environments@[i] {
                    assert(env_ok(e, (nt - 1) as nat, ne));
                }
            }
        }
        Ok(id)
    }

    /// Allocate an unevaluated expression closed over `environment`.
    pub fn expression(&mut self, expression: TermRef, environment: EnvId) -> (r: Result<ThunkId, RuntimeError>)
        requires
            old(self).wf(),
            environment < old(self).environments@.len(),
        ensures
            final(self).keeps_live(old(self)),
            final(self).wf(),
            final(self).same_context(old(self)),
            final(self).environments == old(self).environments,
            final(self).arena@.len() >= old(self).arena@.len(),
            r matches Ok(id) ==> id < final(self).arena@.len() && final(self).arena@[id as int] == Some(Thunk::Expression(expression, environment)),
            r matches Err(e) ==> e == RuntimeError::ThunkBudget,
    {
        self.allocate(Thunk::Expression(expression, environment))
    }

    /// Allocate an already evaluated constructor with the given fields.
    pub fn ready_constructor(&mut self, name: &str, fields: Vec<ThunkId>) -> (r: Result<ThunkId, RuntimeError>)
        requires
            old(self).wf(),
            forall|k: int| 0 <= k < fields@.len() ==> #[trigger] fields@[k] < old(self).arena@.len(),
        ensures
            final(self).keeps_live(old(self)),
            final(self).wf(),
            final(self).same_context(old(self)),
            final(self).environments == old(self).environments,
            final(self).arena@.len() >= old(self).arena@.len(),
            r matches Ok(id) ==> id < final(self).arena@.len() && (final(self).arena@[id as int] matches Some(Thunk::Ready(Value::Constructor { name: n, fields: f })) && n@ == name@ && f@ == fields@),
            r matches Err(e) ==> e == RuntimeError::ThunkBudget,
    {
        self.allocate(Thunk::Ready(Value::Constructor { name: name.to_owned(), fields }))
    }

    /// Allocate a compact natural, available only with packed native layouts.
    pub fn packed_nat(&mut self, value: u64) -> (r: Result<ThunkId, RuntimeError>)
        requires
            old(self).wf(),
        ensures
            final(self).keeps_live(old(self)),
            final(self).wf(),
            final(self).same_context(old(self)),
            final(self).environments == old(self).environments,
            final(self).arena@.len() >= old(self).arena@.len(),
            !old(self).program.packed ==> r == Err::<ThunkId, RuntimeError>(RuntimeError::NatRequiresBase),
            old(self).program.packed && value > NAT_MAX ==> r == Err::<ThunkId, RuntimeError>(RuntimeError::NatBound),
            r matches Ok(id) ==> id < final(self).arena@.len() && final(self).arena@[id as int] == Some(Thunk::Ready(Value::PackedNat(value))),
            r matches Err(e) ==> e == RuntimeError::ThunkBudget || !old(self).program.packed || value > NAT_MAX,
    {
        if !self.program.packed {
            return Err(RuntimeError::NatRequiresBase);
        }
        if value > NAT_MAX {
            return Err(RuntimeError::NatBound);
        }
        self.allocate(Thunk::Ready(Value::PackedNat(value)))
    }

    /// Open a scope whose parent is `parent`, reusing a freed environment slot.
    pub fn environment(&mut self, parent: EnvId, bindings: Vec<(usize, ThunkId)>) -> (r: Result<EnvId, RuntimeError>)
        requires
            old(self).wf(),
            parent < old(self).environments@.len(),
            forall|k: int| 0 <= k < bindings@.len() ==> #[trigger] bindings@[k].1 < old(self).arena@.len(),
        ensures
            final(self).wf(),
            final(self).same_context(old(self)),
            final(self).arena == old(self).arena,
            final(self).gc.free_thunks == old(self).gc.free_thunks,
            final(self).environments@.len() >= old(self).environments@.len(),
            match r {
                Ok(id) => {
                    &&& 0 < id < final(self).environments@.len()
                    &&& (final(self).environments@[id as int] matches Some(e) && e.parent == Some(parent) && e.bindings@ == bindings@)
                    &&& old(self).gc.free_environments@.len() > 0 ==> (id == old(self).gc.free_environments@.last()
                        && final(self).environments@.len() == old(self).environments@.len()
                        && final(self).gc.free_environments@ == old(self).gc.free_environments@.drop_last())
                    &&& old(self).gc.free_environments@.len() == 0 ==> final(self).gc.free_environments@.len() == 0
                    &&& final(self).gc.allocation_debt == debt_after(old(self).gc.allocation_debt)
                    &&& old(self).gc.free_environments@.len() == 0 ==> id == old(self).environments@.len()
                    &&& forall|i: int| 0 <= i < old(self).environments@.len() && i != id ==> final(self).environments@[i] == old(self).environments@[i]
                },
                Err(e) => {
                    &&& e == RuntimeError::EnvironmentBudget
                    &&& old(self).gc.free_environments@.len() == 0
                    &&& old(self).environments@.len() >= ARENA_LIMIT
                    &&& final(self).environments == old(self).environments
                    &&& final(self).gc.free_environments@ == old(self).gc.free_environments@
                },
            },
    {
        let environment = Some(Environment { parent: Some(parent), bindings });
        if let Some(id) = self.gc.free_environments.pop() {
            proof {
                assert(self.gc.free_environments@ =~= old(self).gc.free_environments@.drop_last());
                assert(old(self).gc.free_environments@[old(self).gc.free_environments@.len() - 1] == id);
            }
            self.environments.set(id, environment);
            self.gc.allocation_debt = if self.gc.allocation_debt < usize::MAX { self.gc.allocation_debt + 1 } else { usize::MAX };
            proof {
                let fe = self.gc.free_environments@;
                let ofe = old(self).gc.free_environments@;
                assert forall|k: int| 0 <= k < fe.len() implies {
                    let id2 = #[trigger] fe[k];
                    &&& 0 < id2 < self.environments@.len()
                    &&& self.environments@[id2 as int] is None
                } by {
                    assert(fe[k] == ofe[k]);
                    assert(ofe[k] != ofe[ofe.len() - 1]);
                }
            }
            return Ok(id);
        }
        if self.environments.len() >= ARENA_LIMIT {
            return Err(RuntimeError::EnvironmentBudget);
        }
        let id = self.environments.len();
        self.environments.push(environment);
        self.gc.allocation_debt = if self.gc.allocation_debt < usize::MAX { self.gc.allocation_debt + 1 } else { usize::MAX };
        proof {
            let nt = self.arena@.len();
            let ne = self.environments@.len();
            assert forall|i: int| 0 <= i < nt implies (#[trigger] self.arena@[i] matches Some(t) ==> thunk_ok(t, nt, ne)) by {
                if let Some(t) = self.arena@[i] {
                    assert(thunk_ok(t, nt, (ne - 1) as nat));
                    if let Thunk::Ready(v) = t {
                        assert(value_ok(v, nt, (ne - 1) as nat));
                    }
                }
            }
            assert forall|i: int| 0 <= i < ne implies (#[trigger] self.environments@[i] matches Some(e) ==> env_ok(e, nt, ne)) by {
                if i < ne - 1 {
                    assert(self.environments@[i] == old(self).environments@[i]);
                }
            }
        }
        Ok(id)
    }

    /// The thunk bound to `binder`, searching outward from `environment`.
    #[verifier::loop_isolation(false)]
    pub fn variable(&mut self, environment: EnvId, binder: usize) -> (r: Result<ThunkId, RuntimeError>)
        requires
            old(self).wf(),
        ensures
            final(self).wf(),
            final(self).arena == old(self).arena,
            final(self).environments == old(self).environments,
            final(self).gc == old(self).gc,
            final(self).globals == old(self).globals,
            final(self).program == old(self).program,
            final(self).cancelled == old(self).cancelled,
            final(self).output_nodes == old(self).output_nodes,
            final(self).remaining <= old(self).remaining,
            r matches Ok(id) ==> id < final(self).arena@.len(),
            r matches Err(e) ==> e == RuntimeError::Cancelled || e == RuntimeError::StepBudget
                || e == RuntimeError::InvalidEnvironmentReference || e == RuntimeError::UnboundVariable,
    {
        let mut environment = environment;
        loop
            invariant
                self.wf(),
                self.arena == old(self).arena,
                self.environments == old(self).environments,
                self.gc == old(self).gc,
                self.globals == old(self).globals,
                self.program == old(self).program,
                self.cancelled == old(self).cancelled,
                self.output_nodes == old(self).output_nodes,
                self.remaining <= old(self).remaining,
            decreases self.remaining,
        {
            self.tick()?;
            if environment >= self.environments.len() {
                return Err(RuntimeError::InvalidEnvironmentReference);
            }
            match &self.environments[environment] {
                None => return Err(RuntimeError::InvalidEnvironmentReference),
                Some(current) => {
                    let mut k: usize = 0;
                    while k < current.bindings.len()
                        invariant
                            k <= current.bindings@.len(),
                        decreases current.bindings@.len() - k,
                    {
                        if current.bindings[k].0 == binder {
                            proof {
                                assert(env_ok(*current, self.arena@.len() as nat, self.environments@.len() as nat));
                            }
                            return Ok(current.bindings[k].1);
                        }
                        k = k + 1;
                    }
                    match current.parent {
                        Some(parent) => {
                            environment = parent;
                        },
                        None => return Err(RuntimeError::UnboundVariable),
                    }
                },
            }
        }
    }
}

/// Push a continuation, failing when the stack is at its depth limit.
pub fn push_frame(frames: &mut Vec<Frame>, frame: Frame) -> (r: Result<(), RuntimeError>)
    ensures
        r is Ok ==> old(frames)@.len() < FRAME_LIMIT && final(frames)@ == old(frames)@.push(frame),
        r is Err ==> old(frames)@.len() >= FRAME_LIMIT && final(frames)@ == old(frames)@ && r == Err::<(), RuntimeError>(RuntimeError::ContinuationDepth),
{
    if frames.len() >= FRAME_LIMIT {
        return Err(RuntimeError::ContinuationDepth);
    }
    frames.push(frame);
    Ok(())
}

/// A copy of a list of identifiers.
pub fn copy_ids(v: &Vec<usize>) -> (r: Vec<usize>)
    ensures
        r@ == v@,
{
    let mut out: Vec<usize> = Vec::new();
    let mut i: usize = 0;
    while i < v.len()
        invariant
            i <= v.len(),
            out@ == v@.take(i as int),
        decreases v.len() - i,
    {
        out.push(v[i]);
        proof {
            assert(out@ =~= v@.take(i + 1));
        }
        i = i + 1;
    }
    proof {
        assert(v@.take(i as int) =~= v@);
    }
    out
}

/// Two values are equal up to the identity of their field lists.
pub open spec fn same_value(a: Value, b: Value) -> bool {
    match a {
        Value::Constructor { name, fields } => b matches Value::Constructor { name: n2, fields: f2 } && name == n2 && fields@ == f2@,
        Value::Numeric { operation, arguments } => b matches Value::Numeric { operation: o2, arguments: a2 } && operation == o2 && arguments@ == a2@,
        Value::Natural { operation, arguments } => b matches Value::Natural { operation: o2, arguments: a2 } && operation == o2 && arguments@ == a2@,
        _ => a == b,
    }
}

pub open spec fn same_thunk(a: Thunk, b: Thunk) -> bool {
    match a {
        Thunk::Ready(v) => b matches Thunk::Ready(w) && same_value(v, w),
        _ => a == b,
    }
}

/// A copy of a value; shared terms are shared, not duplicated.
pub fn copy_value(v: &Value) -> (r: Value)
    ensures
        same_value(r, *v),
        same_value(*v, r),
{
    match v {
        Value::PackedNat(n) => Value::PackedNat(*n),
        Value::PackedWord { wrapper, bits } => Value::PackedWord { wrapper: *wrapper, bits: *bits },
        Value::PackedBits { bits, width } => Value::PackedBits { bits: *bits, width: *width },
        Value::Constructor { name, fields } => {
            let fields = copy_ids(fields);
            Value::Constructor { name: name.clone(), fields }
        },
        Value::Closure { binder, body, environment } => Value::Closure {
            binder: *binder,
            body: share(body),
            environment: *environment,
        },
        Value::Match { constructor, arm, fallback } => Value::Match {
            constructor: constructor.clone(),
            arm: *arm,
            fallback: *fallback,
        },
        Value::Numeric { operation, arguments } => Value::Numeric { operation: *operation, arguments: copy_ids(arguments) },
        Value::Natural { operation, arguments } => Value::Natural { operation: *operation, arguments: copy_ids(arguments) },
        Value::Impossible => Value::Impossible,
        Value::Erased => Value::Erased,
    }
}

/// A copy of an arena slot's content.
pub fn copy_thunk(t: &Thunk) -> (r: Thunk)
    ensures
        same_thunk(r, *t),
        same_thunk(*t, r),
{
    match t {
        Thunk::Expression(e, env) => Thunk::Expression(share(e), *env),
        Thunk::Application(f, a) => Thunk::Application(*f, *a),
        Thunk::Evaluating => Thunk::Evaluating,
        Thunk::Ready(v) => Thunk::Ready(copy_value(v)),
    }
}

/// Whether a constructor named `name` with `fields` spells the unary natural `n`.
pub open spec fn ctr_is_nat(name: Seq<char>, fields: Seq<TermRef>, n: nat) -> bool {
    if n == 0 {
        name == "Zero"@ && fields.len() == 0
    } else {
        name == "Succ"@ && fields.len() == 1 && crate::term::is_nat(*fields[0], (n - 1) as nat)
    }
}

/// Recognize a complete unary natural literal without evaluating any field.
/// The scan is bounded by the continuation depth limit.
pub fn nat_literal(name: &str, fields: &Vec<TermRef>) -> (r: Option<Value>)
    ensures
        r matches Some(v) ==> (v matches Value::PackedNat(n) && ctr_is_nat(name@, fields@, n as nat)),
        forall|n: nat| n <= FRAME_LIMIT && #[trigger] ctr_is_nat(name@, fields@, n) ==> r == Some(Value::PackedNat(n as u64)),
{
    proof {
        reveal_strlit("Zero");
        reveal_strlit("Succ");    assert("Zero"@[0] != "Succ"@[0]);
    }
    let mut current_name: &str = name;
    let mut current: &Vec<TermRef> = fields;
    let mut value: u64 = 0;
    let mut round: usize = 0;
    while round <= FRAME_LIMIT
        invariant
            value as int == round as int,
            round <= FRAME_LIMIT + 1,
            forall|n: nat| ctr_is_nat(current_name@, current@, n) ==> ctr_is_nat(name@, fields@, (n + value) as nat),
            forall|m: nat| #[trigger] ctr_is_nat(name@, fields@, m) ==> m >= value && ctr_is_nat(current_name@, current@, (m - value) as nat),
            "Zero"@ != "Succ"@,
        decreases FRAME_LIMIT + 1 - round,
    {
        if str_eq(current_name, "Zero") && current.len() == 0 {
            proof {
                assert(ctr_is_nat(current_name@, current@, 0));
            }
            return Some(Value::PackedNat(value));
        }
        if str_eq(current_name, "Succ") && current.len() == 1 {
            match &*current[0] {
                Term::Ctr { name: next, args } => {
                    proof {
                        assert forall|m: nat| #[trigger] ctr_is_nat(name@, fields@, m) implies m >= value + 1 && ctr_is_nat(next@, args@, (m - value - 1) as nat) by {
                            assert(ctr_is_nat(current_name@, current@, (m - value) as nat));
                            let d = (m - value) as nat;
                            if d == 0 {
                                assert(current_name@ == "Zero"@);
                            } else {
                                assert(crate::term::is_nat(*current@[0], (d - 1) as nat));
                                if d - 1 == 0 {
                                    assert(crate::term::is_ctr(*current@[0], "Zero"@, 0));
                                } else {
                                    assert(crate::term::is_ctr(*current@[0], "Succ"@, 1));
                                }
                            }
                        }
                        assert forall|n: nat| ctr_is_nat(next@, args@, n) implies ctr_is_nat(name@, fields@, (n + value + 1) as nat) by {
                            let t = *current@[0];
                            if n == 0 {
                                assert(crate::term::is_nat(t, 0));
                            } else {
                                assert(crate::term::is_nat(t, n));
                            }
                            assert(ctr_is_nat(current_name@, current@, (n + 1) as nat));
                        }
                    }
                    current_name = next.as_str();
                    current = args;
                    value = value + 1;
                },
                _ => return None,
            }
        } else {
            return None;
        }
        round = round + 1;
    }
    None
}

/// Recognize a complete 32-bit word literal wrapped in `U32` or `F32`: no
/// reference, variable or call is evaluated, and the scan is bounded by the width.
pub fn word_literal(name: &str, fields: &Vec<TermRef>) -> (r: Option<Value>)
    ensures
        r matches Some(v) ==> (v matches Value::PackedWord { wrapper, bits } && name@ == wrapper_name(wrapper)
            && fields@.len() == 1 && crate::term::is_word(*fields@[0], bits, 0)),
        fields@.len() == 1 && (name@ == wrapper_name(Wrapper::U32) || name@ == wrapper_name(Wrapper::F32)) && (exists|b: u32|
            #[trigger] crate::term::is_word(*fields@[0], b, 0)) ==> r is Some,
{
    proof {
        reveal_strlit("WCon");
        reveal_strlit("WNil");
        reveal_strlit("True");
        reveal_strlit("False");
        assert("WCon"@[1] != "WNil"@[1]);
        assert("True"@[0] != "False"@[0]);
    }
    let ghost decodable = exists|b: u32| #[trigger] crate::term::is_word(*fields@[0], b, 0);
    let wrapper = match Wrapper::from_name(name) {
        Some(w) => w,
        None => return None,
    };
    if fields.len() != 1 {
        return None;
    }
    let mut word: &TermRef = &fields[0];
    let mut bits: u32 = 0;
    let mut bit: u32 = 0;
    assert(0u32 >> 0u32 == 0) by (bit_vector);
    while bit < 32
        invariant
            bit <= 32,
            fields@.len() == 1,
            bit == 32 || bits >> bit == 0,
            forall|b: u32| (forall|i: nat| i < bit ==> crate::term::bit(b, i) == crate::term::bit(bits, i))
                && #[trigger] crate::term::is_word(**word, b, bit as nat) ==> crate::term::is_word(*fields@[0], b, 0),
            decodable == exists|b: u32| #[trigger] crate::term::is_word(*fields@[0], b, 0),
            decodable ==> exists|b: u32| #[trigger] crate::term::is_word(**word, b, bit as nat),
            "WCon"@ != "WNil"@,
            "True"@ != "False"@,
        decreases 32 - bit,
    {
        let (head, tail) = match &**word {
            Term::Ctr { name: wcon, args } => {
                if args.len() != 2 || !str_eq(wcon.as_str(), "WCon") {
                    return None;
                }
                (&args[0], &args[1])
            },
            _ => return None,
        };
        let set = match &**head {
            Term::Ctr { name: b, args } => {
                if args.len() != 0 {
                    return None;
                }
                if str_eq(b.as_str(), "True") {
                    true
                } else if str_eq(b.as_str(), "False") {
                    false
                } else {
                    return None;
                }
            },
            _ => return None,
        };
        let ghost old_bits = bits;
        let ghost old_word = word;
        if set {
            bits = bits | (1u32 << bit);
        }
        proof {
            lemma_set_bit(old_bits, bits, bit, set);
            assert forall|i: nat| i < bit implies crate::term::bit(bits, i) == crate::term::bit(old_bits, i) by {
                lemma_lower_bit(old_bits, bits, bit, set, i as u32);
            }
        }
        let ghost old_bit = bit;
        word = tail;
        bit = bit + 1;
        proof {
            if decodable {
                let b = choose|b: u32| #[trigger] crate::term::is_word(**old_word, b, old_bit as nat);
                assert(crate::term::is_word(**old_word, b, old_bit as nat));
                assert(crate::term::is_word(**tail, b, (old_bit + 1) as nat));
            }
            assert forall|b: u32| (forall|i: nat| i < bit ==> crate::term::bit(b, i) == crate::term::bit(bits, i))
                && #[trigger] crate::term::is_word(**word, b, bit as nat) implies crate::term::is_word(*fields@[0], b, 0) by {
                assert(crate::term::bit(b, old_bit as nat) == set);
                assert(crate::term::is_bool(**head, set));
                assert(crate::term::is_word(**tail, b, (old_bit + 1) as nat));
                assert(crate::term::is_word(**old_word, b, old_bit as nat));
                assert(forall|i: nat| i < old_bit ==> crate::term::bit(b, i) == crate::term::bit(old_bits, i));
            }
        }
    }
    match &**word {
        Term::Ctr { name: nil, args } => {
            if args.len() != 0 || !str_eq(nil.as_str(), "WNil") {
                return None;
            }
        },
        _ => return None,
    }
    proof {
        assert(crate::term::is_word(**word, bits, 32));
    }
    Some(Value::PackedWord { wrapper, bits })
}

proof fn lemma_set_bit(old: u32, new: u32, bit: u32, set: bool)
    requires
        bit < 32,
        old >> bit == 0,
        new == if set { old | (1u32 << bit) } else { old },
    ensures
        bit + 1 == 32 || new >> ((bit + 1) as u32) == 0,
        ((new >> bit) & 1 == 1) == set,
{
    assert(bit + 1 == 32 || new >> ((bit + 1) as u32) == 0) by (bit_vector)
        requires
            bit < 32,
            old >> bit == 0,
            new == if set { old | (1u32 << bit) } else { old },
    ;
    assert(((new >> bit) & 1 == 1) == set) by (bit_vector)
        requires
            bit < 32,
            old >> bit == 0,
            new == if set { old | (1u32 << bit) } else { old },
    ;
}

proof fn lemma_lower_bit(old: u32, new: u32, bit: u32, set: bool, i: u32)
    requires
        i < bit < 32,
        new == if set { old | (1u32 << bit) } else { old },
    ensures
        (new >> i) & 1 == (old >> i) & 1,
{
    assert((new >> i) & 1 == (old >> i) & 1) by (bit_vector)
        requires
            i < bit < 32,
            new == if set { old | (1u32 << bit) } else { old },
    ;
}

/// Whether packed word bits fit in the recorded width.
pub open spec fn spec_valid_bits(bits: u32, width: u8) -> bool {
    width <= 32 && (width == 32 || bits >> width == 0)
}

pub fn valid_bits(bits: u32, width: u8) -> (r: bool)
    ensures
        r == spec_valid_bits(bits, width),
{
    width <= 32 && (width == 32 || bits >> width == 0)
}

impl<'p> Machine<'p> {
    /// The thunk for a global name: a cached one, a checked definition's body,
    /// or an erased datatype.
    #[verifier::loop_isolation(false)]
    pub fn reference(&mut self, name: &str) -> (r: Result<ThunkId, RuntimeError>)
        requires
            old(self).wf(),
        ensures
            final(self).keeps_live(old(self)),
            final(self).wf(),
            final(self).grows_from(old(self)),
            final(self).gc.roots == old(self).gc.roots,
            final(self).output_nodes == old(self).output_nodes,
            final(self).remaining == old(self).remaining,
            r matches Ok(id) ==> id < final(self).arena@.len(),
            (exists|k: int| 0 <= k < old(self).globals@.len() && #[trigger] old(self).globals@[k].0@ == name@) ==> (r is Ok
                && final(self).arena == old(self).arena && final(self).globals == old(self).globals
                && final(self).environments == old(self).environments),
            r matches Err(e) ==> e == RuntimeError::ThunkBudget || e == RuntimeError::OpenDefinition
                || e is UndefinedReference,
    {
        let mut k: usize = 0;
        while k < self.globals.len()
            invariant
                k <= self.globals@.len(),
                forall|j: int| 0 <= j < k ==> #[trigger] self.globals@[j].0@ != name@,
            decreases self.globals@.len() - k,
        {
            if str_eq(self.globals[k].0.as_str(), name) {
                let id = self.globals[k].1;
                proof {
                    assert(self.wf());
                }
                return Ok(id);
            }
            k = k + 1;
        }
        let mut id: ThunkId = 0;
        let mut found = false;
        let mut numeric: Option<PureOptimization> = None;
        let mut o: usize = 0;
        while o < self.program.optimizations.len()
            invariant
                o <= self.program.optimizations@.len(),
            decreases self.program.optimizations@.len() - o,
        {
            if str_eq(self.program.optimizations[o].name(), name) {
                numeric = Some(self.program.optimizations[o]);
                break;
            }
            o = o + 1;
        }
        let mut natural: Option<Operation> = None;
        let mut n: usize = 0;
        while numeric.is_none() && n < self.program.nat_optimizations.len()
            invariant
                n <= self.program.nat_optimizations@.len(),
            decreases self.program.nat_optimizations@.len() - n,
        {
            if str_eq(self.program.nat_optimizations[n].name(), name) {
                natural = Some(self.program.nat_optimizations[n]);
                break;
            }
            n = n + 1;
        }
        if let Some(operation) = numeric {
            id = self.allocate(Thunk::Ready(Value::Numeric { operation, arguments: Vec::new() }))?;
            found = true;
        } else if let Some(operation) = natural {
            id = self.allocate(Thunk::Ready(Value::Natural { operation, arguments: Vec::new() }))?;
            found = true;
        }
        let mut d: usize = 0;
        while !found && d < self.program.definitions.len()
            invariant
                self.wf(),
                self.grows_from(old(self)),
                self.keeps_live(old(self)),
                self.globals == old(self).globals,
                self.gc.roots == old(self).gc.roots,
                self.output_nodes == old(self).output_nodes,
                self.remaining == old(self).remaining,
                d <= self.program.definitions@.len(),
                found ==> id < self.arena@.len(),
            decreases self.program.definitions@.len() - d,
        {
            if str_eq(self.program.definitions[d].name.as_str(), name) {
                match &self.program.definitions[d].body {
                    Some(body) => {
                        id = self.expression(share(body), 0)?;
                        found = true;
                        break;
                    },
                    None => return Err(RuntimeError::OpenDefinition),
                }
            }
            d = d + 1;
        }
        if !found {
            let mut t: usize = 0;
            while t < self.program.datatypes.len()
                invariant
                    t <= self.program.datatypes@.len(),
                decreases self.program.datatypes@.len() - t,
            {
                if str_eq(self.program.datatypes[t].as_str(), name) {
                    found = true;
                    break;
                }
                t = t + 1;
            }
            if !found {
                return Err(RuntimeError::UndefinedReference(name.to_owned()));
            }
            id = self.allocate(Thunk::Ready(Value::Erased))?;
        }
        self.globals.push((name.to_owned(), id));
        proof {
            assert forall|k: int| 0 <= k < self.globals@.len() implies #[trigger] self.globals@[k].1 < self.arena@.len() by {
                if k < self.globals@.len() - 1 {
                    assert(self.globals@[k] == old(self).globals@[k]);
                }
            }
        }
        Ok(id)
    }
}

impl<'p> Machine<'p> {
    /// Reveal one constructor layer of a value. Packed values expose their
    /// first layer with freshly allocated, still packed, fields.
    pub fn constructor_value(&mut self, value: Value) -> (r: Result<(String, Vec<ThunkId>), RuntimeError>)
        requires
            old(self).wf(),
            value_ok(value, old(self).arena@.len() as nat, old(self).environments@.len() as nat),
        ensures
            final(self).keeps_live(old(self)),
            final(self).wf(),
            final(self).grows_from(old(self)),
            final(self).globals == old(self).globals,
            final(self).gc.roots == old(self).gc.roots,
            final(self).output_nodes == old(self).output_nodes,
            r matches Ok((n, f)) ==> forall|k: int| 0 <= k < f@.len() ==> #[trigger] f@[k] < final(self).arena@.len(),
            value matches Value::Constructor { name, fields } ==> r matches Ok((n, f)) && n == name && f@ == fields@,
            value matches Value::PackedNat(v) ==> (r matches Ok((n, f)) ==> if v == 0 {
                n@ == "Zero"@ && f@.len() == 0
            } else {
                n@ == "Succ"@ && f@.len() == 1 && final(self).arena@[f@[0] as int] == Some(Thunk::Ready(Value::PackedNat((v - 1) as u64)))
            }),
            value matches Value::PackedWord { wrapper, bits } ==> (r matches Ok((n, f)) ==> n@ == wrapper_name(wrapper)
                && f@.len() == 1 && final(self).arena@[f@[0] as int] == Some(Thunk::Ready(Value::PackedBits { bits, width: 32 }))),
            value matches Value::PackedBits { bits, width } ==> (!spec_valid_bits(bits, width) ==> r is Err) && (r matches Ok((n, f)) ==> if width == 0 {
                n@ == "WNil"@ && f@.len() == 0
            } else {
                n@ == "WCon"@ && f@.len() == 2 && final(self).arena@[f@[1] as int] == Some(Thunk::Ready(Value::PackedBits { bits: bits >> 1, width: (width - 1) as u8 }))
                    && (final(self).arena@[f@[0] as int] matches Some(Thunk::Ready(Value::Constructor { name: b, fields: bf }))
                        && bf@.len() == 0 && b@ == (if bits & 1 == 0 { "False"@ } else { "True"@ }))
            }),
            (value is Closure || value is Match || value is Numeric || value is Natural || value is Impossible || value is Erased) ==> r == Err::<(String, Vec<ThunkId>), RuntimeError>(RuntimeError::ExpectedConstructor),
    {
        match value {
            Value::Constructor { name, fields } => Ok((name, fields)),
            Value::PackedNat(v) => {
                self.tick()?;
                if v == 0 {
                    Ok(("Zero".to_owned(), Vec::new()))
                } else {
                    let tail = self.packed_nat(v - 1)?;
                    let mut fields = Vec::new();
                    fields.push(tail);
                    Ok(("Succ".to_owned(), fields))
                }
            },
            Value::PackedWord { wrapper, bits } => {
                self.tick()?;
                let word = self.allocate(Thunk::Ready(Value::PackedBits { bits, width: 32 }))?;
                let mut fields = Vec::new();
                fields.push(word);
                Ok((wrapper.name().to_owned(), fields))
            },
            Value::PackedBits { bits, width } => {
                self.tick()?;
                if !valid_bits(bits, width) {
                    return Err(RuntimeError::InvalidPackedBits);
                }
                if width == 0 {
                    return Ok(("WNil".to_owned(), Vec::new()));
                }
                let head = self.allocate(
                    Thunk::Ready(Value::Constructor {
                        name: if bits & 1 == 0 { "False".to_owned() } else { "True".to_owned() },
                        fields: Vec::new(),
                    }),
                )?;
                let ghost mid = self.arena@;
                let tail = self.allocate(Thunk::Ready(Value::PackedBits { bits: bits >> 1, width: width - 1 }))?;
                proof {
                    assert(head != tail);
                    assert(self.arena@[head as int] == mid[head as int]);
                }
                let mut fields = Vec::new();
                fields.push(head);
                fields.push(tail);
                Ok(("WCon".to_owned(), fields))
            },
            _ => Err(RuntimeError::ExpectedConstructor),
        }
    }
}

} // verus!
