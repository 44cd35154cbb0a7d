//! Native fast paths for checked Base operations on compact naturals and
//! words. A fast path only reads arguments that are already compact (or, for
//! a natural, a rebuilt unary prefix of one); any other argument hands the
//! whole call back to the checked ordinary body with its original thunks.
use crate::eval::updates_live;
use crate::machine::{
    frame_ok, frames_ok, push_frame, value_ok, Evaluation, Frame, Machine, OrdinaryArguments, RuntimeError, Thunk,
    ThunkId, Value, Wrapper, ARENA_LIMIT, FRAME_LIMIT, NAT_MAX,
};
use crate::naturals::{operation_arity, Operation};
use crate::numeric::{optimization_arity, PureOptimization};
use crate::text::str_eq;
use vstd::prelude::*;

verus! {

/// What every evaluator transition keeps: the arena invariant, its growth,
/// the slots in use, the roots and output count, and well-formed frames;
/// a returned thunk is in range.
pub open spec fn step_ok<'p>(new: Machine<'p>, old: Machine<'p>, frames: Seq<Frame>, r: Result<ThunkId, RuntimeError>) -> bool {
    &&& new.wf()
    &&& new.grows_from(&old)
    &&& new.keeps_live(&old)
    &&& new.gc.roots == old.gc.roots
    &&& new.output_nodes == old.output_nodes
    &&& frames_ok(frames, new.arena@.len() as nat)
    &&& updates_live(frames, new.arena@)
    &&& r matches Ok(id) ==> id < new.arena@.len()
}

/// The continuations `old` are still at the bottom of `new`.
pub open spec fn kept_below(old: Seq<Frame>, new: Seq<Frame>) -> bool {
    old.len() <= new.len() && forall|k: int| 0 <= k < old.len() ==> #[trigger] new[k] == old[k]
}

/// Continuations stay well formed while the arena only grows and keeps
/// its slots in use.
pub proof fn lemma_frames_kept<'p>(frames: Seq<Frame>, old: Machine<'p>, new: Machine<'p>)
    requires
        frames_ok(frames, old.arena@.len() as nat),
        updates_live(frames, old.arena@),
        new.keeps_live(&old),
    ensures
        frames_ok(frames, new.arena@.len() as nat),
        updates_live(frames, new.arena@),
{
    assert forall|k: int| 0 <= k < frames.len() implies frame_ok(#[trigger] frames[k], new.arena@.len() as nat) by {
        assert(frame_ok(frames[k], old.arena@.len() as nat));
    }
    assert forall|k: int| 0 <= k < frames.len() implies (#[trigger] frames[k] matches Frame::Update(i) ==> (i
        < new.arena@.len() && new.arena@[i as int] is Some)) by {
        if let Frame::Update(i) = frames[k] {
            assert(old.arena@[i as int] is Some);
        }
    }
}

/// Natural subtraction, stopping at zero.
pub open spec fn monus(a: u64, b: u64) -> u64 {
    if a >= b { (a - b) as u64 } else { 0 }
}

/// The constructor that a comparison of two naturals answers.
pub open spec fn comparison_name(a: u64, b: u64) -> Seq<char> {
    if a < b { "LT"@ } else if a == b { "EQ"@ } else { "GT"@ }
}

/// The decimal digits of a natural, as ASCII bytes.
pub open spec fn decimal_bytes(n: nat) -> Seq<u8>
    decreases n,
{
    if n < 10 {
        seq![(48 + n) as u8]
    } else {
        decimal_bytes(n / 10).push((48 + n % 10) as u8)
    }
}

/// The decimal digits of `value`.
pub fn decimal_digits(value: u64) -> (r: Vec<u8>)
    ensures
        r@ == decimal_bytes(value as nat),
    decreases value,
{
    if value < 10 {
        let mut out = Vec::new();
        out.push((48 + value) as u8);
        proof {
            assert(out@ =~= seq![(48 + value) as u8]);
        }
        out
    } else {
        let mut out = decimal_digits(value / 10);
        out.push((48 + value % 10) as u8);
        out
    }
}

/// The thunk of a global name, if the program defines it with a body.
pub open spec fn has_body(m: Machine, name: Seq<char>) -> bool {
    exists|k: int| 0 <= k < m.program.definitions@.len() && (#[trigger] m.program.definitions@[k]).name@ == name
        && m.program.definitions@[k].body is Some
}

impl<'p> Machine<'p> {
    /// Apply the checked ordinary body of `name` to the original argument
    /// thunks, bypassing reference lookup so the fast path is not taken again.
    fn ordinary_body(&mut self, name: &str, arguments: &Vec<ThunkId>, missing: RuntimeError) -> (r: Result<ThunkId, RuntimeError>)
        requires
            old(self).wf(),
            forall|k: int| 0 <= k < arguments@.len() ==> #[trigger] arguments@[k] < old(self).arena@.len(),
        ensures
            final(self).wf(),
            final(self).grows_from(old(self)),
            final(self).keeps_live(old(self)),
            final(self).globals == old(self).globals,
            final(self).gc.roots == old(self).gc.roots,
            final(self).output_nodes == old(self).output_nodes,
            r matches Ok(id) ==> id < final(self).arena@.len(),
            r matches Err(e) ==> e == missing || e == RuntimeError::ThunkBudget,
    {
        let mut d: usize = 0;
        while d < self.program.definitions.len()
            invariant
                d <= self.program.definitions@.len(),
            decreases self.program.definitions@.len() - d,
        {
            if str_eq(self.program.definitions[d].name.as_str(), name) {
                break;
            }
            d = d + 1;
        }
        if d >= self.program.definitions.len() {
            return Err(missing);
        }
        let body = match &self.program.definitions[d].body {
            Some(body) => crate::term::share(body),
            None => {
                return Err(missing);
            },
        };
        let mut function = self.expression(body, 0)?;
        let mut k: usize = 0;
        while k < arguments.len()
            invariant
                self.wf(),
                self.grows_from(old(self)),
                self.keeps_live(old(self)),
                self.globals == old(self).globals,
                self.gc.roots == old(self).gc.roots,
                self.output_nodes == old(self).output_nodes,
                k <= arguments@.len(),
                function < self.arena@.len(),
                forall|j: int| 0 <= j < arguments@.len() ==> #[trigger] arguments@[j] < self.arena@.len(),
            decreases arguments@.len() - k,
        {
            function = self.allocate(Thunk::Application(function, arguments[k]))?;
            k = k + 1;
        }
        Ok(function)
    }

    /// A 32-bit result under `wrapper`: compact when the program packs words,
    /// else the full constructor tree, lowest bit outermost.
    pub fn numeric_word_value(&mut self, wrapper: Wrapper, bits: u32) -> (r: Result<ThunkId, RuntimeError>)
        requires
            old(self).wf(),
        ensures
            final(self).wf(),
            final(self).grows_from(old(self)),
            final(self).keeps_live(old(self)),
            final(self).globals == old(self).globals,
            final(self).gc.roots == old(self).gc.roots,
            final(self).output_nodes == old(self).output_nodes,
            final(self).remaining == old(self).remaining,
            r matches Ok(id) ==> id < final(self).arena@.len(),
            old(self).program.packed ==> (r matches Ok(id) ==> final(self).arena@[id as int] == Some(
                Thunk::Ready(Value::PackedWord { wrapper, bits }),
            )),
            r matches Err(e) ==> e == RuntimeError::ThunkBudget,
            old(self).program.packed && (old(self).gc.free_thunks@.len() > 0 || old(self).arena@.len() < ARENA_LIMIT)
                ==> r is Ok,
    {
        if self.program.packed {
            return self.allocate(Thunk::Ready(Value::PackedWord { wrapper, bits }));
        }
        let mut word = self.ready_constructor("WNil", Vec::new())?;
        let mut bit: u32 = 32;
        while bit > 0
            invariant
                self.wf(),
                self.grows_from(old(self)),
                self.keeps_live(old(self)),
                self.globals == old(self).globals,
                self.gc.roots == old(self).gc.roots,
                self.output_nodes == old(self).output_nodes,
                self.remaining == old(self).remaining,
                word < self.arena@.len(),
                bit <= 32,
                !old(self).program.packed,
            decreases bit,
        {
            bit = bit - 1;
            let set = (bits >> bit) & 1 == 1;
            let head = self.ready_constructor(if set { "True" } else { "False" }, Vec::new())?;
            let mut fields = Vec::new();
            fields.push(head);
            fields.push(word);
            word = self.ready_constructor("WCon", fields)?;
        }
        let mut fields = Vec::new();
        fields.push(word);
        self.ready_constructor(wrapper.name(), fields)
    }

    /// Apply a native natural operation to one more argument: a partial call
    /// until its arity is reached, then read the arguments on the stack.
    pub fn apply_nat(
        &mut self,
        operation: Operation,
        arguments: Vec<ThunkId>,
        argument: ThunkId,
        frames: &mut Vec<Frame>,
    ) -> (r: Result<ThunkId, RuntimeError>)
        requires
            old(self).wf(),
            argument < old(self).arena@.len(),
            forall|k: int| 0 <= k < arguments@.len() ==> #[trigger] arguments@[k] < old(self).arena@.len(),
            frames_ok(old(frames)@, old(self).arena@.len() as nat),
            updates_live(old(frames)@, old(self).arena@),
        ensures
            step_ok(*final(self), *old(self), final(frames)@, r),
            kept_below(old(frames)@, final(frames)@),
            arguments@.len() + 1 < operation_arity(operation) ==> (r matches Ok(id) ==> final(frames)@ == old(frames)@
                && (final(self).arena@[id as int] matches Some(Thunk::Ready(Value::Natural { operation: o, arguments: a }))
                && o == operation && a@ == arguments@.push(argument))),
            arguments@.len() + 1 > operation_arity(operation) ==> r == Err::<ThunkId, RuntimeError>(RuntimeError::NatArity),
            arguments@.len() + 1 == operation_arity(operation) ==> (r matches Ok(id) ==> id == arguments@.push(argument)[0]),
    {
        let mut arguments = arguments;
        arguments.push(argument);
        if arguments.len() < operation.arity() {
            return self.allocate(Thunk::Ready(Value::Natural { operation, arguments }));
        }
        if arguments.len() != operation.arity() {
            return Err(RuntimeError::NatArity);
        }
        let first = arguments[0];
        push_frame(frames, Frame::Natural(Evaluation { operation, arguments, values: Vec::new(), prefix: 0 }))?;
        Ok(first)
    }

    /// Continue a native natural operation with the value of its current
    /// argument; when every argument is read, compute the answer.
    #[verifier::rlimit(40)]
    #[verifier::loop_isolation(false)]
    pub fn nat_step(&mut self, state: Evaluation, value: Value, frames: &mut Vec<Frame>) -> (r: Result<ThunkId, RuntimeError>)
        requires
            old(self).wf(),
            value_ok(value, old(self).arena@.len() as nat, old(self).environments@.len() as nat),
            frame_ok(Frame::Natural(state), old(self).arena@.len() as nat),
            frames_ok(old(frames)@, old(self).arena@.len() as nat),
            updates_live(old(frames)@, old(self).arena@),
        ensures
            step_ok(*final(self), *old(self), final(frames)@, r),
            kept_below(old(frames)@, final(frames)@),
            state.operation == Operation::Sub && state.values@.len() == 1 && state.arguments@.len() == 2
                && old(self).program.packed && value is PackedNat && value->PackedNat_0 + state.prefix <= NAT_MAX ==> (
            r matches Ok(id) ==> final(self).arena@[id as int] == Some(
                Thunk::Ready(Value::PackedNat(monus(state.values@[0], (value->PackedNat_0 + state.prefix) as u64))),
            )),
            state.operation != Operation::FromU32 && value is PackedNat && value->PackedNat_0 + state.prefix > NAT_MAX
                ==> r == Err::<ThunkId, RuntimeError>(RuntimeError::NatBound),
            state.operation == Operation::Cmp && state.values@.len() == 1 && state.arguments@.len() == 2
                && value is PackedNat && value->PackedNat_0 + state.prefix <= NAT_MAX ==> (r matches Ok(id) ==> (
            final(self).arena@[id as int] matches Some(Thunk::Ready(Value::Constructor { name, fields })) && name@
                == comparison_name(state.values@[0], (value->PackedNat_0 + state.prefix) as u64) && fields@.len() == 0)),
            state.operation == Operation::FromU32 && state.values@.len() + 1 == state.arguments@.len() && old(self).program.packed
                ==> (value matches Value::PackedWord { wrapper: Wrapper::U32, bits } ==> (
                (r is Ok || r == Err::<ThunkId, RuntimeError>(RuntimeError::ThunkBudget))
                && (r matches Ok(id) ==> final(self).arena@[id as int] == Some(Thunk::Ready(Value::PackedNat(bits as u64)))))),
            state.operation == Operation::ToU32 && state.values@.len() + 1 == state.arguments@.len() && old(self).program.packed
                && value is PackedNat && value->PackedNat_0 + state.prefix <= NAT_MAX ==> (r matches Ok(id) ==> final(self).arena@[
                id as int] == Some(
                Thunk::Ready(
                    Value::PackedWord {
                        wrapper: Wrapper::U32,
                        bits: ((value->PackedNat_0 + state.prefix) % 0x1_0000_0000) as u32,
                    },
                ),
            )),
    {
        let mut state = state;
        let decoded: Option<u64> = match &value {
            Value::PackedWord { wrapper: Wrapper::U32, bits } if state.operation == Operation::FromU32 => Some(
                *bits as u64,
            ),
            Value::PackedNat(v) if state.operation != Operation::FromU32 => {
                if *v > NAT_MAX || state.prefix > NAT_MAX - *v {
                    return Err(RuntimeError::NatBound);
                }
                Some(*v + state.prefix)
            },
            Value::Constructor { name, fields } if (state.operation == Operation::Show || state.operation
                == Operation::ToU32) && str_eq(name.as_str(), "Zero") && fields.len() == 0 => Some(state.prefix),
            Value::Constructor { name, fields } if (state.operation == Operation::Show || state.operation
                == Operation::ToU32) && str_eq(name.as_str(), "Succ") && fields.len() == 1 => {
                if state.prefix >= NAT_MAX {
                    return Err(RuntimeError::NatBound);
                }
                state.prefix = state.prefix + 1;
                let next = fields[0];
                push_frame(frames, Frame::Natural(state))?;
                return Ok(next);
            },
            _ => None,
        };
        let read = match decoded {
            Some(read) => read,
            None => {
                let ghost before = *self;
                let r = self.ordinary_body(state.operation.name(), &state.arguments, RuntimeError::NatBody);
                proof {
                    lemma_frames_kept(frames@, before, *self);
                }
                return r;
            },
        };
        state.values.push(read);
        if state.values.len() < state.arguments.len() {
            let next = state.arguments[state.values.len()];
            push_frame(frames, Frame::Natural(state))?;
            return Ok(next);
        }
        match state.operation {
            Operation::Sub => {
                let a = state.values[0];
                let b = state.values[1];
                self.packed_nat(if a >= b { a - b } else { 0 })
            },
            Operation::Cmp => {
                let a = state.values[0];
                let b = state.values[1];
                self.ready_constructor(if a < b { "LT" } else if a == b { "EQ" } else { "GT" }, Vec::new())
            },
            Operation::FromU32 => self.packed_nat(read),
            Operation::ToU32 => {
                proof {
                    assert((read & 0xffff_ffff) as u32 == (read % 0x1_0000_0000) as u32) by (bit_vector);
                }
                self.numeric_word_value(Wrapper::U32, #[verifier::truncate] ((read & 0xffff_ffff) as u32))
            },
            Operation::Show => {
                let digits = decimal_digits(read);
                let mut result = self.ready_constructor("SNil", Vec::new())?;
                let mut k: usize = digits.len();
                while k > 0
                    invariant
                        self.wf(),
                        self.grows_from(old(self)),
                        self.keeps_live(old(self)),
                        self.gc.roots == old(self).gc.roots,
                        self.output_nodes == old(self).output_nodes,
                        result < self.arena@.len(),
                        k <= digits@.len(),
                    decreases k,
                {
                    k = k - 1;
                    self.tick()?;
                    let code = self.numeric_word_value(Wrapper::U32, digits[k] as u32)?;
                    let mut chr = Vec::new();
                    chr.push(code);
                    let character = self.ready_constructor("Chr", chr)?;
                    let mut cons = Vec::new();
                    cons.push(character);
                    cons.push(result);
                    result = self.ready_constructor("SCon", cons)?;
                }
                Ok(result)
            },
        }
    }

    /// Apply a native word operation to one more argument: a partial call
    /// until its arity is reached, then read the `U32` arguments in order.
    pub fn apply_numeric(
        &mut self,
        operation: PureOptimization,
        arguments: Vec<ThunkId>,
        argument: ThunkId,
        frames: &mut Vec<Frame>,
    ) -> (r: Result<ThunkId, RuntimeError>)
        requires
            old(self).wf(),
            argument < old(self).arena@.len(),
            forall|k: int| 0 <= k < arguments@.len() ==> #[trigger] arguments@[k] < old(self).arena@.len(),
            frames_ok(old(frames)@, old(self).arena@.len() as nat),
            updates_live(old(frames)@, old(self).arena@),
        ensures
            step_ok(*final(self), *old(self), final(frames)@, r),
            kept_below(old(frames)@, final(frames)@),
            arguments@.len() + 1 < optimization_arity(operation) ==> (r matches Ok(id) ==> final(frames)@ == old(frames)@ && (final(self).arena@[id as int] matches Some(Thunk::Ready(Value::Numeric { operation: o, arguments: a }))
                && o == operation && a@ == arguments@.push(argument))),
            arguments@.len() + 1 > optimization_arity(operation) ==> r == Err::<ThunkId, RuntimeError>(RuntimeError::NumericArity),
            arguments@.len() + 1 == optimization_arity(operation) ==> (r matches Ok(id) ==> id == arguments@.push(argument)[0]),
    {
        let mut arguments = arguments;
        arguments.push(argument);
        if arguments.len() < operation.arity() {
            return self.allocate(Thunk::Ready(Value::Numeric { operation, arguments }));
        }
        if arguments.len() != operation.arity() {
            return Err(RuntimeError::NumericArity);
        }
        let first = arguments[0];
        push_frame(frames, Frame::Numeric(OrdinaryArguments { operation, arguments, words: Vec::new() }))?;
        Ok(first)
    }

    /// Continue a native word operation with the value of its current
    /// argument: a compact `U32` is read; anything else runs the ordinary body.
    pub fn numeric_step(&mut self, state: OrdinaryArguments, value: Value, frames: &mut Vec<Frame>) -> (r: Result<ThunkId, RuntimeError>)
        requires
            old(self).wf(),
            frame_ok(Frame::Numeric(state), old(self).arena@.len() as nat),
            frames_ok(old(frames)@, old(self).arena@.len() as nat),
            updates_live(old(frames)@, old(self).arena@),
        ensures
            step_ok(*final(self), *old(self), final(frames)@, r),
            kept_below(old(frames)@, final(frames)@),
            state.words@.len() + 1 == state.arguments@.len() && old(self).program.packed ==> (
            value matches Value::PackedWord { wrapper: Wrapper::U32, bits } ==> (r matches Ok(id) ==> final(self).arena@[id as int] == Some(Thunk::Ready(Value::PackedWord {
                wrapper: Wrapper::U32,
                bits: word_result(state.operation, state.words@.push(bits)),
            })))),
            state.words@.len() + 1 == state.arguments@.len() && old(self).program.packed && (value matches Value::PackedWord {
                wrapper: Wrapper::U32,
                ..
            }) && (old(self).gc.free_thunks@.len() > 0 || old(self).arena@.len() < ARENA_LIMIT) ==> r is Ok,
            state.words@.len() + 1 < state.arguments@.len() && old(frames)@.len() < FRAME_LIMIT ==> (value matches Value::PackedWord {
                wrapper: Wrapper::U32,
                bits,
            } ==> r == Ok::<ThunkId, RuntimeError>(state.arguments@[state.words@.len() + 1int]) && final(frames)@.len()
                == old(frames)@.len() + 1 && (final(frames)@.last() matches Frame::Numeric(s) && s.operation == state.operation
                && s.arguments@ == state.arguments@ && s.words@ == state.words@.push(bits))),
    {
        let mut state = state;
        match value {
            Value::PackedWord { wrapper: Wrapper::U32, bits } => {
                state.words.push(bits);
                if state.words.len() == state.arguments.len() {
                    let result = numeric_result(state.operation, &state.words);
                    return self.numeric_word_value(Wrapper::U32, result);
                }
                let next = state.arguments[state.words.len()];
                push_frame(frames, Frame::Numeric(state))?;
                Ok(next)
            },
            _ => self.ordinary_body(state.operation.name(), &state.arguments, RuntimeError::NumericBody),
        }
    }
}

/// The answer of a native word operation: wrapping addition, wrapping
/// multiplication, or a shift left by one.
pub open spec fn word_result(operation: PureOptimization, words: Seq<u32>) -> u32 {
    match operation {
        PureOptimization::Add => ((words[0] + words[1]) % 0x1_0000_0000) as u32,
        PureOptimization::Mul => ((words[0] * words[1]) % 0x1_0000_0000) as u32,
        PureOptimization::Shl => ((words[0] * 2) % 0x1_0000_0000) as u32,
    }
}

/// The answer of a native word operation on its arguments' bits.
pub fn numeric_result(operation: PureOptimization, words: &Vec<u32>) -> (r: u32)
    requires
        words@.len() == optimization_arity(operation),
    ensures
        r == word_result(operation, words@),
{
    match operation {
        PureOptimization::Add => {
            let a = words[0];
            let b = words[1];
            let sum = (a as u64) + (b as u64);
            (sum % 0x1_0000_0000) as u32
        },
        PureOptimization::Mul => {
            let a = words[0];
            let b = words[1];
            assert((a as int) * (b as int) <= 0xffff_fffe_0000_0001) by (nonlinear_arith)
                requires
                    a <= 0xffff_ffffu32,
                    b <= 0xffff_ffffu32,
            ;
            let product = (a as u64) * (b as u64);
            (product % 0x1_0000_0000) as u32
        },
        PureOptimization::Shl => {
            let a = words[0];
            (((a as u64) * 2) % 0x1_0000_0000) as u32
        },
    }
}

} // verus!
