//! The evaluator loop: weak-head evaluation with an explicit continuation stack.
use crate::gc::frame_names;
use crate::machine::{
    copy_ids, copy_thunk, copy_value, frames_ok, nat_literal, push_frame, same_value, value_ok, word_literal, Frame,
    Machine, Program, RuntimeError, Thunk, ThunkId, Value, ARENA_LIMIT, OUTPUT_DEPTH, OUTPUT_NODES,
};
use crate::term::{share, term, Term, TermRef};
use vstd::prelude::*;

verus! {

/// Slot `i` holds a value.
pub open spec fn ready_at(arena: Seq<Option<Thunk>>, i: ThunkId) -> bool {
    i < arena.len() && arena[i as int] matches Some(Thunk::Ready(_))
}

/// Every `Update` continuation names a slot that is in use.
pub open spec fn updates_live(fs: Seq<Frame>, arena: Seq<Option<Thunk>>) -> bool {
    forall|k: int| 0 <= k < fs.len() ==> (#[trigger] fs[k] matches Frame::Update(i) ==> (i < arena.len() && arena[i as int] is Some))
}

pub proof fn lemma_value_ok_grows(v: Value, nt: nat, ne: nat, nt2: nat, ne2: nat)
    requires
        value_ok(v, nt, ne),
        nt <= nt2,
        ne <= ne2,
    ensures
        value_ok(v, nt2, ne2),
{
}

/// Forcing twice: the first `force` of `start` leaves its value `v1` in
/// the slot (its `ensures`), and a second `force` of a slot that holds a
/// value answers that value (its `ensures` again), so the second answer is
/// the first. A demanded thunk is evaluated once.
pub proof fn law_forcing_twice_answers_the_first_value(arena: Seq<Option<Thunk>>, start: ThunkId, v1: Value, v2: Value)
    requires
        start < arena.len(),
        arena[start as int] matches Some(Thunk::Ready(w)) && same_value(w, v1),
        ready_at(arena, start) ==> same_value(v2, arena[start as int]->0->Ready_0),
    ensures
        same_value(v2, v1),
{
}

impl<'p> Machine<'p> {
    /// Evaluate a thunk to weak-head normal form, updating every thunk that was
    /// demanded on the way with its value.
    pub fn force(&mut self, start: ThunkId) -> (r: Result<Value, RuntimeError>)
        requires
            old(self).wf(),
        ensures
            final(self).wf(),
            final(self).grows_from(old(self)),
            final(self).gc.roots == old(self).gc.roots,
            final(self).output_nodes == old(self).output_nodes,
            r matches Ok(v) ==> value_ok(v, final(self).arena@.len() as nat, final(self).environments@.len() as nat),
            r matches Ok(v) ==> (final(self).arena@[start as int] matches Some(Thunk::Ready(w)) && same_value(w, v)),
            ready_at(old(self).arena@, start) ==> (r matches Ok(v) ==> same_value(v, old(self).arena@[start as int]->0->Ready_0)),
            start >= old(self).arena@.len() || old(self).arena@[start as int] is None || old(self).arena@[start as int]
                == Some(Thunk::Evaluating) ==> r is Err,
            ready_at(old(self).arena@, start) && old(self).cancelled is None && old(self).remaining >= 2
                && !old(self).collection_due() ==> r is Ok,
    {
        let mut frames: Vec<Frame> = Vec::new();
        let mut current = start;
        let ghost mut first = true;
        let ghost ready = ready_at(old(self).arena@, start);
        let ghost owed = ready && old(self).cancelled is None && old(self).remaining >= 2 && !old(self).collection_due();
        loop
            invariant
                self.wf(),
                self.grows_from(old(self)),
                self.gc.roots == old(self).gc.roots,
                self.output_nodes == old(self).output_nodes,
                frames_ok(frames@, self.arena@.len() as nat),
                updates_live(frames@, self.arena@),
                ready == ready_at(old(self).arena@, start),
                first ==> frames@.len() == 0 && current == start && *self == *old(self),
                !first ==> frames@.len() > 0 && frames@[0] == Frame::Update(start),
                ready ==> first,
                owed == (ready && old(self).cancelled is None && old(self).remaining >= 2 && !old(self).collection_due()),
                start >= old(self).arena@.len() || old(self).arena@[start as int] is None || old(self).arena@[start as int]
                    == Some(Thunk::Evaluating) ==> first,
            decreases self.remaining,
        {
            let ghost before = *self;
            let ghost was_first = first;
            self.collection_safe_point(current, &frames)?;
            proof {
                assert forall|k: int| 0 <= k < frames@.len() implies (#[trigger] frames@[k] matches Frame::Update(i) ==> (i < self.arena@.len() && self.arena@[i as int] is Some)) by {
                    if let Frame::Update(i) = frames@[k] {
                        assert(frame_names(frames@[k], i as int));
                        assert(before.is_thunk_root(current, frames@, i as int));
                        assert(before.arena@[i as int] is Some);
                    }
                }
            }
            self.tick()?;
            let ghost budget = self.remaining;
            let ghost snap = *self;
            if current >= self.arena.len() {
                return Err(RuntimeError::InvalidThunkReference);
            }
            proof {
                if was_first {
                    assert(before.is_thunk_root(current, frames@, start as int));
                    if old(self).arena@[start as int] is Some {
                        assert(self.arena@[start as int] == old(self).arena@[start as int]);
                    }
                }
            }
            let thunk = match &self.arena[current] {
                Some(t) => copy_thunk(t),
                None => return Err(RuntimeError::InvalidThunkReference),
            };
            proof {
                if owed {
                    assert(self.cancelled is None && self.remaining >= 1);
                    assert(thunk is Ready);
                }
            }
            let step: Option<Value> = match thunk {
                Thunk::Ready(value) => Some(value),
                Thunk::Evaluating => return Err(RuntimeError::CyclicEvaluation),
                Thunk::Application(function, argument) => {
                    self.arena.set(current, Some(Thunk::Evaluating));
                    proof {
                        assert(self.keeps_live(&snap));
                    }
                    push_frame(&mut frames, Frame::Update(current))?;
                    push_frame(&mut frames, Frame::Apply(argument))?;
                    current = function;
                    None
                },
                Thunk::Expression(expression, environment) => {
                    self.arena.set(current, Some(Thunk::Evaluating));
                    proof {
                        assert(self.keeps_live(&snap));
                    }
                    push_frame(&mut frames, Frame::Update(current))?;
                    match &*expression {
                        Term::Var { id, .. } => {
                            current = self.variable(environment, *id)?;
                            None
                        },
                        Term::Ref(name) | Term::GpuRef(name) => {
                            current = self.reference(name.as_str())?;
                            None
                        },
                        Term::Lam { id, body, .. } => Some(Value::Closure {
                            binder: *id,
                            body: share(body),
                            environment,
                        }),
                        Term::App(function, argument) => {
                            let argument = self.expression(share(argument), environment)?;
                            push_frame(&mut frames, Frame::Apply(argument))?;
                            current = self.expression(share(function), environment)?;
                            None
                        },
                        Term::Ctr { name, args } => {
                            let packed = if self.program.packed {
                                match word_literal(name.as_str(), args) {
                                    Some(v) => Some(v),
                                    None => nat_literal(name.as_str(), args),
                                }
                            } else {
                                None
                            };
                            match packed {
                                Some(v) => Some(v),
                                None => {
                                    let mut fields: Vec<ThunkId> = Vec::new();
                                    let mut k: usize = 0;
                                    while k < args.len()
                                        invariant
                                            self.wf(),
                                            self.grows_from(old(self)),
                                            self.gc.roots == old(self).gc.roots,
                                            self.output_nodes == old(self).output_nodes,
                                            self.keeps_live(&snap),
                                            self.remaining <= budget,
                                            current < self.arena@.len(),
                                            environment < self.environments@.len(),
                                            frames_ok(frames@, self.arena@.len() as nat),
                                            updates_live(frames@, self.arena@),
                                            !(ready_at(old(self).arena@, start) && old(self).cancelled is None && old(self).remaining >= 2 && !old(self).collection_due()),
                                            k <= args@.len(),
                                            forall|j: int| 0 <= j < fields@.len() ==> #[trigger] fields@[j] < self.arena@.len(),
                                        decreases args@.len() - k,
                                    {
                                        let id = self.expression(share(&args[k]), environment)?;
                                        fields.push(id);
                                        k = k + 1;
                                    }
                                    Some(Value::Constructor { name: name.clone(), fields })
                                },
                            }
                        },
                        Term::Mat { constructor, arm, fallback } => {
                            let arm = self.expression(share(arm), environment)?;
                            let fallback = self.expression(share(fallback), environment)?;
                            Some(Value::Match { constructor: constructor.clone(), arm, fallback })
                        },
                        Term::Let { bindings, body } => {
                            // Every right-hand side sees the original environment: lets are simultaneous.
                            let mut bound: Vec<(usize, ThunkId)> = Vec::new();
                            let mut k: usize = 0;
                            while k < bindings.len()
                                invariant
                                    self.wf(),
                                    self.grows_from(old(self)),
                                    self.gc.roots == old(self).gc.roots,
                                    self.output_nodes == old(self).output_nodes,
                                    self.keeps_live(&snap),
                                    self.remaining <= budget,
                                    current < self.arena@.len(),
                                    environment < self.environments@.len(),
                                    frames_ok(frames@, self.arena@.len() as nat),
                                    updates_live(frames@, self.arena@),
                                    !(ready_at(old(self).arena@, start) && old(self).cancelled is None && old(self).remaining >= 2 && !old(self).collection_due()),
                                    k <= bindings@.len(),
                                    forall|j: int| 0 <= j < bound@.len() ==> #[trigger] bound@[j].1 < self.arena@.len(),
                                decreases bindings@.len() - k,
                            {
                                let id = self.expression(share(&bindings[k].value), environment)?;
                                bound.push((bindings[k].id, id));
                                k = k + 1;
                            }
                            let scope = self.environment(environment, bound)?;
                            current = self.expression(share(body), scope)?;
                            None
                        },
                        Term::Ann(body, _) | Term::Rwt { body, .. } => {
                            current = self.expression(share(body), environment)?;
                            None
                        },
                        Term::Efq => Some(Value::Impossible),
                        Term::Hole(_) => return Err(RuntimeError::HoleReached),
                        _ => Some(Value::Erased),
                    }
                },
            };
            proof {
                first = false;
            }
            if let Some(first_value) = step {
                let mut value = first_value;
                let mut resumed = false;
                while !resumed
                    invariant
                        self.wf(),
                        self.grows_from(old(self)),
                        self.gc.roots == old(self).gc.roots,
                        self.output_nodes == old(self).output_nodes,
                        self.keeps_live(&snap),
                        self.remaining <= budget,
                        frames_ok(frames@, self.arena@.len() as nat),
                        updates_live(frames@, self.arena@),
                        !resumed ==> value_ok(value, self.arena@.len() as nat, self.environments@.len() as nat),
                        resumed ==> current < self.arena@.len(),
                        frames@.len() > 0 ==> frames@[0] == Frame::Update(start),
                        resumed ==> frames@.len() > 0,
                        !resumed && frames@.len() == 0 ==> (self.arena@[start as int] matches Some(Thunk::Ready(w))
                            && same_value(w, value)),
                        ready ==> frames@.len() == 0 && !resumed && same_value(value, old(self).arena@[start as int]->0->Ready_0),
                        ready == ready_at(old(self).arena@, start),
                        owed ==> ready && self.cancelled is None && self.remaining >= 1,
                        owed == (ready_at(old(self).arena@, start) && old(self).cancelled is None && old(self).remaining >= 2 && !old(self).collection_due()),
                        start < old(self).arena@.len() && old(self).arena@[start as int] is Some && old(self).arena@[start as int]
                            != Some(Thunk::Evaluating),
                    decreases self.remaining,
                {
                    self.tick()?;
                    let ghost step_budget = self.remaining;
                    match frames.pop() {
                        None => return Ok(value),
                        Some(Frame::Update(id)) => {
                            let copy = copy_value(&value);
                            self.arena.set(id, Some(Thunk::Ready(copy)));
                            proof {
                                assert(self.keeps_live(&snap));
                            }
                        },
                        Some(Frame::Apply(argument)) => match &value {
                            Value::Closure { binder, body, environment } => {
                                let mut binding = Vec::new();
                                binding.push((*binder, argument));
                                let scope = self.environment(*environment, binding)?;
                                current = self.expression(share(body), scope)?;
                                resumed = true;
                            },
                            Value::Match { constructor, arm, fallback } => {
                                push_frame(
                                    &mut frames,
                                    Frame::Match { constructor: constructor.clone(), arm: *arm, fallback: *fallback, argument },
                                )?;
                                current = argument;
                                resumed = true;
                            },
                            Value::Numeric { operation, arguments } => {
                                current = self.apply_numeric(*operation, copy_ids(arguments), argument, &mut frames)?;
                                resumed = true;
                            },
                            Value::Natural { operation, arguments } => {
                                current = self.apply_nat(*operation, copy_ids(arguments), argument, &mut frames)?;
                                resumed = true;
                            },
                            Value::Impossible => return Err(RuntimeError::ImpossibleBranch),
                            _ => return Err(RuntimeError::NotAFunction),
                        },
                        Some(Frame::Numeric(state)) => {
                            current = self.numeric_step(state, copy_value(&value), &mut frames)?;
                            resumed = true;
                        },
                        Some(Frame::Natural(state)) => {
                            current = self.nat_step(state, copy_value(&value), &mut frames)?;
                            resumed = true;
                        },
                        Some(Frame::Match { constructor, arm, fallback, argument }) => {
                            let (name, fields) = self.constructor_value(copy_value(&value))?;
                            current = self.resume_match(&name, &fields, &constructor, arm, fallback, argument)?;
                            resumed = true;
                        },
                    }
                }
            }
        }
    }
}

/// `id` is `head` applied to `args` one at a time, the first argument
/// innermost: `(((head a0) a1) ... an-1)`.
pub open spec fn applies(arena: Seq<Option<Thunk>>, id: int, head: int, args: Seq<ThunkId>) -> bool
    decreases args.len(),
{
    if args.len() == 0 {
        id == head
    } else {
        &&& 0 <= id < arena.len()
        &&& arena[id] matches Some(Thunk::Application(f, a)) && a == args.last() && applies(arena, f as int, head, args.drop_last())
    }
}

/// The function position `d` applications below `id`.
pub open spec fn function_below(arena: Seq<Option<Thunk>>, id: int, d: nat) -> int
    decreases d,
{
    if d == 0 {
        id
    } else {
        match arena[function_below(arena, id, (d - 1) as nat)] {
            Some(Thunk::Application(f, _)) => f as int,
            _ => -1,
        }
    }
}

/// An application chain survives when every slot in use keeps its content.
pub proof fn lemma_applies_kept(a1: Seq<Option<Thunk>>, a2: Seq<Option<Thunk>>, id: int, head: int, args: Seq<ThunkId>)
    requires
        applies(a1, id, head, args),
        forall|i: int| 0 <= i < a1.len() && (#[trigger] a1[i]) is Some ==> i < a2.len() && a2[i] == a1[i],
    ensures
        applies(a2, id, head, args),
    decreases args.len(),
{
    if args.len() > 0 {
        if let Some(Thunk::Application(f, _)) = a1[id] {
            lemma_applies_kept(a1, a2, f as int, head, args.drop_last());
        }
    }
}

proof fn lemma_function_below_step(arena: Seq<Option<Thunk>>, id: int, f: int, d: nat)
    requires
        0 <= id < arena.len(),
        arena[id] matches Some(Thunk::Application(g, _)) && g == f,
    ensures
        function_below(arena, id, d + 1) == function_below(arena, f, d),
    decreases d,
{
    reveal_with_fuel(function_below, 2);
    if d > 0 {
        lemma_function_below_step(arena, id, f, (d - 1) as nat);
        assert(function_below(arena, id, d) == function_below(arena, f, (d - 1) as nat));
    }
}

/// In the application of `head` to `args`, the `k`-th argument is met by
/// the `k`-th binder: going `n - 1 - k` function positions down from the
/// result reaches an application of the prefix before it to `args[k]`, and
/// `n` positions down reach `head` itself.
pub proof fn law_arguments_in_order(arena: Seq<Option<Thunk>>, id: int, head: int, args: Seq<ThunkId>, k: int)
    requires
        applies(arena, id, head, args),
        0 <= k < args.len(),
    ensures
        function_below(arena, id, args.len()) == head,
        arena[function_below(arena, id, (args.len() - 1 - k) as nat)] matches Some(Thunk::Application(f, a))
            && a == args[k] && f as int == function_below(arena, id, (args.len() - k) as nat),
    decreases args.len(),
{
    let n = args.len();
    if let Some(Thunk::Application(f, a)) = arena[id] {
        let rest = args.drop_last();
        lemma_function_below_step(arena, id, f as int, (n - 1) as nat);
        if rest.len() > 0 {
            lemma_applies_prefix_head(arena, f as int, head, rest);
        }
        if k == n - 1 {
            lemma_function_below_step(arena, id, f as int, 0);
        } else {
            law_arguments_in_order(arena, f as int, head, rest, k);
            lemma_function_below_step(arena, id, f as int, (n - 2 - k) as nat);
            lemma_function_below_step(arena, id, f as int, (n - 1 - k) as nat);
        }
    }
}

proof fn lemma_applies_prefix_head(arena: Seq<Option<Thunk>>, id: int, head: int, args: Seq<ThunkId>)
    requires
        applies(arena, id, head, args),
    ensures
        function_below(arena, id, args.len()) == head,
    decreases args.len(),
{
    if args.len() > 0 {
        if let Some(Thunk::Application(f, _)) = arena[id] {
            lemma_applies_prefix_head(arena, f as int, head, args.drop_last());
            lemma_function_below_step(arena, id, f as int, (args.len() - 1) as nat);
        }
    }
}

impl<'p> Machine<'p> {
    /// Where a match continues once its scrutinee is the constructor `name`
    /// with `fields`: the arm applied to the fields, first field first, when
    /// `name` is the constructor the match tests; otherwise the fallback
    /// applied to the scrutinee itself.
    pub fn resume_match(
        &mut self,
        name: &String,
        fields: &Vec<ThunkId>,
        constructor: &String,
        arm: ThunkId,
        fallback: ThunkId,
        argument: ThunkId,
    ) -> (r: Result<ThunkId, RuntimeError>)
        requires
            old(self).wf(),
            arm < old(self).arena@.len(),
            fallback < old(self).arena@.len(),
            argument < old(self).arena@.len(),
            forall|j: int| 0 <= j < fields@.len() ==> #[trigger] fields@[j] < old(self).arena@.len(),
        ensures
            final(self).wf(),
            final(self).keeps_live(old(self)),
            final(self).same_context(old(self)),
            final(self).environments == old(self).environments,
            forall|i: int| 0 <= i < old(self).arena@.len() && (#[trigger] old(self).arena@[i]) is Some ==> final(self).arena@[i]
                == old(self).arena@[i],
            r matches Ok(c) ==> c < final(self).arena@.len(),
            name@ == constructor@ ==> (r matches Ok(c) ==> applies(final(self).arena@, c as int, arm as int, fields@)),
            name@ != constructor@ ==> (r matches Ok(c) ==> final(self).arena@[c as int] == Some(Thunk::Application(fallback, argument))),
            r is Err ==> r == Err::<ThunkId, RuntimeError>(RuntimeError::ThunkBudget),
    {
        if crate::text::str_eq(name.as_str(), constructor.as_str()) {
            self.apply_fields(arm, fields)
        } else {
            let ghost prior = *self;
            let r = self.allocate(Thunk::Application(fallback, argument));
            proof {
                if let Ok(c) = r {
                    assert forall|i: int| 0 <= i < old(self).arena@.len() && (#[trigger] old(self).arena@[i]) is Some implies self.arena@[i]
                        == old(self).arena@[i] by {
                        if prior.gc.free_thunks@.len() > 0 {
                            let w = prior.gc.free_thunks@.len() - 1;
                            assert(prior.gc.free_thunks@[w] == c);
                        }
                    }
                }
            }
            r
        }
    }

    /// The arm of a matched constructor applied to the constructor's fields,
    /// the first field first: `arm f0 f1 ... fn-1`.
    pub fn apply_fields(&mut self, arm: ThunkId, fields: &Vec<ThunkId>) -> (r: Result<ThunkId, RuntimeError>)
        requires
            old(self).wf(),
            arm < old(self).arena@.len(),
            forall|j: int| 0 <= j < fields@.len() ==> #[trigger] fields@[j] < old(self).arena@.len(),
        ensures
            final(self).wf(),
            final(self).keeps_live(old(self)),
            final(self).same_context(old(self)),
            final(self).environments == old(self).environments,
            forall|i: int| 0 <= i < old(self).arena@.len() && (#[trigger] old(self).arena@[i]) is Some ==> final(self).arena@[i]
                == old(self).arena@[i],
            r matches Ok(c) ==> c < final(self).arena@.len() && applies(final(self).arena@, c as int, arm as int, fields@),
            r is Err ==> r == Err::<ThunkId, RuntimeError>(RuntimeError::ThunkBudget),
    {
        let mut current = arm;
        let mut k: usize = 0;
        while k < fields.len()
            invariant
                self.wf(),
                self.keeps_live(old(self)),
                self.same_context(old(self)),
                self.environments == old(self).environments,
                forall|i: int| 0 <= i < old(self).arena@.len() && (#[trigger] old(self).arena@[i]) is Some ==> self.arena@[i]
                    == old(self).arena@[i],
                k <= fields@.len(),
                current < self.arena@.len(),
                forall|j: int| 0 <= j < fields@.len() ==> #[trigger] fields@[j] < self.arena@.len(),
                applies(self.arena@, current as int, arm as int, fields@.take(k as int)),
            decreases fields@.len() - k,
        {
            let ghost before = self.arena@;
            let ghost prior = *self;
            let ghost cur = current;
            assert(fields@[k as int] < self.arena@.len());
            current = self.allocate(Thunk::Application(current, fields[k]))?;
            proof {
                let after = self.arena@;
                assert forall|i: int| 0 <= i < before.len() && (#[trigger] before[i]) is Some implies i < after.len() && after[i] == before[i] by {
                    if prior.gc.free_thunks@.len() > 0 {
                        let w = prior.gc.free_thunks@.len() - 1;
                        assert(prior.gc.free_thunks@[w] == current);
                        assert(i != current);
                    }
                }
                lemma_applies_kept(before, after, cur as int, arm as int, fields@.take(k as int));
                assert(fields@.take(k + 1).drop_last() =~= fields@.take(k as int));
                assert(fields@.take(k + 1).last() == fields@[k as int]);
                assert(after[current as int] == Some(Thunk::Application(cur, fields@[k as int])));
                assert forall|i: int| 0 <= i < old(self).arena@.len() && (#[trigger] old(self).arena@[i]) is Some implies self.arena@[i]
                    == old(self).arena@[i] by {
                    assert(before[i] is Some);
                }
            }
            k = k + 1;
        }
        proof {
            assert(fields@.take(k as int) =~= fields@);
        }
        Ok(current)
    }
}

/// A first-order data result: constructors all the way down.
pub open spec fn data_term(t: Term) -> bool
    decreases t,
{
    match t {
        Term::Ctr { args, .. } => forall|k: int| 0 <= k < args@.len() ==> data_term(*#[trigger] args@[k]),
        _ => false,
    }
}

impl<'p> Machine<'p> {
    /// Evaluate a thunk completely into a constructor tree, within the output
    /// depth and node budgets.
    pub fn materialize(&mut self, thunk: ThunkId, depth: usize) -> (r: Result<TermRef, RuntimeError>)
        requires
            old(self).wf(),
            old(self).gc.roots@.len() <= ARENA_LIMIT,
        ensures
            final(self).wf(),
            final(self).grows_from(old(self)),
            final(self).gc.roots@ == old(self).gc.roots@,
            final(self).output_nodes >= old(self).output_nodes,
            r matches Ok(t) ==> data_term(*t),
            depth > OUTPUT_DEPTH ==> r is Err,
        decreases OUTPUT_DEPTH + 1 - depth,
    {
        self.tick()?;
        if depth > OUTPUT_DEPTH || self.output_nodes >= OUTPUT_NODES {
            return Err(RuntimeError::OutputBudget);
        }
        self.output_nodes = self.output_nodes + 1;
        let value = self.force(thunk)?;
        match value {
            Value::Constructor { .. } | Value::PackedNat(_) | Value::PackedWord { .. } | Value::PackedBits { .. } => {
                let (name, fields) = self.constructor_value(value)?;
                // Packed views allocate fresh fields which are not children of the
                // original thunk: keep every sibling alive across nested evaluation.
                let start = self.push_roots(&fields)?;
                let ghost pushed = self.gc.roots@;
                let mut args: Vec<TermRef> = Vec::new();
                let mut failure: Option<RuntimeError> = None;
                let mut k: usize = 0;
                while k < fields.len()
                    invariant_except_break
                        failure is None,
                    invariant
                        self.wf(),
                        self.grows_from(old(self)),
                        self.gc.roots@ == pushed,
                        pushed == old(self).gc.roots@ + fields@,
                        pushed.len() <= ARENA_LIMIT,
                        self.output_nodes >= old(self).output_nodes,
                        start == old(self).gc.roots@.len(),
                        depth <= OUTPUT_DEPTH,
                        k <= fields@.len(),
                        forall|j: int| 0 <= j < args@.len() ==> data_term(*#[trigger] args@[j]),
                    ensures
                        self.wf(),
                        self.grows_from(old(self)),
                        self.gc.roots@ == pushed,
                        self.output_nodes >= old(self).output_nodes,
                        forall|j: int| 0 <= j < args@.len() ==> data_term(*#[trigger] args@[j]),
                    decreases fields@.len() - k,
                {
                    match self.materialize(fields[k], depth + 1) {
                        Ok(t) => args.push(t),
                        Err(e) => {
                            failure = Some(e);
                            break;
                        },
                    }
                    k = k + 1;
                }
                self.restore_roots(start);
                proof {
                    assert(self.gc.roots@ =~= old(self).gc.roots@);
                }
                if let Some(e) = failure {
                    return Err(e);
                }
                Ok(term(Term::Ctr { name, args }))
            },
            Value::Erased => Err(RuntimeError::ErasedResult),
            _ => Err(RuntimeError::FunctionResult),
        }
    }
}

impl Program {
    /// Apply the definition `name` to closed argument terms and evaluate the
    /// result into a constructor tree.
    pub fn evaluate(&self, name: &str, args: &Vec<TermRef>) -> (r: Result<TermRef, RuntimeError>)
        ensures
            r matches Ok(t) ==> data_term(*t),
    {
        let mut machine = Machine::new(self);
        let mut entry = machine.reference(name)?;
        let mut k: usize = 0;
        while k < args.len()
            invariant
                machine.wf(),
                machine.gc.roots@.len() == 0,
                entry < machine.arena@.len(),
                k <= args@.len(),
            decreases args@.len() - k,
        {
            let argument = machine.expression(share(&args[k]), 0)?;
            entry = machine.allocate(Thunk::Application(entry, argument))?;
            k = k + 1;
        }
        machine.materialize(entry, 0)
    }
}

} // verus!
