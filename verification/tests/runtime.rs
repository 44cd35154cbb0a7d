use std::cell::Cell;
use std::collections::BTreeSet;
use teamy_bend::gc::{COLLECTION_DEBT, RESERVE};
use teamy_bend::machine::{
    push_frame, Cancellation, Environment, Frame, Machine, Program, Thunk, ThunkId, Value,
    ARENA_LIMIT, FRAME_LIMIT, STEPS,
};

fn program() -> Program {
    Program::from_checked(Vec::new(), Vec::new())
}

fn erased(machine: &mut Machine<'_>) -> ThunkId {
    machine.allocate(Thunk::Ready(Value::Erased)).unwrap()
}

struct Always;

impl Cancellation for Always {
    fn cancelled(&self) -> bool {
        true
    }
}

struct AfterCalls {
    calls: Cell<usize>,
    cutoff: usize,
}

impl Cancellation for AfterCalls {
    fn cancelled(&self) -> bool {
        self.calls.set(self.calls.get() + 1);
        self.calls.get() > self.cutoff
    }
}

#[test]
fn resource_limits_reject_before_growing_their_arenas() {
    let program = program();
    let mut machine = Machine::new(&program);
    machine.remaining = 0;
    machine.tick().expect_err("step budget is enforced");
    machine
        .arena
        .resize_with(ARENA_LIMIT, || Some(Thunk::Ready(Value::Erased)));
    machine
        .allocate(Thunk::Ready(Value::Erased))
        .expect_err("thunk arena is bounded");
    machine.environments.resize_with(ARENA_LIMIT, || {
        Some(Environment {
            parent: None,
            bindings: Vec::new(),
        })
    });
    machine
        .environment(0, Vec::new())
        .expect_err("environment arena is bounded");
    let mut frames = (0..FRAME_LIMIT).map(Frame::Update).collect();
    push_frame(&mut frames, Frame::Update(0)).expect_err("continuations are bounded");
}

#[test]
fn automatic_collection_reclaims_both_arenas_and_avoids_futile_repetition() {
    let program = program();
    let mut machine = Machine::new(&program);
    let root = erased(&mut machine);
    for _ in 1..ARENA_LIMIT - RESERVE {
        erased(&mut machine);
        machine.environment(0, Vec::new()).unwrap();
    }
    machine.collection_safe_point(root, &Vec::new()).unwrap();
    assert_eq!(machine.gc.collections, 1);
    assert_eq!(machine.gc.free_thunks.len(), ARENA_LIMIT - RESERVE - 1);
    assert_eq!(
        machine.gc.free_environments.len(),
        ARENA_LIMIT - RESERVE - 1
    );
    let thunk_len = machine.arena.len();
    let environment_len = machine.environments.len();
    for _ in 0..COLLECTION_DEBT {
        erased(&mut machine);
        machine.environment(0, Vec::new()).unwrap();
    }
    machine.collection_safe_point(root, &Vec::new()).unwrap();
    assert_eq!(
        machine.gc.collections, 1,
        "plenty of space requires no collection"
    );
    assert_eq!(machine.arena.len(), thunk_len);
    assert_eq!(machine.environments.len(), environment_len);
}

#[test]
fn mark_cycles_are_bounded_and_invalid_roots_steps_and_cancellation_fail_closed() {
    let program = program();
    let always = Always;
    let mut machine = Machine::new(&program);
    let root = erased(&mut machine);
    machine.arena[root] = Some(Thunk::Application(root, root));
    machine.collect(root, &Vec::new()).unwrap();
    assert!(machine.arena[root].is_some());
    machine
        .collect(ARENA_LIMIT, &Vec::new())
        .expect_err("invalid root must not index an arena");
    machine.remaining = 0;
    assert!(machine
        .collect(root, &Vec::new())
        .unwrap_err()
        .message()
        .contains("step budget"));
    machine.remaining = STEPS;
    machine.cancelled = Some(&always);
    assert!(machine
        .collect(root, &Vec::new())
        .unwrap_err()
        .message()
        .contains("cancelled"));
}

#[test]
fn interruption_during_either_sweep_keeps_live_ids_and_free_lists_consistent() {
    let program = program();
    let mut saw_partial_thunk_sweep = false;
    let mut saw_partial_environment_sweep = false;
    for cancellation in [false, true] {
        for cutoff in 0..40 {
            let cancelled = AfterCalls {
                calls: Cell::new(0),
                cutoff,
            };
            let mut machine = Machine::new(&program);
            let dead = erased(&mut machine);
            let live = erased(&mut machine);
            let dead_environment = machine.environment(0, Vec::new()).unwrap();
            let live_environment = machine.environment(0, vec![(0, live)]).unwrap();
            let root = machine
                .allocate(Thunk::Ready(Value::Closure {
                    binder: 0,
                    body: teamy_bend::term::term(teamy_bend::term::Term::Efq),
                    environment: live_environment,
                }))
                .unwrap();
            if cancellation {
                machine.cancelled = Some(&cancelled);
            } else {
                machine.remaining = cutoff;
            }
            let result = machine.collect(root, &Vec::new());
            assert!(machine.arena[root].is_some());
            assert!(machine.arena[live].is_some());
            assert!(machine.environments[0].is_some());
            assert!(machine.environments[live_environment].is_some());
            for id in &machine.gc.free_thunks {
                assert!(machine.arena[*id].is_none());
            }
            for id in &machine.gc.free_environments {
                assert!(machine.environments[*id].is_none());
            }
            assert_eq!(
                machine.gc.free_thunks.iter().collect::<BTreeSet<_>>().len(),
                machine.gc.free_thunks.len()
            );
            assert_eq!(
                machine
                    .gc
                    .free_environments
                    .iter()
                    .collect::<BTreeSet<_>>()
                    .len(),
                machine.gc.free_environments.len()
            );
            if let Err(error) = result {
                let expected = if cancellation {
                    "cancelled"
                } else {
                    "step budget"
                };
                assert!(error.message().contains(expected), "{error:?}");
                saw_partial_thunk_sweep |= machine.arena[dead].is_none();
                saw_partial_environment_sweep |= machine.environments[dead_environment].is_none();
                // Even an interrupted collection leaves a safe arena. A later
                // caller cannot reuse a live slot or duplicate a vacant entry
                // when the free lists are rebuilt.
                machine.cancelled = None;
                machine.remaining = STEPS;
                machine.collect(root, &Vec::new()).unwrap();
                assert_eq!(erased(&mut machine), dead);
                assert_eq!(
                    machine.environment(0, Vec::new()).unwrap(),
                    dead_environment
                );
            }
        }
    }
    assert!(saw_partial_thunk_sweep);
    assert!(saw_partial_environment_sweep);
}
