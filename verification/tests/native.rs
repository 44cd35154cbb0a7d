use teamy_bend::gc::{COLLECTION_DEBT, RESERVE};
use teamy_bend::machine::{Definition, Machine, Program, Thunk, ThunkId, Value, Wrapper, ARENA_LIMIT, NAT_MAX};
use teamy_bend::naturals::Operation;
use teamy_bend::numeric::PureOptimization;
use teamy_bend::term::{term, Term};

/// A packed program whose native operations are enabled, with ordinary
/// bodies that return their first argument.
fn program() -> Program {
    let first = || {
        Some(term(Term::Lam {
            name: "a".to_owned(),
            id: 0,
            body: term(Term::Lam {
                name: "b".to_owned(),
                id: 1,
                body: term(Term::Var { name: "a".to_owned(), id: 0 }),
            }),
        }))
    };
    Program {
        definitions: vec![
            Definition { name: "U32.add".to_owned(), body: first() },
            Definition { name: "Nat.sub".to_owned(), body: first() },
        ],
        datatypes: vec![],
        packed: true,
        optimizations: vec![PureOptimization::Add, PureOptimization::Mul, PureOptimization::Shl],
        nat_optimizations: vec![
            Operation::Sub,
            Operation::Cmp,
            Operation::Show,
            Operation::FromU32,
            Operation::ToU32,
        ],
    }
}

fn call(machine: &mut Machine<'_>, name: &str, arguments: &[ThunkId]) -> ThunkId {
    let mut result = machine.reference(name).unwrap();
    for argument in arguments {
        result = machine.allocate(Thunk::Application(result, *argument)).unwrap();
    }
    result
}

fn word(machine: &mut Machine<'_>, bits: u32) -> ThunkId {
    machine.allocate(Thunk::Ready(Value::PackedWord { wrapper: Wrapper::U32, bits })).unwrap()
}

#[test]
fn full_width_timestamps_subtract_compare_show_and_convert_without_unary_expansion() {
    let program = program();
    for value in [0, 1, 123_456_789_012, u64::from(u32::MAX), NAT_MAX] {
        let mut machine = Machine::new(&program);
        let a = machine.packed_nat(value).unwrap();
        let b = machine.packed_nat(value.saturating_sub(50)).unwrap();
        let difference = call(&mut machine, "Nat.sub", &[a, b]);
        assert!(matches!(machine.force(difference).unwrap(), Value::PackedNat(n) if n == value.min(50)));
        let comparison = call(&mut machine, "Nat.cmp", &[a, a]);
        assert!(
            matches!(machine.force(comparison).unwrap(), Value::Constructor { name, fields } if name == "EQ" && fields.is_empty())
        );
        let low = call(&mut machine, "U32.from_nat", &[a]);
        assert!(
            matches!(machine.force(low).unwrap(), Value::PackedWord { bits, wrapper: Wrapper::U32 } if u64::from(bits) == value & u64::from(u32::MAX))
        );
        let shown = call(&mut machine, "Nat.show", &[a]);
        let mut text = String::new();
        let mut current = shown;
        loop {
            let Value::Constructor { name, fields } = machine.force(current).unwrap() else {
                panic!("string")
            };
            if name == "SNil" {
                break;
            }
            assert_eq!(name, "SCon");
            let Value::Constructor { name, fields: character } = machine.force(fields[0]).unwrap() else {
                panic!("character")
            };
            assert_eq!(name, "Chr");
            let Value::PackedWord { bits, .. } = machine.force(character[0]).unwrap() else {
                panic!("codepoint")
            };
            text.push(char::from_u32(bits).unwrap());
            current = fields[1];
        }
        assert_eq!(text, value.to_string());
        assert!(machine.arena.len() < 150);
    }
}

#[test]
fn nat_frames_and_partial_calls_remain_live_with_collection_at_every_transition() {
    let program = program();
    let mut machine = Machine::new(&program);
    let a = machine.packed_nat(NAT_MAX).unwrap();
    let b = machine.packed_nat(NAT_MAX - 37).unwrap();
    let difference = call(&mut machine, "Nat.sub", &[a, b]);
    while machine.arena.len() < ARENA_LIMIT - RESERVE {
        machine.allocate(Thunk::Ready(Value::Erased)).unwrap();
    }
    machine.gc.allocation_debt = COLLECTION_DEBT;
    assert!(matches!(machine.force(difference).unwrap(), Value::PackedNat(37)));
    assert!(machine.gc.collections > 0);
}

#[test]
fn native_word_operations_wrap_and_a_constructor_argument_runs_the_ordinary_body() {
    let program = program();
    let mut machine = Machine::new(&program);
    let x = word(&mut machine, u32::MAX);
    let y = word(&mut machine, 2);
    let sum = call(&mut machine, "U32.add", &[x, y]);
    assert!(matches!(machine.force(sum).unwrap(), Value::PackedWord { wrapper: Wrapper::U32, bits: 1 }));
    let product = call(&mut machine, "U32.mul", &[x, y]);
    assert!(matches!(machine.force(product).unwrap(), Value::PackedWord { bits, .. } if bits == u32::MAX - 1));
    let shifted = call(&mut machine, "U32.shl", &[x]);
    assert!(matches!(machine.force(shifted).unwrap(), Value::PackedWord { bits, .. } if bits == u32::MAX - 1));
    let left = machine.ready_constructor("Left", vec![]).unwrap();
    let fallback = call(&mut machine, "U32.add", &[left, y]);
    assert!(matches!(machine.force(fallback).unwrap(), Value::Constructor { name, .. } if name == "Left"));
    let partial = call(&mut machine, "U32.add", &[x]);
    assert!(matches!(machine.force(partial).unwrap(), Value::Numeric { operation: PureOptimization::Add, arguments } if arguments == vec![x]));
}

#[test]
fn naturals_read_rebuilt_successors_and_refuse_values_past_the_bound() {
    let program = program();
    let mut machine = Machine::new(&program);
    let tail = machine.packed_nat(41).unwrap();
    let rebuilt = machine.ready_constructor("Succ", vec![tail]).unwrap();
    let low = call(&mut machine, "U32.from_nat", &[rebuilt]);
    assert!(matches!(machine.force(low).unwrap(), Value::PackedWord { bits: 42, .. }));
    let top = machine.packed_nat(NAT_MAX).unwrap();
    let past = machine.ready_constructor("Succ", vec![top]).unwrap();
    let shown = call(&mut machine, "Nat.show", &[past]);
    match machine.force(shown) {
        Err(error) => assert!(error.message().contains("48-bit bound")),
        Ok(_) => panic!("a natural past the bound must be refused"),
    }
    let small = machine.packed_nat(3).unwrap();
    let big = machine.packed_nat(5).unwrap();
    let monus = call(&mut machine, "Nat.sub", &[small, big]);
    assert!(matches!(machine.force(monus).unwrap(), Value::PackedNat(0)));
    let order = call(&mut machine, "Nat.cmp", &[small, big]);
    assert!(matches!(machine.force(order).unwrap(), Value::Constructor { name, .. } if name == "LT"));
    let seven = word(&mut machine, 7);
    let converted = call(&mut machine, "U32.to_nat", &[seven]);
    assert!(matches!(machine.force(converted).unwrap(), Value::PackedNat(7)));
}

#[test]
fn forcing_records_the_value_and_a_second_force_answers_it() {
    let program = program();
    let mut machine = Machine::new(&program);
    let x = word(&mut machine, 40);
    let y = word(&mut machine, 2);
    let sum = call(&mut machine, "U32.add", &[x, y]);
    assert!(matches!(machine.force(sum).unwrap(), Value::PackedWord { bits: 42, .. }));
    assert!(matches!(&machine.arena[sum], Some(Thunk::Ready(Value::PackedWord { bits: 42, .. }))));
    assert!(matches!(machine.force(sum).unwrap(), Value::PackedWord { bits: 42, .. }));
    let past = machine.arena.len();
    assert!(machine.force(past).is_err());
    machine.arena[sum] = Some(Thunk::Evaluating);
    assert!(machine.force(sum).is_err());
}
