use teamy_bend::channels::{Answer, Outcome, State, Transition, Wake};
use teamy_bend::machine::{RootVisitor, ARENA_LIMIT};

struct Collect(Vec<usize>);

impl RootVisitor for Collect {
    fn visit(&mut self, id: usize) -> Result<(), String> {
        self.0.push(id);
        Ok(())
    }
}

struct Cancel;

impl RootVisitor for Cancel {
    fn visit(&mut self, _id: usize) -> Result<(), String> {
        Err("cancelled".to_owned())
    }
}

fn roots(state: &State) -> Vec<usize> {
    let mut collect = Collect(Vec::new());
    state.visit_roots(&mut collect).unwrap();
    collect.0
}

fn capacity(state: &State, handle: teamy_bend::channels::Handle) -> usize {
    state.rows[handle.index].channel.as_ref().unwrap().buffer.capacity()
}

fn is_ready(t: &Transition, answer: Answer) -> bool {
    t.outcome == Outcome::Ready(answer) && t.wakes.is_empty()
}

fn is_parked(t: &Transition) -> bool {
    t.outcome == Outcome::Parked && t.wakes.is_empty()
}

fn is_waking(t: &Transition, answer: Answer, continuation: usize, wake_answer: Answer) -> bool {
    t.outcome == Outcome::Ready(answer)
        && t.wakes == vec![Wake { continuation, answer: wake_answer }]
}

#[test]
fn buffered_values_and_waiting_senders_are_fifo() {
    let mut state = State::new();
    let handle = state.open(2).unwrap();
    for payload in [11, 12] {
        assert!(is_ready(&state.send(handle, payload, 90).unwrap(), Answer::Bool(true)));
    }
    assert!(is_parked(&state.send(handle, 13, 31).unwrap()));
    assert!(is_parked(&state.send(handle, 14, 32).unwrap()));
    for (payload, continuation) in [(11, 31), (12, 32)] {
        let t = state.recv(handle, 90).unwrap();
        assert!(is_waking(&t, Answer::Payload(payload), continuation, Answer::Bool(true)));
    }
    assert_eq!((state.payloads, state.waiters), (2, 0));
    for payload in [13, 14] {
        assert!(is_ready(&state.recv(handle, 90).unwrap(), Answer::Payload(payload)));
    }
    assert_eq!((state.payloads, state.waiters), (0, 0));
    assert!(is_parked(&state.recv(handle, 91).unwrap()));
}

#[test]
fn rendezvous_queues_both_directions_and_zero_is_a_real_payload() {
    let mut state = State::new();
    let handle = state.open(0).unwrap();
    for continuation in [21, 22] {
        assert!(is_parked(&state.recv(handle, continuation).unwrap()));
    }
    for (payload, continuation) in [(0, 21), (7, 22)] {
        let t = state.send(handle, payload, 90).unwrap();
        assert!(is_waking(&t, Answer::Bool(true), continuation, Answer::Payload(payload)));
    }
    for (payload, continuation) in [(0, 31), (8, 32)] {
        assert!(is_parked(&state.send(handle, payload, continuation).unwrap()));
    }
    for (payload, continuation) in [(0, 31), (8, 32)] {
        let t = state.recv(handle, 90).unwrap();
        assert!(is_waking(&t, Answer::Payload(payload), continuation, Answer::Bool(true)));
    }
    assert_eq!((state.payloads, state.waiters), (0, 0));
}

#[test]
fn close_wakes_senders_false_without_appending_their_payloads_to_drain() {
    let mut state = State::new();
    let handle = state.open(2).unwrap();
    state.send(handle, 11, 90).unwrap();
    state.send(handle, 12, 90).unwrap();
    state.send(handle, 13, 31).unwrap();
    state.send(handle, 14, 32).unwrap();
    let t = state.close(handle);
    assert_eq!(t.outcome, Outcome::Ready(Answer::Unit));
    assert_eq!(
        t.wakes,
        vec![
            Wake { continuation: 31, answer: Answer::Bool(false) },
            Wake { continuation: 32, answer: Answer::Bool(false) },
        ]
    );
    assert!(is_ready(&state.close(handle), Answer::Unit));
    assert_eq!(roots(&state), vec![11, 12]);
    assert!(is_ready(&state.send(handle, 15, 90).unwrap(), Answer::Bool(false)));
    assert!(is_ready(&state.recv(handle, 90).unwrap(), Answer::Payload(11)));
    assert!(state.is_live(handle));
    assert!(is_ready(&state.recv(handle, 90).unwrap(), Answer::Payload(12)));
    assert!(!state.is_live(handle));
    assert!(is_ready(&state.recv(handle, 90).unwrap(), Answer::Nothing));
    assert_eq!((state.payloads, state.waiters), (0, 0));
}

#[test]
fn close_wakes_receivers_none_in_registration_order() {
    let mut state = State::new();
    let handle = state.open(5).unwrap();
    state.recv(handle, 21).unwrap();
    state.recv(handle, 22).unwrap();
    let t = state.close(handle);
    assert_eq!(t.outcome, Outcome::Ready(Answer::Unit));
    assert_eq!(
        t.wakes,
        vec![
            Wake { continuation: 21, answer: Answer::Nothing },
            Wake { continuation: 22, answer: Answer::Nothing },
        ]
    );
    assert!(is_ready(&state.close(handle), Answer::Unit));
    assert!(!state.is_live(handle));
    assert!(roots(&state).is_empty());
    assert_eq!((state.payloads, state.waiters), (0, 0));
}

#[test]
fn row_reuse_cannot_reopen_a_stale_handle_and_generation_never_wraps() {
    let mut state = State::new();
    let old = state.open(0).unwrap();
    state.close(old);
    let new = state.open(1).unwrap();
    assert_eq!(old.index, new.index);
    assert_ne!(old.generation, new.generation);
    assert!(is_ready(&state.send(old, 7, 8).unwrap(), Answer::Bool(false)));
    assert!(is_ready(&state.recv(old, 8).unwrap(), Answer::Nothing));
    assert!(is_ready(&state.close(old), Answer::Unit));
    assert!(is_ready(&state.send(new, 7, 8).unwrap(), Answer::Bool(true)));
    assert!(is_ready(&state.recv(new, 8).unwrap(), Answer::Payload(7)));
    state.close(new);
    state.rows[new.index].generation = u32::MAX - 1;
    let final_generation = state.open(0).unwrap();
    assert_eq!(final_generation.generation, u32::MAX);
    state.close(final_generation);
    let separate = state.open(0).unwrap();
    assert_ne!(separate.index, final_generation.index);
    assert!(is_ready(&state.recv(final_generation, 8).unwrap(), Answer::Nothing));
}

#[test]
fn room_is_full_u32_without_upfront_allocation_and_payload_limit_is_reusable() {
    let mut state = State::new();
    let handle = state.open(u32::MAX).unwrap();
    assert_eq!(capacity(&state, handle), 0);
    for payload in 0..ARENA_LIMIT {
        state.send(handle, payload, 90).unwrap();
    }
    let error = state.send(handle, ARENA_LIMIT, 90).unwrap_err();
    assert!(error.contains("payload budget"));
    assert_eq!(state.payloads, ARENA_LIMIT);
    assert!(is_ready(&state.recv(handle, 90).unwrap(), Answer::Payload(0)));
    state.send(handle, ARENA_LIMIT, 90).unwrap();
    for payload in 1..=ARENA_LIMIT {
        assert!(is_ready(&state.recv(handle, 90).unwrap(), Answer::Payload(payload)));
    }
    assert_eq!(state.payloads, 0);
    assert!(capacity(&state, handle) <= 4);
}

#[test]
fn waiter_budget_is_aggregate_and_reusable_after_wake() {
    let mut state = State::new();
    let receiver = state.open(0).unwrap();
    let sender = state.open(0).unwrap();
    for continuation in 0..ARENA_LIMIT {
        state.recv(receiver, continuation).unwrap();
    }
    assert!(state.recv(sender, 99).unwrap_err().contains("waiter budget"));
    assert!(state.send(sender, 7, 99).unwrap_err().contains("waiter budget"));
    assert_eq!((state.payloads, state.waiters), (0, ARENA_LIMIT));
    let t = state.send(receiver, 7, 99).unwrap();
    assert!(is_waking(&t, Answer::Bool(true), 0, Answer::Payload(7)));
    state.send(sender, 8, 99).unwrap();
    assert_eq!((state.payloads, state.waiters), (1, ARENA_LIMIT));
    state.close(receiver);
    state.close(sender);
    assert_eq!((state.payloads, state.waiters), (0, 0));
}

#[test]
fn table_limit_is_reusable_and_capacity_does_not_count_as_payload_retention() {
    let mut state = State::new();
    let first = state.open(u32::MAX).unwrap();
    for _ in 1..ARENA_LIMIT {
        state.open(u32::MAX).unwrap();
    }
    assert!(state.open(0).unwrap_err().contains("table budget"));
    state.close(first);
    let reused = state.open(0).unwrap();
    assert_eq!(reused.index, first.index);
    assert_eq!((state.payloads, state.waiters), (0, 0));
}

#[test]
fn live_and_detached_transition_roots_are_complete_and_propagate_errors() {
    let mut state = State::new();
    let buffered = state.open(1).unwrap();
    let receiving = state.open(0).unwrap();
    state.send(buffered, 11, 90).unwrap();
    state.send(buffered, 12, 31).unwrap();
    state.recv(receiving, 21).unwrap();
    assert_eq!(roots(&state), vec![11, 31, 12, 21]);
    assert!(state.visit_roots(&mut Cancel).is_err());
    let transition = state.recv(buffered, 90).unwrap();
    let mut detached = Collect(Vec::new());
    transition.visit_roots(&mut detached).unwrap();
    assert_eq!(detached.0, vec![11, 31]);
    assert_eq!(roots(&state), vec![12, 21]);
    let transition = state.send(receiving, 13, 90).unwrap();
    let mut detached = Collect(Vec::new());
    transition.visit_roots(&mut detached).unwrap();
    assert_eq!(detached.0, vec![21, 13]);
    assert!(transition.visit_roots(&mut Cancel).is_err());
    state = State::new();
    assert!(roots(&state).is_empty());
}

#[test]
fn a_send_after_close_is_refused_and_a_second_close_wakes_no_one() {
    let mut state = State::new();
    let handle = state.open(1).unwrap();
    state.send(handle, 5, 90).unwrap();
    assert!(state.close(handle).wakes.is_empty());
    assert!(is_ready(&state.send(handle, 6, 91).unwrap(), Answer::Bool(false)));
    assert!(is_ready(&state.close(handle), Answer::Unit));
    assert_eq!(state.roots(), vec![5]);
}
