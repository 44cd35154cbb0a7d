use teamy_bend::host_files::{Codes, Failure};
use teamy_bend::machine::{RootVisitor, ARENA_LIMIT};
use teamy_bend::network::{
    address, network_step, send_progress, Interest, NetworkAction, NetworkRequest, Operation, Request, Resource,
    SendNext, SendOutcome, State, RETAINED_BYTES, TRANSFER_BYTES,
};

fn unix_codes() -> Codes {
    Codes {
        not_found: libc::ENOENT,
        bad_file: libc::EBADF,
        invalid: libc::EINVAL,
        invalid_text: libc::EILSEQ,
        io: libc::EIO,
        interrupted: libc::EINTR,
        would_block: libc::EAGAIN,
    }
}

#[test]
fn addresses_reject_non_numeric_or_noncanonical_ipv4_and_large_ports() {
    for host in [
        b"localhost".as_slice(),
        b"127.1",
        b"01.2.3.4",
        b"1.2.3.04",
        b"1.2.3.256",
        b"1.2.3.4.5",
        b"1.2.3.",
        b"+1.2.3.4",
        b"1.2.3.4\0",
        b" 1.2.3.4",
        b"::1",
        b"\xff.2.3.4",
    ] {
        assert!(matches!(address(host, 80, unix_codes()), Err(Failure::Io(22))));
    }
    assert!(matches!(address(b"127.0.0.1", 65536, unix_codes()), Err(Failure::Io(22))));
    assert_eq!(address(b"0.1.255.0", 65535, unix_codes()).unwrap(), ([0, 1, 255, 0], 65535));
}

#[test]
fn addresses_accept_zero_components_and_report_the_given_invalid_code() {
    assert_eq!(address(b"0.0.0.0", 0, unix_codes()).unwrap(), ([0, 0, 0, 0], 0));
    assert_eq!(address(b"255.255.255.255", 1, unix_codes()).unwrap(), ([255, 255, 255, 255], 1));
    assert_eq!(address(b"10.200.3.99", 8080, unix_codes()).unwrap(), ([10, 200, 3, 99], 8080));
    assert!(matches!(address(b"", 1, Codes::windows()), Err(Failure::Io(22))));
    assert!(matches!(address(b"1..2.3", 1, unix_codes()), Err(Failure::Io(22))));
    assert!(matches!(address(b"1.2.3.4444", 1, unix_codes()), Err(Failure::Io(22))));
}

struct Socket(u8);
struct Listener;

fn request(continuation: usize, operation: Operation) -> Request<Socket, Listener> {
    Request { resource: Resource::Socket(Socket(0)), handle: None, continuation, operation }
}

fn error<T>(result: Result<T, String>) -> String {
    match result {
        Err(message) => message,
        Ok(_) => panic!("expected an error"),
    }
}

struct Collect(Vec<usize>);

impl RootVisitor for Collect {
    fn visit(&mut self, id: usize) -> Result<(), String> {
        self.0.push(id);
        Ok(())
    }
}

#[test]
fn parked_requests_keep_registration_order_and_their_byte_budget() {
    let mut state: State<Socket, Listener> = State::new();
    state.park(5, request(50, Operation::Recv { max: 10 })).unwrap();
    state.park(2, request(20, Operation::Send { data: vec![1, 2, 3], offset: 0 })).unwrap();
    state.park(9, request(90, Operation::Accept)).unwrap();
    assert_eq!(state.retained_bytes, 13);
    assert!(state.park(5, request(51, Operation::Connect)).unwrap_err().contains("duplicate"));
    let mut roots = Collect(Vec::new());
    state.visit_roots(&mut roots).unwrap();
    assert_eq!(roots.0, vec![20, 50, 90]);
    let interests: Vec<Interest> = state.registrations(None).iter().map(|r| r.interest).collect();
    assert_eq!(interests, vec![Interest::Write, Interest::Read, Interest::Read]);
    let wake = Socket(7);
    assert_eq!(state.registrations(Some(&wake)).len(), 4);
    assert!(state.ready_orders(&vec![true, false, true], true).is_err());
    assert_eq!(state.ready_orders(&vec![true, false, true, true], true).unwrap(), vec![2, 9]);
    assert_eq!(state.ready_orders(&vec![false, true, false], false).unwrap(), vec![5]);
    let taken = state.take_pending(5).unwrap();
    assert_eq!(taken.continuation, 50);
    assert_eq!(state.retained_bytes, 3);
    assert!(error(state.take_pending(5)).contains("missing"));
    state.take_pending(2).unwrap();
    state.take_pending(9).unwrap();
    assert!(state.is_empty());
    assert!(!state.has_pending());
}

#[test]
fn byte_and_count_budgets_refuse_before_parking_and_handles_are_sealed() {
    let mut state: State<Socket, Listener> = State::new();
    state.park(1, request(1, Operation::SendTo { host: vec![0; 4], port: 9, data: vec![0; TRANSFER_BYTES] })).unwrap();
    let too_much = Operation::Recv { max: (RETAINED_BYTES - TRANSFER_BYTES - 4 + 1) as u32 };
    assert!(state.park(2, request(2, too_much)).unwrap_err().contains("buffer budget"));
    assert_eq!(state.retained_bytes, TRANSFER_BYTES + 4);
    let handle = state.insert(Resource::Listener(Listener)).unwrap();
    assert!(state.take(handle).unwrap().socket().is_err());
    assert!(error(state.take(handle)).contains("closed or belongs to a pending operation"));
    state.restore(handle, Resource::Socket(Socket(3))).unwrap();
    assert!(state.restore(handle, Resource::Socket(Socket(4))).unwrap_err().contains("returned twice"));
    match state.take(handle).unwrap().socket() {
        Ok(socket) => assert_eq!(socket.0, 3),
        Err(_) => panic!("a socket was returned"),
    }
    let mut full: State<Socket, Listener> = State::new();
    for order in 0..ARENA_LIMIT as u64 {
        full.park(order, request(0, Operation::Connect)).unwrap();
    }
    assert!(full.insert(Resource::Socket(Socket(1))).unwrap_err().contains("handle budget"));
    assert!(full.park(u64::MAX, request(0, Operation::Accept)).unwrap_err().contains("wait budget"));
}

#[test]
fn network_requests_take_descriptors_of_the_right_kind_and_say_what_the_host_does() {
    let mut state: State<Socket, Listener> = State::new();
    assert!(matches!(
        network_step(&mut state, NetworkRequest::Listen { port: 80 }, 1),
        Ok(NetworkAction::Listen { port: 80 })
    ));
    match network_step(&mut state, NetworkRequest::Connect { host: b"1.2.3.4".to_vec(), port: 9 }, 1) {
        Ok(NetworkAction::Connect { host, port }) => assert_eq!((host, port), (b"1.2.3.4".to_vec(), 9)),
        _ => panic!("expected a connect action"),
    }
    let listener = state.insert(Resource::Listener(Listener)).unwrap();
    let socket = state.insert(Resource::Socket(Socket(4))).unwrap();
    // A socket is no listener: the table keeps it.
    assert!(network_step(&mut state, NetworkRequest::Accept { listener: socket }, 1).is_err());
    match network_step(&mut state, NetworkRequest::Accept { listener }, 11) {
        Ok(NetworkAction::Park(request)) => {
            assert_eq!(request.continuation, 11);
            assert_eq!(request.handle, Some(listener));
            assert!(matches!(request.operation, Operation::Accept));
            assert!(matches!(request.resource, Resource::Listener(_)));
        }
        _ => panic!("expected a parked accept"),
    }
    // The listener left the table with the parked accept.
    assert!(network_step(&mut state, NetworkRequest::Close { handle: listener, listener: true }, 1).is_err());
    // Receives above one transfer are refused and keep the socket.
    let too_big = (TRANSFER_BYTES + 1) as u32;
    assert!(network_step(&mut state, NetworkRequest::Recv { socket, max: too_big }, 1).is_err());
    match network_step(&mut state, NetworkRequest::Send { socket, data: vec![1, 2] }, 12) {
        Ok(NetworkAction::Advance(request)) => {
            assert_eq!(request.continuation, 12);
            assert!(matches!(request.operation, Operation::Send { ref data, offset: 0 } if *data == vec![1, 2]));
            state.restore(socket, request.resource).unwrap();
        }
        _ => panic!("expected a send to try"),
    }
    match network_step(&mut state, NetworkRequest::Poll { socket, max: 5 }, 1) {
        Ok(NetworkAction::Poll { socket: s, resource, max }) => {
            assert_eq!((s, max), (socket, 5));
            state.restore(socket, resource).unwrap();
        }
        _ => panic!("expected a poll"),
    }
    assert!(matches!(
        network_step(&mut state, NetworkRequest::Close { handle: socket, listener: false }, 1),
        Ok(NetworkAction::Closed)
    ));
    assert!(state.is_empty());
}

#[test]
fn tcp_sends_continue_from_what_was_sent_and_refuse_no_progress() {
    assert!(matches!(send_progress(10, 4, SendOutcome::Wait), Ok(SendNext::Park)));
    assert!(matches!(send_progress(10, 4, SendOutcome::Sent(6)), Ok(SendNext::Continue(10))));
    assert!(matches!(send_progress(10, 4, SendOutcome::Sent(2)), Ok(SendNext::Continue(6))));
    assert!(send_progress(10, 4, SendOutcome::Sent(0)).unwrap_err().contains("no progress"));
    assert!(send_progress(10, 4, SendOutcome::Sent(7)).unwrap_err().contains("invalid count"));
    assert!(matches!(
        send_progress(10, 4, SendOutcome::Failed(Failure::Io(32))),
        Ok(SendNext::Failed(Failure::Io(32)))
    ));
}
