use teamy_bend::driver::{
    console_output, drive_step, halt_output, now_millis, sleep_deadline, task_end, wait_step,
    Console, Drive, Output, Stream, TaskEnd, Waiting,
};
use teamy_bend::runtime_clock::MAX_WAIT_NANOS;

fn shape(out: &[Output]) -> Vec<(bool, Stream, Vec<u8>)> {
    out.iter()
        .map(|o| match o {
            Output::Write(s, b) => (true, *s, b.clone()),
            Output::Flush(s) => (false, *s, Vec::new()),
        })
        .collect()
}

#[test]
fn console_requests_write_lines_and_flush_stdout_before_stderr() {
    assert_eq!(
        shape(&console_output(Console::Print, b"hi".to_vec())),
        vec![(true, Stream::Stdout, b"hi".to_vec()), (true, Stream::Stdout, b"\n".to_vec())]
    );
    assert_eq!(
        shape(&console_output(Console::Write, b"hi".to_vec())),
        vec![(true, Stream::Stdout, b"hi".to_vec())]
    );
    assert_eq!(
        shape(&console_output(Console::PrintErr, b"oops".to_vec())),
        vec![
            (false, Stream::Stdout, Vec::new()),
            (true, Stream::Stderr, b"oops".to_vec()),
            (true, Stream::Stderr, b"\n".to_vec()),
            (false, Stream::Stderr, Vec::new()),
        ]
    );
    assert_eq!(shape(&halt_output(b"bye".to_vec()))[1], (true, Stream::Stderr, b"bye".to_vec()));
}

#[test]
fn timers_use_checked_nanosecond_deadlines_and_whole_milliseconds() {
    assert_eq!(sleep_deadline(5, 2).unwrap(), 2_000_005);
    assert_eq!(sleep_deadline(0, u32::MAX).unwrap(), u32::MAX as u64 * 1_000_000);
    assert!(sleep_deadline(u64::MAX - 999_999, 1).is_err());
    assert_eq!(now_millis(2_999_999), 2);
}

#[test]
fn the_driver_runs_tasks_finishes_or_waits() {
    assert_eq!(drive_step(Some(7), false), Drive::Run(7));
    assert_eq!(drive_step(Some(7), true), Drive::Run(7));
    assert_eq!(drive_step(None, true), Drive::Finish);
    assert_eq!(drive_step(None, false), Drive::Wait);
}

#[test]
fn waiting_is_bounded_and_a_blocked_program_is_an_error() {
    assert_eq!(wait_step(true, true, None, 0).unwrap(), Waiting::Ready);
    assert_eq!(wait_step(false, true, None, 0).unwrap(), Waiting::ForWork(MAX_WAIT_NANOS));
    assert_eq!(wait_step(false, true, Some(150), 100).unwrap(), Waiting::ForWork(50));
    assert_eq!(wait_step(false, false, Some(50), 100).unwrap(), Waiting::Sleep(0));
    assert_eq!(
        wait_step(false, false, Some(u64::MAX), 0).unwrap(),
        Waiting::Sleep(MAX_WAIT_NANOS)
    );
    assert!(wait_step(false, false, None, 0).is_err());
}

#[test]
fn emit_completes_halt_exits_and_other_values_are_refused() {
    assert_eq!(task_end("Emit", &vec![3]).unwrap(), TaskEnd::Complete);
    assert_eq!(task_end("Halt", &vec![3, 4]).unwrap(), TaskEnd::Halt { code: 3, message: 4 });
    assert!(task_end("Emit", &vec![]).is_err());
    assert!(task_end("Halt", &vec![3]).is_err());
    assert!(task_end("Unit", &vec![]).is_err());
}
