//! The decisions of the native IO driver. The host runs the loop: it forces
//! the current task, performs the output, timer and waiting actions chosen
//! here, and hands back what it observed.
use crate::machine::ThunkId;
use crate::runtime_clock::{MAX_WAIT_NANOS, NANOS_PER_MILLI};
use vstd::prelude::*;

verus! {

/// One of the two standard streams.
#[derive(Clone, Copy, Debug, PartialEq, Eq, Structural)]
pub enum Stream {
    Stdout,
    Stderr,
}

/// One step of console output.
pub enum Output {
    Write(Stream, Vec<u8>),
    Flush(Stream),
}

/// The console builtins.
#[derive(Clone, Copy, Debug, PartialEq, Eq, Structural)]
pub enum Console {
    Print,
    Write,
    PrintErr,
}

/// The model of one output step.
pub open spec fn output_view(o: Output) -> (int, Stream, Seq<u8>) {
    match o {
        Output::Write(s, b) => (0, s, b@),
        Output::Flush(s) => (1, s, seq![]),
    }
}

/// The model of a list of output steps.
pub open spec fn outputs_view(v: Seq<Output>) -> Seq<(int, Stream, Seq<u8>)> {
    v.map_values(|o: Output| output_view(o))
}

pub open spec fn write_of(s: Stream, b: Seq<u8>) -> (int, Stream, Seq<u8>) {
    (0, s, b)
}

pub open spec fn flush_of(s: Stream) -> (int, Stream, Seq<u8>) {
    (1, s, seq![])
}

/// What a console request writes: `Print` adds a newline on stdout, `Write`
/// does not, and `PrintErr` flushes stdout first, then writes the line to
/// stderr and flushes it.
pub open spec fn spec_console_output(kind: Console, text: Seq<u8>) -> Seq<(int, Stream, Seq<u8>)> {
    match kind {
        Console::Print => seq![write_of(Stream::Stdout, text), write_of(Stream::Stdout, seq![10u8])],
        Console::Write => seq![write_of(Stream::Stdout, text)],
        Console::PrintErr => seq![
            flush_of(Stream::Stdout),
            write_of(Stream::Stderr, text),
            write_of(Stream::Stderr, seq![10u8]),
            flush_of(Stream::Stderr),
        ],
    }
}

/// The output of a console request, in order.
pub fn console_output(kind: Console, text: Vec<u8>) -> (r: Vec<Output>)
    ensures
        outputs_view(r@) == spec_console_output(kind, text@),
{
    let mut out: Vec<Output> = Vec::new();
    let mut newline: Vec<u8> = Vec::new();
    newline.push(10u8);
    assert(newline@ =~= seq![10u8]);
    match kind {
        Console::Print => {
            out.push(Output::Write(Stream::Stdout, text));
            out.push(Output::Write(Stream::Stdout, newline));
        },
        Console::Write => {
            out.push(Output::Write(Stream::Stdout, text));
        },
        Console::PrintErr => {
            out.push(Output::Flush(Stream::Stdout));
            out.push(Output::Write(Stream::Stderr, text));
            out.push(Output::Write(Stream::Stderr, newline));
            out.push(Output::Flush(Stream::Stderr));
        },
    }
    proof {
        assert(outputs_view(out@) =~= spec_console_output(kind, text@)) by {
            assert(outputs_view(out@).len() == out@.len());
        }
    }
    out
}

/// What a halting task writes before the program exits with its code:
/// stdout is flushed, then the message goes to stderr as one line.
pub fn halt_output(message: Vec<u8>) -> (r: Vec<Output>)
    ensures
        outputs_view(r@) == spec_console_output(Console::PrintErr, message@),
{
    console_output(Console::PrintErr, message)
}

/// The deadline of a sleep of `milliseconds` started at `now` (nanoseconds),
/// refused where it would not fit.
pub fn sleep_deadline(now: u64, milliseconds: u32) -> (r: Result<u64, String>)
    ensures
        now + milliseconds * NANOS_PER_MILLI <= u64::MAX ==> r == Ok::<u64, String>((now + milliseconds * NANOS_PER_MILLI) as u64),
        now + milliseconds * NANOS_PER_MILLI > u64::MAX ==> r is Err,
{
    let span: u64 = milliseconds as u64 * NANOS_PER_MILLI;
    match now.checked_add(span) {
        Some(deadline) => Ok(deadline),
        None => Err("native timer deadline overflow".to_owned()),
    }
}

/// The clock reading a program sees: whole milliseconds.
pub fn now_millis(now: u64) -> (r: u64)
    ensures
        r == now / NANOS_PER_MILLI,
{
    now / NANOS_PER_MILLI
}

/// What the driver does when it looks for work.
#[derive(Clone, Copy, Debug, PartialEq, Eq, Structural)]
pub enum Drive {
    /// Force the given action and follow its requests until it ends or waits.
    Run(ThunkId),
    /// Every task is done: flush stdout and exit with 0.
    Finish,
    /// Nothing is runnable yet: wait for a task.
    Wait,
}

/// Choose the next move of the driver: a runnable task first, then the end
/// of the program, else waiting.
pub fn drive_step(next: Option<ThunkId>, finished: bool) -> (r: Drive)
    ensures
        next matches Some(t) ==> r == Drive::Run(t),
        next is None && finished ==> r == Drive::Finish,
        next is None && !finished ==> r == Drive::Wait,
{
    match next {
        Some(t) => Drive::Run(t),
        None => if finished {
            Drive::Finish
        } else {
            Drive::Wait
        },
    }
}

/// How the driver waits when no task is runnable.
#[derive(Clone, Copy, Debug, PartialEq, Eq, Structural)]
pub enum Waiting {
    /// A task became ready: go back to running tasks.
    Ready,
    /// Wait for a host job to finish, at most this many nanoseconds.
    ForWork(u64),
    /// Sleep until the next timer, at most this many nanoseconds.
    Sleep(u64),
}

/// The bounded time to the next deadline.
pub open spec fn spec_until(deadline: u64, now: u64) -> u64 {
    let left: u64 = if deadline > now { (deadline - now) as u64 } else { 0 };
    if left < MAX_WAIT_NANOS { left } else { MAX_WAIT_NANOS }
}

/// One round of waiting, after completed host jobs were resumed and due
/// timers woken at `now`: return when a task is ready; otherwise wait for
/// pending host jobs (up to the next deadline, or the longest wait without
/// one), or sleep until the next deadline. With nothing to wait for, every
/// task is blocked for good, which is an error.
pub fn wait_step(has_ready: bool, jobs_pending: bool, next_deadline: Option<u64>, now: u64) -> (r: Result<Waiting, String>)
    ensures
        has_ready ==> r == Ok::<Waiting, String>(Waiting::Ready),
        !has_ready && jobs_pending ==> r == Ok::<Waiting, String>(Waiting::ForWork(
            match next_deadline {
                Some(d) => spec_until(d, now),
                None => MAX_WAIT_NANOS,
            },
        )),
        !has_ready && !jobs_pending ==> match next_deadline {
            Some(d) => r == Ok::<Waiting, String>(Waiting::Sleep(spec_until(d, now))),
            None => r is Err,
        },
{
    if has_ready {
        return Ok(Waiting::Ready);
    }
    let wait: Option<u64> = match next_deadline {
        Some(d) => {
            let left: u64 = if d > now { d - now } else { 0 };
            Some(if left < MAX_WAIT_NANOS { left } else { MAX_WAIT_NANOS })
        },
        None => None,
    };
    if jobs_pending {
        match wait {
            Some(w) => Ok(Waiting::ForWork(w)),
            None => Ok(Waiting::ForWork(MAX_WAIT_NANOS)),
        }
    } else {
        match wait {
            Some(w) => Ok(Waiting::Sleep(w)),
            None => Err("native IO scheduler deadlock: no runnable task, timer or host job".to_owned()),
        }
    }
}

/// How a task's forced value ends its run.
#[derive(Clone, Copy, Debug, PartialEq, Eq, Structural)]
pub enum TaskEnd {
    /// `Emit`: the task completed and its result is discarded.
    Complete,
    /// `Halt`: the program exits with the code read from the first field and
    /// the message read from the second.
    Halt { code: ThunkId, message: ThunkId },
}

/// Classify a task's constructor value: `Emit` with one field completes the
/// task, `Halt` with two fields halts the program; anything else is not an
/// IO operation.
pub fn task_end(name: &str, fields: &Vec<ThunkId>) -> (r: Result<TaskEnd, String>)
    ensures
        name@ == "Emit"@ && fields@.len() == 1 ==> r == Ok::<TaskEnd, String>(TaskEnd::Complete),
        name@ == "Halt"@ && fields@.len() == 2 ==> r == Ok::<TaskEnd, String>(TaskEnd::Halt { code: fields@[0], message: fields@[1] }),
        !(name@ == "Emit"@ && fields@.len() == 1) && !(name@ == "Halt"@ && fields@.len() == 2) ==> r is Err,
{
    if crate::text::str_eq(name, "Emit") && fields.len() == 1 {
        Ok(TaskEnd::Complete)
    } else if crate::text::str_eq(name, "Halt") && fields.len() == 2 {
        Ok(TaskEnd::Halt { code: fields[0], message: fields[1] })
    } else {
        Err("main did not produce an IO operation".to_owned())
    }
}

} // verus!
