//! The rules of native file and environment effects: argument checks, byte
//! budgets, errno numbers, and the native text codec, which keeps malformed,
//! surrogate and out-of-range values instead of rejecting them. The host
//! performs the reads and writes; the library decides what they mean.
use vstd::prelude::*;

verus! {

/// How a file was opened.
#[derive(Clone, Copy, Debug, PartialEq, Eq, Structural)]
pub enum Mode {
    Read,
    Write,
    Append,
}

/// A failed effect: an errno number for the program, or an exhausted
/// resource, which stops the evaluator.
#[derive(Clone, Copy, Debug)]
pub enum Failure {
    Io(i32),
    Limit(&'static str),
}

/// The errno numbers of the host.
#[derive(Clone, Copy, Debug, PartialEq, Eq, Structural)]
pub struct Codes {
    pub not_found: i32,
    pub bad_file: i32,
    pub invalid: i32,
    pub invalid_text: i32,
    pub io: i32,
    pub interrupted: i32,
    pub would_block: i32,
}

impl Codes {
    /// The Microsoft C runtime's errno numbers.
    pub fn windows() -> (r: Codes)
        ensures
            r.not_found == 2 && r.bad_file == 9 && r.invalid == 22 && r.invalid_text == 42 && r.io == 5
                && r.interrupted == 4 && r.would_block == 11,
    {
        Codes { not_found: 2, bad_file: 9, invalid: 22, invalid_text: 42, io: 5, interrupted: 4, would_block: 11 }
    }
}

/// `std::str::from_utf8(bytes).is_ok()`.
#[verifier::external_body]
pub fn is_utf8(bytes: &[u8]) -> (r: bool)
    ensures
        r == vstd::utf8::valid_utf8(bytes@),
{
    std::str::from_utf8(bytes).is_ok()
}

/// The mode that a mode string names, after the path check: a NUL in the
/// path comes first, then the mode, then (where the host wants UTF-8 paths)
/// the path's encoding.
pub fn validate_open_mode(path: &[u8], mode: &[u8], codes: &Codes, utf8_paths: bool) -> (r: Result<Mode, Failure>)
    ensures
        path@.contains(0u8) ==> r == Err::<Mode, Failure>(Failure::Io(codes.invalid_text)),
        !path@.contains(0u8) && !(mode@ == seq![114u8] || mode@ == seq![119u8] || mode@ == seq![97u8]) ==> r
            == Err::<Mode, Failure>(Failure::Io(codes.invalid)),
        !path@.contains(0u8) && mode@ == seq![114u8] && (!utf8_paths || vstd::utf8::valid_utf8(path@)) ==> r == Ok::<Mode, Failure>(Mode::Read),
        !path@.contains(0u8) && mode@ == seq![119u8] && (!utf8_paths || vstd::utf8::valid_utf8(path@)) ==> r == Ok::<Mode, Failure>(Mode::Write),
        !path@.contains(0u8) && mode@ == seq![97u8] && (!utf8_paths || vstd::utf8::valid_utf8(path@)) ==> r == Ok::<Mode, Failure>(Mode::Append),
        !path@.contains(0u8) && (mode@ == seq![114u8] || mode@ == seq![119u8] || mode@ == seq![97u8]) && utf8_paths
            && !vstd::utf8::valid_utf8(path@) ==> r == Err::<Mode, Failure>(Failure::Io(codes.invalid_text)),
{
    if contains_byte(path, 0) {
        return Err(Failure::Io(codes.invalid_text));
    }
    let m = if mode.len() == 1 && mode[0] == 114u8 {
        Mode::Read
    } else if mode.len() == 1 && mode[0] == 119u8 {
        Mode::Write
    } else if mode.len() == 1 && mode[0] == 97u8 {
        Mode::Append
    } else {
        proof {
            if mode@.len() == 1 {
                assert(mode@ != seq![114u8] && mode@ != seq![119u8] && mode@ != seq![97u8]) by {
                    assert(seq![114u8][0] == 114u8);
                    assert(seq![119u8][0] == 119u8);
                    assert(seq![97u8][0] == 97u8);
                }
            }
        }
        return Err(Failure::Io(codes.invalid));
    };
    proof {
        assert(mode@ =~= seq![mode@[0]]);
    }
    if utf8_paths && !is_utf8(path) {
        return Err(Failure::Io(codes.invalid_text));
    }
    Ok(m)
}

/// Whether `b` occurs in `bytes`.
pub fn contains_byte(bytes: &[u8], b: u8) -> (r: bool)
    ensures
        r == bytes@.contains(b),
{
    let mut k: usize = 0;
    while k < bytes.len()
        invariant
            k <= bytes@.len(),
            forall|j: int| 0 <= j < k ==> bytes@[j] != b,
        decreases bytes@.len() - k,
    {
        if bytes[k] == b {
            assert(bytes@[k as int] == b);
            return true;
        }
        k = k + 1;
    }
    false
}

/// An environment lookup that `getenv` could answer: no NUL and no `=` in
/// the name. Other names are not found, whatever the environment holds.
pub fn env_name_allowed(name: &[u8]) -> (r: bool)
    ensures
        r == (!name@.contains(0u8) && !name@.contains(61u8)),
{
    !contains_byte(name, 0) && !contains_byte(name, 61u8)
}

/// The number of bytes a read may request: the request capped at
/// `i32::MAX`, refused above the byte budget.
pub fn read_size(requested: u32, byte_limit: usize) -> (r: Result<usize, Failure>)
    ensures
        ({
            let count = if requested > 0x7fff_ffff { 0x7fff_ffffu32 } else { requested };
            &&& count <= byte_limit ==> r == Ok::<usize, Failure>(count as usize)
            &&& count > byte_limit ==> r == Err::<usize, Failure>(Failure::Limit("native file read exceeds byte budget"))
        }),
{
    let count: u32 = if requested > 0x7fff_ffff { 0x7fff_ffff } else { requested };
    if count as usize > byte_limit {
        return Err(Failure::Limit("native file read exceeds byte budget"));
    }
    Ok(count as usize)
}

/// A file the host can read from once.
pub trait ByteReader {
    /// Fill a prefix of `buffer`; how many bytes, or the errno of the failure.
    fn read(&mut self, buffer: &mut Vec<u8>) -> Result<usize, i32>;
}

/// A file the host can write to.
pub trait ByteWriter {
    /// Write a prefix of `bytes`; how many bytes, or the errno of the failure.
    fn write(&mut self, bytes: &[u8]) -> Result<usize, i32>;
}

/// The outcome of one read of at most `count` bytes into `buffer`: its
/// first `used` bytes, but no more than `count` or than it holds, or the
/// failure.
pub fn finish_read(buffer: Vec<u8>, count: usize, outcome: Result<usize, i32>) -> (r: Result<Vec<u8>, Failure>)
    ensures
        outcome matches Err(e) ==> r == Err::<Vec<u8>, Failure>(Failure::Io(e)),
        outcome matches Ok(used) ==> (r matches Ok(b) && b@ == buffer@.take(
            min3(used as int, count as int, buffer@.len() as int),
        )),
{
    match outcome {
        Err(e) => Err(Failure::Io(e)),
        Ok(used) => {
            let mut bytes = buffer;
            let keep = if used < count { used } else { count };
            if keep < bytes.len() {
                bytes.truncate(keep);
            }
            proof {
                if keep >= buffer@.len() {
                    assert(buffer@.take(buffer@.len() as int) =~= buffer@);
                }
            }
            Ok(bytes)
        },
    }
}

pub open spec fn min3(a: int, b: int, c: int) -> int {
    if a <= b && a <= c {
        a
    } else if b <= c {
        b
    } else {
        c
    }
}

/// One read of at most `count` bytes: a short read is returned as it is,
/// without reading again.
pub fn read_once<R: ByteReader>(reader: &mut R, count: usize) -> (r: Result<Vec<u8>, Failure>)
    ensures
        r matches Ok(b) ==> b@.len() <= count,
        r matches Err(f) ==> f is Io,
{
    let mut bytes: Vec<u8> = vec![0u8; count];
    let outcome = reader.read(&mut bytes);
    finish_read(bytes, count, outcome)
}

/// Where a write of `bytes` from `start` on stands after the writer's
/// answer: the failure, a refusal of a write that made no progress, or the
/// new start, past no more than the end.
pub fn write_progress(start: usize, total: usize, outcome: Result<usize, i32>) -> (r: Result<usize, Failure>)
    requires
        start < total,
    ensures
        outcome matches Err(e) ==> r == Err::<usize, Failure>(Failure::Io(e)),
        outcome == Ok::<usize, i32>(0) ==> r == Err::<usize, Failure>(Failure::Limit("native file write made no progress")),
        outcome is Ok && outcome->Ok_0 > 0 ==> r == Ok::<usize, Failure>(
            if outcome->Ok_0 < total - start { (start + outcome->Ok_0) as usize } else { total },
        ),
{
    match outcome {
        Err(e) => Err(Failure::Io(e)),
        Ok(used) => {
            if used == 0 {
                return Err(Failure::Limit("native file write made no progress"));
            }
            let remaining = total - start;
            Ok(start + if used < remaining { used } else { remaining })
        },
    }
}

/// Write all of `bytes`, again after each short write. A failure keeps what
/// was written before it; a write that makes no progress is refused. Each
/// write is handed the bytes not yet written, and `write_progress` decides
/// what follows its answer.
pub fn write_all_chunks<W: ByteWriter>(writer: &mut W, bytes: &[u8]) -> (r: Result<(), Failure>)
    ensures
        bytes@.len() == 0 ==> r is Ok,
{
    let mut start: usize = 0;
    while start < bytes.len()
        invariant
            start <= bytes@.len(),
        decreases bytes@.len() - start,
    {
        let rest = vstd::slice::slice_subrange(bytes, start, bytes.len());
        let outcome = writer.write(rest);
        start = write_progress(start, bytes.len(), outcome)?;
    }
    Ok(())
}

/// The kinds of host failures that decide an errno number.
#[derive(Clone, Copy, Debug, PartialEq, Eq, Structural)]
pub enum FailureKind {
    NotFound,
    PermissionDenied,
    AlreadyExists,
    NotADirectory,
    IsADirectory,
    InvalidInput,
    InvalidData,
    FileTooLarge,
    StorageFull,
    NotSeekable,
    ReadOnlyFilesystem,
    BrokenPipe,
    DirectoryNotEmpty,
    OutOfMemory,
    Interrupted,
    WouldBlock,
    TimedOut,
    Other,
}

/// The C runtime errno number for a Windows failure: a few Win32 codes keep
/// their own meaning, then the kind decides, and anything else is EIO.
pub open spec fn spec_windows_errno(raw: Option<i32>, kind: FailureKind) -> i32 {
    match raw {
        Some(4) => 24,
        Some(6) => 9,
        Some(8) => 12,
        Some(14) => 12,
        Some(17) => 18,
        Some(206) => 38,
        _ => match kind {
            FailureKind::NotFound => 2,
            FailureKind::PermissionDenied => 13,
            FailureKind::AlreadyExists => 17,
            FailureKind::NotADirectory => 20,
            FailureKind::IsADirectory => 21,
            FailureKind::InvalidInput => 22,
            FailureKind::InvalidData => 22,
            FailureKind::FileTooLarge => 27,
            FailureKind::StorageFull => 28,
            FailureKind::NotSeekable => 29,
            FailureKind::ReadOnlyFilesystem => 30,
            FailureKind::BrokenPipe => 32,
            FailureKind::DirectoryNotEmpty => 41,
            FailureKind::OutOfMemory => 12,
            FailureKind::Interrupted => 4,
            FailureKind::WouldBlock => 11,
            FailureKind::TimedOut => 138,
            FailureKind::Other => 5,
        },
    }
}

pub fn windows_errno(raw: Option<i32>, kind: FailureKind) -> (r: i32)
    ensures
        r == spec_windows_errno(raw, kind),
{
    match raw {
        Some(4) => {
            return 24;
        },
        Some(6) => {
            return 9;
        },
        Some(8) => {
            return 12;
        },
        Some(14) => {
            return 12;
        },
        Some(17) => {
            return 18;
        },
        Some(206) => {
            return 38;
        },
        _ => {},
    }
    match kind {
        FailureKind::NotFound => 2,
        FailureKind::PermissionDenied => 13,
        FailureKind::AlreadyExists => 17,
        FailureKind::NotADirectory => 20,
        FailureKind::IsADirectory => 21,
        FailureKind::InvalidInput => 22,
        FailureKind::InvalidData => 22,
        FailureKind::FileTooLarge => 27,
        FailureKind::StorageFull => 28,
        FailureKind::NotSeekable => 29,
        FailureKind::ReadOnlyFilesystem => 30,
        FailureKind::BrokenPipe => 32,
        FailureKind::DirectoryNotEmpty => 41,
        FailureKind::OutOfMemory => 12,
        FailureKind::Interrupted => 4,
        FailureKind::WouldBlock => 11,
        FailureKind::TimedOut => 138,
        FailureKind::Other => 5,
    }
}

/// The errno number for a Unix failure: the host's own number, or for a
/// failure without one, EINTR, EAGAIN or EIO by kind.
pub fn unix_errno(raw: Option<i32>, kind: FailureKind, codes: &Codes) -> (r: i32)
    ensures
        raw matches Some(n) ==> r == n,
        raw is None ==> r == match kind {
            FailureKind::Interrupted => codes.interrupted,
            FailureKind::WouldBlock => codes.would_block,
            _ => codes.io,
        },
{
    match raw {
        Some(n) => n,
        None => match kind {
            FailureKind::Interrupted => codes.interrupted,
            FailureKind::WouldBlock => codes.would_block,
            _ => codes.io,
        },
    }
}

/// The description of an errno number where the host has none of its own.
pub fn fallback_errno_text(code: i32, codes: &Codes) -> (r: &'static str)
    ensures
        r@ == (if code == codes.not_found {
            "No such file or directory"@
        } else if code == codes.bad_file {
            "Bad file descriptor"@
        } else if code == codes.invalid {
            "Invalid argument"@
        } else if code == codes.invalid_text {
            "Invalid or incomplete multibyte or wide character"@
        } else {
            "Input/output error"@
        }),
{
    if code == codes.not_found {
        "No such file or directory"
    } else if code == codes.bad_file {
        "Bad file descriptor"
    } else if code == codes.invalid {
        "Invalid argument"
    } else if code == codes.invalid_text {
        "Invalid or incomplete multibyte or wide character"
    } else {
        "Input/output error"
    }
}

/// Whether a byte continues a UTF-8 sequence.
pub open spec fn continuation(b: u8) -> bool {
    b & 0xc0 == 0x80
}

/// How many continuation bytes (at most three) stand before `end`, leaving
/// a byte before them, counting from `c`.
pub open spec fn continuation_run(bytes: Seq<u8>, end: int, c: int) -> int
    decreases 3 - c,
{
    if 0 <= c < 3 && c + 1 < end && end <= bytes.len() && bytes[end - 1 - c] & 0xc0 == 0x80 {
        continuation_run(bytes, end, c + 1)
    } else {
        c
    }
}

/// The length a lead byte calls for (0 for a byte that leads nothing).
pub open spec fn lead_len(first: u8) -> int {
    if first < 0xc0 {
        0
    } else if first < 0xe0 {
        2
    } else if first < 0xf0 {
        3
    } else {
        4
    }
}

/// The value of `len` bytes from `start`: the lead byte's payload bits,
/// then six bits from each continuation byte, up to index `index`.
pub open spec fn native_value(bytes: Seq<u8>, start: int, len: int, index: int) -> u32
    decreases index,
{
    if index <= 1 {
        (bytes[start] & (if len == 2 { 0x1fu8 } else if len == 3 { 0x0fu8 } else { 0x07u8 })) as u32
    } else {
        (native_value(bytes, start, len, index - 1) << 6u32) | ((bytes[start + index - 1] & 0x3f) as u32)
    }
}

/// The native reading of `bytes` up to `end`, scanning backwards.
pub open spec fn native_decode(bytes: Seq<u8>, end: int) -> Seq<u32>
    decreases end,
{
    if end <= 0 || end > bytes.len() {
        seq![]
    } else {
        let count = continuation_run(bytes, end, 0);
        let len = lead_len(bytes[end - 1 - count]);
        if len == count + 1 && 1 <= len && len <= end {
            native_decode(bytes, end - len).push(native_value(bytes, end - len, len, len))
        } else {
            native_decode(bytes, end - 1).push(bytes[end - 1] as u32)
        }
    }
}

/// Bytes below 0x80 read as themselves.
proof fn lemma_ascii_decode(bytes: Seq<u8>, end: int)
    requires
        0 <= end <= bytes.len(),
        forall|k: int| 0 <= k < bytes.len() ==> #[trigger] bytes[k] < 0x80,
    ensures
        native_decode(bytes, end) == bytes.take(end).map_values(|b: u8| b as u32),
    decreases end,
{
    if end > 0 {
        let b = bytes[end - 1];
        assert(b < 0x80);
        assert(b < 0x80 ==> b & 0xc0 != 0x80) by (bit_vector);
        assert(continuation_run(bytes, end, 0) == 0);
        lemma_ascii_decode(bytes, end - 1);
        assert(bytes.take(end).map_values(|b: u8| b as u32) =~= bytes.take(end - 1).map_values(|b: u8| b as u32).push(b as u32));
    } else {
        assert(bytes.take(end).map_values(|b: u8| b as u32) =~= Seq::<u32>::empty());
    }
}

/// The last value of the native reading of `bytes` up to `end`, and how
/// many bytes it took.
fn decode_last(bytes: &[u8], end: usize) -> (r: (u32, usize))
    requires
        0 < end <= bytes@.len(),
    ensures
        1 <= r.1 <= end,
        native_decode(bytes@, end as int) == native_decode(bytes@, end - r.1).push(r.0),
{
    let mut count: usize = 0;
    while count < 3 && count + 1 < end && bytes[end - 1 - count] & 0xc0 == 0x80
        invariant
            count <= 3,
            count < end,
            end <= bytes@.len(),
            continuation_run(bytes@, end as int, count as int) == continuation_run(bytes@, end as int, 0),
        decreases 3 - count,
    {
        count = count + 1;
    }
    let first = bytes[end - 1 - count];
    let len: usize = if first < 0xc0 {
        0
    } else if first < 0xe0 {
        2
    } else if first < 0xf0 {
        3
    } else {
        4
    };
    if len == count + 1 {
        let mask: u8 = if len == 2 {
            0x1f
        } else if len == 3 {
            0x0f
        } else {
            0x07
        };
        let mut codepoint: u32 = (first & mask) as u32;
        let mut index: usize = 1;
        while index < len
            invariant
                1 <= index <= len,
                2 <= len <= 4,
                len <= end,
                end <= bytes@.len(),
                first == bytes@[end - len],
                codepoint == native_value(bytes@, end - len, len as int, index as int),
            decreases len - index,
        {
            let b = (bytes[end - len + index] & 0x3f) as u32;
            codepoint = (codepoint << 6) | b;
            index = index + 1;
        }
        (codepoint, len)
    } else {
        (bytes[end - 1] as u32, 1)
    }
}

/// The native reading of bytes as text, scanning backwards as the native
/// runtime does: a lead byte with exactly the continuation bytes it calls
/// for is one value (overlong, surrogate and out-of-range values included);
/// any other byte stands for itself.
pub fn decode_native_text(bytes: &[u8], byte_limit: usize) -> (r: Result<Vec<u32>, Failure>)
    ensures
        bytes@.len() > byte_limit ==> r == Err::<Vec<u32>, Failure>(Failure::Limit("native text exceeds byte budget")),
        bytes@.len() <= byte_limit ==> (r matches Ok(text) && text@.len() <= bytes@.len()),
        bytes@.len() <= byte_limit && (forall|k: int| 0 <= k < bytes@.len() ==> #[trigger] bytes@[k] < 0x80) ==> (r matches Ok(
            text,
        ) && text@ == bytes@.map_values(|b: u8| b as u32)),
        bytes@.len() <= byte_limit ==> (r matches Ok(text) && text@ == native_decode(bytes@, bytes@.len() as int)),
{
    if bytes.len() > byte_limit {
        return Err(Failure::Limit("native text exceeds byte budget"));
    }
    let mut reversed: Vec<u32> = Vec::new();
    let mut remaining: usize = bytes.len();
    while remaining > 0
        invariant
            remaining <= bytes@.len(),
            reversed@.len() <= bytes@.len() - remaining,
            native_decode(bytes@, bytes@.len() as int) == native_decode(bytes@, remaining as int) + reversed@.reverse(),
        decreases remaining,
    {
        let (codepoint, used) = decode_last(bytes, remaining);
        let ghost before = reversed@;
        remaining = remaining - used;
        reversed.push(codepoint);
        proof {
            assert(reversed@.reverse() =~= seq![codepoint] + before.reverse());
            assert(native_decode(bytes@, bytes@.len() as int) =~= native_decode(bytes@, remaining as int) + reversed@.reverse());
        }
    }
    proof {
        assert(native_decode(bytes@, 0) =~= Seq::<u32>::empty());
        assert(native_decode(bytes@, bytes@.len() as int) =~= reversed@.reverse());
    }
    let mut text: Vec<u32> = Vec::new();
    let mut k: usize = reversed.len();
    while k > 0
        invariant
            k <= reversed@.len(),
            text@.len() == reversed@.len() - k,
            forall|j: int| 0 <= j < text@.len() ==> #[trigger] text@[j] == reversed@[reversed@.len() - 1 - j],
        decreases k,
    {
        k = k - 1;
        text.push(reversed[k]);
    }
    proof {
        assert(text@ =~= reversed@.reverse());
        if forall|k: int| 0 <= k < bytes@.len() ==> #[trigger] bytes@[k] < 0x80 {
            lemma_ascii_decode(bytes@, bytes@.len() as int);
            assert(bytes@.take(bytes@.len() as int) =~= bytes@);
        }
    }
    Ok(text)
}

/// How many bytes the native encoder writes for a value.
pub open spec fn native_len(c: u32) -> usize {
    if c < 0x80 {
        1
    } else if c < 0x800 {
        2
    } else if c < 0x1_0000 {
        3
    } else {
        4
    }
}

/// The bytes of the native encoding of `c`.
pub open spec fn native_bytes(c: u32) -> Seq<u8> {
    if c < 0x80 {
        seq![c as u8]
    } else if c < 0x800 {
        seq![(0xc0 | (c >> 6)) as u8, (0x80 | (c & 0x3f)) as u8]
    } else if c < 0x1_0000 {
        seq![(0xe0 | (c >> 12)) as u8, (0x80 | ((c >> 6) & 0x3f)) as u8, (0x80 | (c & 0x3f)) as u8]
    } else {
        seq![
            (0xf0 | (c >> 18)) as u8,
            (0x80 | ((c >> 12) & 0x3f)) as u8,
            (0x80 | ((c >> 6) & 0x3f)) as u8,
            (0x80 | (c & 0x3f)) as u8,
        ]
    }
}

/// Reading back what the native encoder wrote for a value up to `0x1FFFFF`
/// gives that one value again.
pub proof fn law_native_char_round_trip(c: u32)
    requires
        c < 0x20_0000,
    ensures
        native_decode(native_bytes(c), native_bytes(c).len() as int) == seq![c],
{
    let b = native_bytes(c);
    if c < 0x80 {
        assert(c < 0x80 ==> (c as u8) < 0xc0 && (c as u8) as u32 == c) by (bit_vector);
        assert(continuation_run(b, 1, 0) == 0);
        assert(native_decode(b, 0) =~= Seq::<u32>::empty());
    } else if c < 0x800 {
        let l = (0xc0 | (c >> 6)) as u8;
        let t = (0x80 | (c & 0x3f)) as u8;
        assert(0x80 <= c < 0x800 ==> 0xc0 <= ((0xc0 | (c >> 6)) as u8) < 0xe0) by (bit_vector);
        assert((((0x80 | (c & 0x3f)) as u8) & 0xc0) == 0x80) by (bit_vector);
        assert(0x80 <= c < 0x800 ==> (((((0xc0 | (c >> 6)) as u8) & 0x1f) as u32) << 6u32) | ((((0x80 | (c & 0x3f)) as u8) & 0x3f) as u32) == c) by (bit_vector);
        assert(continuation_run(b, 2, 1) == 1);
        assert(continuation_run(b, 2, 0) == 1);
        assert(native_value(b, 0, 2, 1) == ((l & 0x1f) as u32));
        assert(native_value(b, 0, 2, 2) == c);
        assert(native_decode(b, 0) =~= Seq::<u32>::empty());
    } else if c < 0x1_0000 {
        assert(0x800 <= c < 0x1_0000 ==> 0xe0 <= ((0xe0 | (c >> 12)) as u8) < 0xf0) by (bit_vector);
        assert((((0x80 | ((c >> 6) & 0x3f)) as u8) & 0xc0) == 0x80) by (bit_vector);
        assert((((0x80 | (c & 0x3f)) as u8) & 0xc0) == 0x80) by (bit_vector);
        assert(0x800 <= c < 0x1_0000 ==> (((((((0xe0 | (c >> 12)) as u8) & 0x0f) as u32) << 6u32) | ((((0x80 | ((c >> 6) & 0x3f)) as u8) & 0x3f) as u32)) << 6u32) | ((((0x80 | (c & 0x3f)) as u8) & 0x3f) as u32) == c) by (bit_vector);
        assert(continuation_run(b, 3, 2) == 2);
        assert(continuation_run(b, 3, 1) == 2);
        assert(continuation_run(b, 3, 0) == 2);
        assert(native_value(b, 0, 3, 1) == ((b[0] & 0x0f) as u32));
        assert(native_value(b, 0, 3, 2) == (native_value(b, 0, 3, 1) << 6u32) | ((b[1] & 0x3f) as u32));
        assert(native_value(b, 0, 3, 3) == c);
        assert(native_decode(b, 0) =~= Seq::<u32>::empty());
    } else {
        assert(0x1_0000 <= c < 0x20_0000 ==> 0xf0 <= ((0xf0 | (c >> 18)) as u8)) by (bit_vector);
        assert((((0x80 | ((c >> 12) & 0x3f)) as u8) & 0xc0) == 0x80) by (bit_vector);
        assert((((0x80 | ((c >> 6) & 0x3f)) as u8) & 0xc0) == 0x80) by (bit_vector);
        assert((((0x80 | (c & 0x3f)) as u8) & 0xc0) == 0x80) by (bit_vector);
        assert(0x1_0000 <= c < 0x20_0000 ==> (((((((((0xf0 | (c >> 18)) as u8) & 0x07) as u32) << 6u32) | ((((0x80 | ((c >> 12) & 0x3f)) as u8) & 0x3f) as u32)) << 6u32) | ((((0x80 | ((c >> 6) & 0x3f)) as u8) & 0x3f) as u32)) << 6u32) | ((((0x80 | (c & 0x3f)) as u8) & 0x3f) as u32) == c) by (bit_vector);
        assert(continuation_run(b, 4, 3) == 3);
        assert(continuation_run(b, 4, 2) == 3);
        assert(continuation_run(b, 4, 1) == 3);
        assert(continuation_run(b, 4, 0) == 3);
        assert(native_value(b, 0, 4, 1) == ((b[0] & 0x07) as u32));
        assert(native_value(b, 0, 4, 2) == (native_value(b, 0, 4, 1) << 6u32) | ((b[1] & 0x3f) as u32));
        assert(native_value(b, 0, 4, 3) == (native_value(b, 0, 4, 2) << 6u32) | ((b[2] & 0x3f) as u32));
        assert(native_value(b, 0, 4, 4) == c);
        assert(native_decode(b, 0) =~= Seq::<u32>::empty());
    }
}

/// The native encoding of a value, as UTF-8 does for scalar values; for
/// values beyond Unicode the lead byte keeps only its low eight bits.
pub fn encode_native_char(c: u32) -> (r: ([u8; 4], usize))
    ensures
        r.1 == native_len(c),
        r.1 == 1 ==> r.0@[0] == c as u8,
        r.1 == 2 ==> r.0@[0] == (0xc0 | (c >> 6)) as u8 && r.0@[1] == (0x80 | (c & 0x3f)) as u8,
        r.1 == 3 ==> r.0@[0] == (0xe0 | (c >> 12)) as u8 && r.0@[1] == (0x80 | ((c >> 6) & 0x3f)) as u8
            && r.0@[2] == (0x80 | (c & 0x3f)) as u8,
        r.1 == 4 ==> r.0@[0] == (0xf0 | (c >> 18)) as u8 && r.0@[1] == (0x80 | ((c >> 12) & 0x3f)) as u8
            && r.0@[2] == (0x80 | ((c >> 6) & 0x3f)) as u8 && r.0@[3] == (0x80 | (c & 0x3f)) as u8,
        forall|k: int| r.1 <= k < 4 ==> r.0@[k] == 0,
        r.0@.take(r.1 as int) == native_bytes(c),
{
    if c < 0x80 {
        ([c as u8, 0, 0, 0], 1)
    } else if c < 0x800 {
        ([(0xc0 | (c >> 6)) as u8, (0x80 | (c & 0x3f)) as u8, 0, 0], 2)
    } else if c < 0x1_0000 {
        ([(0xe0 | (c >> 12)) as u8, (0x80 | ((c >> 6) & 0x3f)) as u8, (0x80 | (c & 0x3f)) as u8, 0], 3)
    } else {
        (
            [
                (0xf0 | (c >> 18)) as u8,
                (0x80 | ((c >> 12) & 0x3f)) as u8,
                (0x80 | ((c >> 6) & 0x3f)) as u8,
                (0x80 | (c & 0x3f)) as u8,
            ],
            4,
        )
    }
}

} // verus!
