use teamy_bend::host_files::{
    decode_native_text, encode_native_char, fallback_errno_text, read_once, read_size,
    unix_errno, validate_open_mode, windows_errno, write_all_chunks, write_progress, ByteReader, ByteWriter,
    Codes, Failure, FailureKind, Mode,
};

fn unix_codes() -> Codes {
    Codes {
        not_found: libc::ENOENT,
        bad_file: libc::EBADF,
        invalid: libc::EINVAL,
        invalid_text: libc::EILSEQ,
        io: libc::EIO,
        interrupted: libc::EINTR,
        would_block: libc::EAGAIN,
    }
}

fn error_code<T>(result: Result<T, Failure>) -> u32 {
    match result {
        Err(Failure::Io(code)) => code as u32,
        _ => panic!("expected an IO failure"),
    }
}

#[test]
fn native_decoder_preserves_malformed_overlong_surrogate_and_out_of_range_values() {
    let cases: &[(&[u8], &[u32])] = &[
        (
            b"plain\0text",
            &[112, 108, 97, 105, 110, 0, 116, 101, 120, 116],
        ),
        ("é🦀".as_bytes(), &[0xe9, 0x1f980]),
        (b"\x80\x81", &[0x80, 0x81]),
        (b"\xc0\xaf", &[0x2f]),
        (b"\xed\xa0\x80", &[0xd800]),
        (b"\xf4\x90\x80\x80", &[0x0011_0000]),
        (b"\xff\xbf\xbf\xbf", &[0x001f_ffff]),
        (b"\xf0\x80\x80", &[0xf0, 0x80, 0x80]),
        (b"A\xe2\x82B", &[65, 0xe2, 0x82, 66]),
    ];
    for (bytes, expected) in cases {
        assert_eq!(decode_native_text(bytes, 100).unwrap(), *expected);
    }
}

#[test]
fn native_encoder_matches_scalar_utf8_and_keeps_native_nonscalar_behavior() {
    for character in ['\0', 'A', 'é', '\u{ffff}', '🦀', '\u{10ffff}'] {
        let (bytes, len) = encode_native_char(u32::from(character));
        let mut expected = [0; 4];
        assert_eq!(
            &bytes[..len],
            character.encode_utf8(&mut expected).as_bytes()
        );
    }
    for (codepoint, expected) in [
        (0xd800, b"\xed\xa0\x80".as_slice()),
        (0x0011_0000, b"\xf4\x90\x80\x80"),
        (u32::MAX, b"\xff\xbf\xbf\xbf"),
    ] {
        let (bytes, len) = encode_native_char(codepoint);
        assert_eq!(&bytes[..len], expected);
    }
}

struct ShortReader {
    calls: usize,
}

impl ByteReader for ShortReader {
    fn read(&mut self, buf: &mut Vec<u8>) -> Result<usize, i32> {
        self.calls += 1;
        buf[0] = 7;
        Ok(1)
    }
}

#[test]
fn read_returns_one_short_host_read_without_filling_the_buffer() {
    let mut reader = ShortReader { calls: 0 };
    assert_eq!(read_once(&mut reader, 100).unwrap(), [7]);
    assert_eq!(reader.calls, 1);
}

struct ShortWriter {
    bytes: Vec<u8>,
    maximum: usize,
    interrupt_after: Option<usize>,
}

impl ByteWriter for ShortWriter {
    fn write(&mut self, buf: &[u8]) -> Result<usize, i32> {
        if self.interrupt_after == Some(self.bytes.len()) {
            return Err(unix_errno(None, FailureKind::Interrupted, &unix_codes()));
        }
        let count = buf.len().min(self.maximum);
        self.bytes.extend_from_slice(&buf[..count]);
        Ok(count)
    }
}

#[test]
fn write_finishes_short_writes_and_preserves_partial_output_on_interruption() {
    let mut writer = ShortWriter {
        bytes: Vec::new(),
        maximum: 2,
        interrupt_after: None,
    };
    write_all_chunks(&mut writer, b"abcdefg").unwrap();
    assert_eq!(writer.bytes, b"abcdefg");
    writer.bytes.clear();
    writer.interrupt_after = Some(2);
    assert_eq!(error_code(write_all_chunks(&mut writer, b"abcdefg")), 4);
    assert_eq!(writer.bytes, b"ab");
    writer.bytes.clear();
    writer.interrupt_after = None;
    writer.maximum = 0;
    assert!(matches!(
        write_all_chunks(&mut writer, b"x"),
        Err(Failure::Limit(_))
    ));
}

#[test]
fn windows_uses_crt_codes_messages_and_explicit_unknown_error_fallback() {
    let codes = Codes::windows();
    assert_eq!(
        fallback_errno_text(codes.not_found, &codes),
        "No such file or directory"
    );
    assert_eq!(codes.invalid_text, 42);
    // Each native code with the failure kind that Windows reports for it.
    for (native, kind, expected) in [
        (2, FailureKind::NotFound, 2),
        (3, FailureKind::NotFound, 2),
        (5, FailureKind::PermissionDenied, 13),
        (6, FailureKind::Other, 9),
        (80, FailureKind::AlreadyExists, 17),
        (206, FailureKind::Other, 38),
        (i32::MAX, FailureKind::Other, 5),
    ] {
        assert_eq!(windows_errno(Some(native), kind), expected);
    }
    assert_eq!(
        error_code(validate_open_mode(b"\xff", b"r", &codes, true)),
        codes.invalid_text as u32
    );
}

#[test]
fn open_mode_checks_path_nul_before_mode() {
    let codes = unix_codes();
    assert_eq!(error_code(validate_open_mode(b"a\0b", b"x", &codes, false)), libc::EILSEQ as u32);
    assert_eq!(error_code(validate_open_mode(b"ab", b"x", &codes, false)), libc::EINVAL as u32);
    assert_eq!(error_code(validate_open_mode(b"ab", b"rw", &codes, false)), libc::EINVAL as u32);
    assert!(matches!(validate_open_mode(b"\xff", b"r", &codes, false), Ok(Mode::Read)));
    assert!(matches!(validate_open_mode(b"ab", b"w", &codes, false), Ok(Mode::Write)));
    assert!(matches!(validate_open_mode(b"ab", b"a", &codes, true), Ok(Mode::Append)));
}

#[test]
fn read_size_caps_requests_and_enforces_the_budget() {
    assert_eq!(read_size(10, 10).unwrap(), 10);
    assert!(matches!(read_size(11, 10), Err(Failure::Limit(_))));
    assert_eq!(read_size(u32::MAX, usize::MAX).unwrap(), 0x7fff_ffff);
    assert!(matches!(decode_native_text(b"abc", 2), Err(Failure::Limit(_))));
}

#[test]
fn unix_errno_prefers_the_host_number_then_the_kind() {
    let codes = unix_codes();
    assert_eq!(unix_errno(Some(13), FailureKind::Interrupted, &codes), 13);
    assert_eq!(unix_errno(None, FailureKind::WouldBlock, &codes), libc::EAGAIN);
    assert_eq!(unix_errno(None, FailureKind::NotFound, &codes), libc::EIO);
    assert_eq!(windows_errno(None, FailureKind::TimedOut), 138);
    assert_eq!(windows_errno(Some(4), FailureKind::NotFound), 24);
}

#[test]
fn encoder_and_decoder_agree_on_scalar_values() {
    for codepoint in [0u32, 0x7f, 0x80, 0x7ff, 0x800, 0xffff, 0x1_0000, 0x10_ffff] {
        let (bytes, len) = encode_native_char(codepoint);
        assert_eq!(decode_native_text(&bytes[..len], 4).unwrap(), [codepoint]);
    }
}

#[test]
fn each_write_answer_advances_by_what_was_written_or_stops() {
    assert_eq!(write_progress(2, 10, Ok(3)).unwrap(), 5);
    assert_eq!(write_progress(2, 10, Ok(50)).unwrap(), 10);
    assert!(matches!(write_progress(2, 10, Ok(0)), Err(Failure::Limit(_))));
    assert!(matches!(write_progress(2, 10, Err(5)), Err(Failure::Io(5))));
}
