//! Reading `f32` text as C's `strtof` does in the C locale: optional
//! leading white space and sign, `inf`/`infinity`, `nan` with an optional
//! payload, hexadecimal numbers rounded to nearest even, and the decimal
//! grammar, whose correctly rounded value the host computes. Text after a
//! NUL is ignored; any other trailing text fails.
use crate::lexer::{digits_end, digits_end_at, lemma_digits_end};
use crate::parser::FloatSyntax;
use crate::text::{before_char, chars_between, chars_of, string_of};
use vstd::prelude::*;

verus! {

/// Where a binary exponent is clamped: beyond this magnitude no mantissa
/// of bounded length changes the overflow or underflow outcome.
pub const EXPONENT_CLAMP: i64 = 1_000_000_000;

/// The ASCII lower case of a character.
pub open spec fn ascii_lower(c: char) -> char {
    if 'A' <= c <= 'Z' {
        ((c as u32) + 32) as char
    } else {
        c
    }
}

fn lower(c: char) -> (r: char)
    ensures
        'A' <= c <= 'Z' ==> r as u32 == c as u32 + 32,
        !('A' <= c <= 'Z') ==> r == c,
{
    if 'A' <= c && c <= 'Z' {
        match crate::text::char_from_u32((c as u32) + 32) {
            Some(l) => l,
            None => c,
        }
    } else {
        c
    }
}

/// Whether `cs` equals `word` (given in lower case), ignoring ASCII case.
pub fn eq_ignore_ascii_case(cs: &Vec<char>, word: &str) -> (r: bool)
    ensures
        r == (cs@.len() == word@.len() && forall|i: int| 0 <= i < cs@.len() ==> ascii_lower(#[trigger] cs@[i]) == word@[i]),
{
    let w = chars_of(word);
    if cs.len() != w.len() {
        return false;
    }
    let mut k: usize = 0;
    while k < cs.len()
        invariant
            k <= cs@.len(),
            cs@.len() == w@.len(),
            w@ == word@,
            forall|i: int| 0 <= i < k ==> ascii_lower(#[trigger] cs@[i]) == word@[i],
        decreases cs@.len() - k,
    {
        if lower(cs[k]) != w[k] {
            proof {
                assert(ascii_lower(cs@[k as int]) != word@[k as int]);
            }
            return false;
        }
        k = k + 1;
    }
    true
}

fn is_digit(c: char) -> (r: bool)
    ensures
        r == ('0' <= c <= '9'),
{
    '0' <= c && c <= '9'
}

/// The value of a hexadecimal digit.
fn hex_digit(c: char) -> (r: Option<u32>)
    ensures
        r matches Some(d) ==> d < 16,
        r is Some <==> crate::text::is_hex(c),
        crate::text::is_hex(c) ==> r == Some(crate::text::hex_digit(c) as u32),
{
    if '0' <= c && c <= '9' {
        Some((c as u32) - ('0' as u32))
    } else if 'a' <= c && c <= 'f' {
        Some((c as u32) - ('a' as u32) + 10)
    } else if 'A' <= c && c <= 'F' {
        Some((c as u32) - ('A' as u32) + 10)
    } else {
        None
    }
}

/// The value of decimal digits, each step clamped at the exponent clamp.
pub open spec fn clamped_value(s: Seq<char>) -> int
    decreases s.len(),
{
    if s.len() == 0 {
        0
    } else {
        let v = clamped_value(s.drop_last()) * 10 + ((s.last() as u32) - ('0' as u32));
        if v < EXPONENT_CLAMP { v } else { EXPONENT_CLAMP as int }
    }
}

/// The exponent after `p`: an optional sign and at least one decimal digit.
/// Its magnitude is clamped.
pub fn binary_exponent(text: &Vec<char>) -> (r: Option<i64>)
    ensures
        ({
            let signed = text@.len() > 0 && (text@[0] == '-' || text@[0] == '+');
            let digits = if signed { text@.drop_first() } else { text@ };
            let ok = digits.len() > 0 && crate::text::all_digits(digits);
            &&& ok ==> r == Some(if signed && text@[0] == '-' { -clamped_value(digits) } else { clamped_value(digits) } as i64)
            &&& !ok ==> r is None
        }),
{
    let signed = text.len() > 0 && (text[0] == '-' || text[0] == '+');
    let negative = signed && text[0] == '-';
    let start: usize = if signed { 1 } else { 0 };
    let ghost digits = if signed { text@.drop_first() } else { text@ };
    assert(digits == text@.subrange(start as int, text@.len() as int));
    if start >= text.len() {
        return None;
    }
    let mut exponent: i64 = 0;
    let mut k: usize = start;
    while k < text.len()
        invariant
            start <= k <= text@.len(),
            signed == (text@.len() > 0 && (text@[0] == '-' || text@[0] == '+')),
            negative == (signed && text@[0] == '-'),
            start == if signed { 1usize } else { 0usize },
            digits == (if signed { text@.drop_first() } else { text@ }),
            digits == text@.subrange(start as int, text@.len() as int),
            crate::text::all_digits(text@.subrange(start as int, k as int)),
            0 <= exponent <= EXPONENT_CLAMP,
            exponent == clamped_value(text@.subrange(start as int, k as int)),
        decreases text@.len() - k,
    {
        let c = text[k];
        if !is_digit(c) {
            proof {
                assert(digits[k - start] == c);
            }
            return None;
        }
        proof {
            assert(text@.subrange(start as int, k + 1).drop_last() =~= text@.subrange(start as int, k as int));
        }
        let next = exponent * 10 + ((c as u32) - ('0' as u32)) as i64;
        exponent = if next < EXPONENT_CLAMP { next } else { EXPONENT_CLAMP };
        k = k + 1;
    }
    Some(if negative { -exponent } else { exponent })
}

/// Whether text is a decimal number: digits with an optional fraction, at
/// least one digit in all, then an optional exponent with digits.
pub open spec fn decimal_text(s: Seq<char>) -> bool {
    let a = digits_end(s, 0);
    let dot = a < s.len() && s[a] == '.';
    let b = if dot { digits_end(s, a + 1) } else { a };
    let count = if dot { a + (b - a - 1) } else { a };
    let end = if b < s.len() && (s[b] == 'e' || s[b] == 'E') {
        let g = if b + 1 < s.len() && (s[b + 1] == '+' || s[b + 1] == '-') { b + 2 } else { b + 1 };
        if digits_end(s, g) == g { -1 } else { digits_end(s, g) }
    } else {
        b
    };
    count > 0 && end == s.len()
}

pub fn decimal(text: &Vec<char>) -> (r: bool)
    ensures
        r == decimal_text(text@),
        r ==> text@.len() > 0,
{
    let n = text.len();
    let a = digits_end_at(text, 0);
    proof {
        lemma_digits_end(text@, 0);
    }
    let dot = a < n && text[a] == '.';
    let b = if dot {
        proof {
            lemma_digits_end(text@, a + 1);
        }
        digits_end_at(text, a + 1)
    } else {
        a
    };
    let count = if dot { a + (b - a - 1) } else { a };
    if count == 0 {
        return false;
    }
    if b < n && (text[b] == 'e' || text[b] == 'E') {
        let g = if b + 1 < n && (text[b + 1] == '+' || text[b + 1] == '-') { b + 2 } else { b + 1 };
        proof {
            lemma_digits_end(text@, g as int);
        }
        let h = digits_end_at(text, g);
        if h == g {
            return false;
        }
        h == n
    } else {
        b == n
    }
}

/// The digits of a NaN payload read in their radix: `0x` hexadecimal,
/// a leading `0` octal, otherwise decimal; 0 where they do not parse.
fn payload_value(payload: &Vec<char>) -> (r: u64)
    ensures
        payload_reads(payload@, r),
{
    let (radix, from): (u32, usize) = if payload.len() >= 2 && payload[0] == '0' && (payload[1] == 'x' || payload[1]
        == 'X') {
        (16, 2)
    } else if payload.len() >= 1 && payload[0] == '0' {
        (8, 0)
    } else {
        (10, 0)
    };
    let digits = string_of(vstd::slice::slice_subrange(payload.as_slice(), from, payload.len()));
    match parse_radix_u64(digits.as_str(), radix) {
        Some(v) => v,
        None => 0,
    }
}

/// The radix of NaN payload digits, and where the digits start.
pub open spec fn payload_radix(p: Seq<char>) -> (u32, int) {
    if p.len() >= 2 && p[0] == '0' && (p[1] == 'x' || p[1] == 'X') {
        (16, 2)
    } else if p.len() >= 1 && p[0] == '0' {
        (8, 0)
    } else {
        (10, 0)
    }
}

/// `v` is what the payload digits read: their value in their radix where
/// they are digits of it and fit in `u64`; otherwise 0, or the value of
/// digits after a `+`, as `u64::from_str_radix` may read them.
pub open spec fn payload_reads(p: Seq<char>, v: u64) -> bool {
    let (radix, from) = payload_radix(p);
    let d = p.subrange(from, p.len() as int);
    &&& radix_digits(d, radix) && radix_value(d, radix) <= u64::MAX ==> v == radix_value(d, radix)
    &&& v != 0 ==> (radix_digits(d, radix) && v == radix_value(d, radix)) || (d.len() > 0 && d[0] == '+'
        && radix_digits(d.drop_first(), radix) && v == radix_value(d.drop_first(), radix))
}

/// The NaN spellings: `nan`, or `nan(` letters, digits and `_` then `)`,
/// ignoring ASCII case in `nan`.
pub open spec fn nan_text(t: Seq<char>) -> bool {
    ||| (t.len() == 3 && forall|i: int| 0 <= i < 3 ==> ascii_lower(#[trigger] t[i]) == "nan"@[i])
    ||| (t.len() >= 5 && (forall|i: int| 0 <= i < 4 ==> ascii_lower(#[trigger] t[i]) == "nan("@[i]) && t[t.len() - 1]
        == ')' && forall|i: int| 4 <= i < t.len() - 1 ==> payload_char(#[trigger] t[i]))
}

pub open spec fn payload_char(c: char) -> bool {
    ('a' <= c <= 'z') || ('A' <= c <= 'Z') || ('0' <= c <= '9') || c == '_'
}

/// The number spelled by digits in a radix.
pub open spec fn radix_value(s: Seq<char>, radix: u32) -> nat
    decreases s.len(),
{
    if s.len() == 0 {
        0
    } else {
        radix_value(s.drop_last(), radix) * radix as nat + digit_value(s.last())
    }
}

pub open spec fn digit_value(c: char) -> nat {
    if '0' <= c <= '9' {
        ((c as u32) - ('0' as u32)) as nat
    } else if 'a' <= c <= 'z' {
        ((c as u32) - ('a' as u32) + 10) as nat
    } else {
        ((c as u32) - ('A' as u32) + 10) as nat
    }
}

/// Nonempty text whose characters are all digits of the radix.
pub open spec fn radix_digits(s: Seq<char>, radix: u32) -> bool {
    s.len() > 0 && forall|k: int| 0 <= k < s.len() ==> (('0' <= #[trigger] s[k] <= '9') || ('a' <= s[k] <= 'z') || (
    'A' <= s[k] <= 'Z')) && digit_value(s[k]) < radix
}

/// `u64::from_str_radix(text, radix).ok()`: the value of digits in the
/// radix after an optional `+`; none for other text or a value above
/// `u64::MAX`.
#[verifier::external_body]
pub fn parse_radix_u64(text: &str, radix: u32) -> (r: Option<u64>)
    requires
        2 <= radix <= 36,
    ensures
        radix_digits(text@, radix) && radix_value(text@, radix) <= u64::MAX ==> r == Some(radix_value(text@, radix) as u64),
        r matches Some(v) ==> (radix_digits(text@, radix) && v == radix_value(text@, radix)) || (text@.len() > 0
            && text@[0] == '+' && radix_digits(text@.drop_first(), radix) && v == radix_value(text@.drop_first(), radix)),
{
    u64::from_str_radix(text, radix).ok()
}

/// The payload bits of a NaN spelling: `nan`, or `nan(...)` with letters,
/// digits and `_`. The Microsoft C runtime sets every payload bit.
pub fn nan_payload(text: &Vec<char>, crt_nan: bool) -> (r: Option<u32>)
    ensures
        r matches Some(p) ==> p <= 0x003f_ffff,
        r is Some <==> nan_text(text@),
        nan_text(text@) && crt_nan ==> r == Some(0x003f_ffffu32),
        nan_text(text@) && !crt_nan && text@.len() == 3 ==> r == Some(0u32),
        nan_text(text@) && !crt_nan && text@.len() > 3 ==> exists|v: u64|
            payload_reads(text@.subrange(4, text@.len() - 1), v) && r == Some((v & 0x003f_ffff) as u32),
{
    proof {
        reveal_strlit("nan");
        reveal_strlit("nan(");
        assert("nan("@[3] == '(');
    }
    if eq_ignore_ascii_case(text, "nan") {
        return Some(if crt_nan { 0x003f_ffff } else { 0 });
    }
    if text.len() < 5 {
        return None;
    }
    let head = chars_between(text, 0, 4);
    if !eq_ignore_ascii_case(&head, "nan(") || text[text.len() - 1] != ')' {
        return None;
    }
    proof {
        assert forall|i: int| 0 <= i < 4 implies ascii_lower(#[trigger] text@[i]) == "nan("@[i] by {
            assert(head@[i] == text@[i]);
        }
    }
    let payload = chars_between(text, 4, text.len() - 1);
    let mut k: usize = 0;
    while k < payload.len()
        invariant
            k <= payload@.len(),
            payload@ == text@.subrange(4, text@.len() - 1),
            forall|j: int| 0 <= j < k ==> payload_char(#[trigger] payload@[j]),
            text@.len() >= 5,
            forall|i: int| 0 <= i < 4 ==> ascii_lower(#[trigger] text@[i]) == "nan("@[i],
            text@[text@.len() - 1] == ')',
        decreases payload@.len() - k,
    {
        let c = payload[k];
        let ok = ('a' <= c && c <= 'z') || ('A' <= c && c <= 'Z') || ('0' <= c && c <= '9') || c == '_';
        if !ok {
            proof {
                assert(payload@[k as int] == text@[k + 4]);
                assert(!payload_char(text@[k + 4]));
            }
            return None;
        }
        k = k + 1;
    }
    proof {
        assert forall|i: int| 4 <= i < text@.len() - 1 implies payload_char(#[trigger] text@[i]) by {
            assert(payload@[i - 4] == text@[i]);
        }
    }
    if crt_nan {
        return Some(0x003f_ffff);
    }
    let bits = payload_value(&payload);
    let masked = bits & 0x003f_ffff;
    proof {
        assert(bits & 0x003f_ffff <= 0x003f_ffff) by (bit_vector);
    }
    Some(masked as u32)
}

/// The index of the first `p` or `P` of `s` from `i` on, or `s.len()`.
pub open spec fn exponent_mark(s: Seq<char>, i: int) -> int
    decreases s.len() - i,
{
    if 0 <= i < s.len() {
        if s[i] == 'p' || s[i] == 'P' {
            i
        } else {
            exponent_mark(s, i + 1)
        }
    } else {
        s.len() as int
    }
}

proof fn lemma_exponent_mark_from(s: Seq<char>, i: int)
    requires
        0 <= i <= s.len(),
        forall|j: int| 0 <= j < i ==> s[j] != 'p' && s[j] != 'P',
    ensures
        exponent_mark(s, 0) == exponent_mark(s, i),
        i <= exponent_mark(s, i) <= s.len(),
        forall|j: int| i <= j < exponent_mark(s, i) ==> s[j] != 'p' && s[j] != 'P',
        exponent_mark(s, i) < s.len() ==> (s[exponent_mark(s, i)] == 'p' || s[exponent_mark(s, i)] == 'P'),
    decreases s.len() - i,
{
    if i < s.len() && !(s[i] == 'p' || s[i] == 'P') {
        lemma_exponent_mark_from(s, i + 1);
    }
    if i > 0 {
        lemma_exponent_mark_back(s, i);
    }
}

proof fn lemma_exponent_mark_back(s: Seq<char>, i: int)
    requires
        0 < i <= s.len(),
        forall|j: int| 0 <= j < i ==> s[j] != 'p' && s[j] != 'P',
    ensures
        exponent_mark(s, 0) == exponent_mark(s, i),
    decreases i,
{
    if i > 1 {
        lemma_exponent_mark_back(s, i - 1);
    }
}

/// Hexadecimal mantissa digits: hexadecimal digits and at most one point,
/// with at least one digit.
pub open spec fn hex_mantissa(m: Seq<char>) -> bool {
    &&& forall|j: int| 0 <= j < m.len() ==> crate::text::is_hex(#[trigger] m[j]) || m[j] == '.'
    &&& forall|a: int, b: int| 0 <= a < b < m.len() && #[trigger] m[a] == '.' ==> #[trigger] m[b] != '.'
    &&& exists|j: int| 0 <= j < m.len() && crate::text::is_hex(#[trigger] m[j])
}

/// A binary exponent: an optional sign, then decimal digits.
pub open spec fn exponent_text(t: Seq<char>) -> bool {
    let signed = t.len() > 0 && (t[0] == '-' || t[0] == '+');
    let digits = if signed { t.drop_first() } else { t };
    digits.len() > 0 && crate::text::all_digits(digits)
}

/// The text after `0x` that `hexadecimal` reads: a mantissa, then
/// optionally `p` or `P` and a binary exponent.
pub open spec fn hex_float_text(s: Seq<char>) -> bool {
    let p = exponent_mark(s, 0);
    hex_mantissa(s.subrange(0, p)) && (p == s.len() || exponent_text(s.subrange(p + 1, s.len() as int)))
}

/// The number of binary digits of `v` (0 for 0).
pub open spec fn bit_length(v: nat) -> nat
    decreases v,
{
    if v == 0 {
        0
    } else {
        1 + bit_length(v / 2)
    }
}

proof fn lemma_bit_length_step(x: nat, b: nat)
    requires
        b < 2,
    ensures
        bit_length(2 * x + b) == if 2 * x + b == 0 { 0 } else { bit_length(x) + 1 },
{
    assert((2 * x + b) / 2 == x);
}

/// A positive number has between `2^(n-1)` and `2^n - 1` for its `n` binary digits.
proof fn lemma_bit_length_bounds(v: nat)
    requires
        v > 0,
    ensures
        bit_length(v) >= 1,
        vstd::arithmetic::power2::pow2((bit_length(v) - 1) as nat) <= v < vstd::arithmetic::power2::pow2(bit_length(v)),
    decreases v,
{
    vstd::arithmetic::power2::lemma2_to64();
    if v == 1 {
        assert(bit_length(0) == 0);
        assert(bit_length(1) == 1);
    } else {
        let h = v / 2;
        lemma_bit_length_bounds(h);
        let n = bit_length(h);
        vstd::arithmetic::power2::lemma_pow2_unfold(n);
        vstd::arithmetic::power2::lemma_pow2_unfold(n + 1);
        assert(bit_length(v) == n + 1);
        assert(vstd::arithmetic::power2::pow2(n) == 2 * vstd::arithmetic::power2::pow2((n - 1) as nat)) by {
            vstd::arithmetic::power2::lemma_pow2_unfold(n);
        }
    }
}

/// A number below `2^24` has at most 24 binary digits.
proof fn lemma_bit_length_small(v: nat)
    requires
        v < 0x100_0000,
    ensures
        bit_length(v) <= 24,
        bit_length(v) == 0 <==> v == 0,
{
    if v > 0 {
        lemma_bit_length_bounds(v);
        vstd::arithmetic::power2::lemma2_to64();
        if bit_length(v) > 24 {
            vstd::arithmetic::power2::lemma_pow2_strictly_increases(24, (bit_length(v) - 1) as nat);
        }
    }
}

/// The value of a prefix of hexadecimal digits is at most the value of all of them.
proof fn lemma_hex_value_prefix(s: Seq<char>, i: int)
    requires
        0 <= i <= s.len(),
    ensures
        crate::text::hex_value(s.take(i)) <= crate::text::hex_value(s),
    decreases s.len() - i,
{
    if i < s.len() {
        lemma_hex_value_prefix(s, i + 1);
        assert(s.take(i + 1).drop_last() =~= s.take(i));
    } else {
        assert(s.take(i) =~= s);
    }
}

/// The value of an `f32` bit pattern with a normal exponent field: its
/// significand with the hidden bit, in units of `2^-23`, times two to the
/// unbiased exponent. `f32_value_is(b, v)` says that this value is `v`.
pub open spec fn f32_value_is(b: u32, v: nat) -> bool {
    &&& b < 0x8000_0000
    &&& (b >> 23u32) >= 127
    &&& (0x80_0000 + (b & 0x7f_ffffu32)) * vstd::arithmetic::power2::pow2(((b >> 23u32) - 127) as nat) == v * 0x80_0000
}

/// The bits of a hexadecimal number after its `0x`: hexadecimal digits with
/// an optional point, then optionally `p` and a binary exponent, rounded to
/// the nearest `f32` with ties to even; infinity past the largest finite
/// value, zero below half of the smallest subnormal.
pub fn hexadecimal(text: &Vec<char>) -> (r: Option<u32>)
    ensures
        text@.len() == 0 ==> r is None,
        r is Some <==> hex_float_text(text@),
        crate::text::hex_text(text@) && crate::text::hex_value(text@) == 0 ==> r == Some(0u32),
        crate::text::hex_text(text@) && 0 < crate::text::hex_value(text@) < 0x100_0000 ==> (r matches Some(b) && f32_value_is(
            b,
            crate::text::hex_value(text@),
        )),
{
    let ghost int_hex = crate::text::hex_text(text@) && crate::text::hex_value(text@) < 0x100_0000;
    let ghost total = crate::text::hex_value(text@);
    let mut prefix: u32 = 0;
    let mut bit_count: i128 = 0;
    let mut sticky = false;
    let mut after_dot = false;
    let mut fractional_digits: i128 = 0;
    let mut digits: usize = 0;
    let mut exponent_start: usize = text.len();
    let mut index: usize = 0;
    while index < text.len()
        invariant
            index <= text@.len(),
            0 <= bit_count <= 4 * index,
            0 <= fractional_digits <= index,
            digits <= index,
            exponent_start <= text@.len(),
            exponent_start < text@.len() ==> exponent_start == index && index < text@.len() && (text@[index as int] == 'p'
                || text@[index as int] == 'P'),
            forall|j: int| 0 <= j < index ==> text@[j] != 'p' && text@[j] != 'P',
            forall|j: int| 0 <= j < index ==> crate::text::is_hex(#[trigger] text@[j]) || text@[j] == '.',
            after_dot <==> exists|j: int| 0 <= j < index && #[trigger] text@[j] == '.',
            forall|a: int, b: int| 0 <= a < b < index && #[trigger] text@[a] == '.' ==> #[trigger] text@[b] != '.',
            digits > 0 <==> exists|j: int| 0 <= j < index && crate::text::is_hex(#[trigger] text@[j]),
            int_hex == (crate::text::hex_text(text@) && crate::text::hex_value(text@) < 0x100_0000),
            total == crate::text::hex_value(text@),
            int_hex ==> !after_dot && exponent_start == text@.len() && fractional_digits == 0 && !sticky
                && prefix as nat == crate::text::hex_value(text@.take(index as int)) && bit_count == bit_length(prefix as nat),
            text@.take(text@.len() as int) == text@,
        ensures
            int_hex ==> index == text@.len() && exponent_start == text@.len() && fractional_digits == 0 && !sticky
                && prefix as nat == total && bit_count == bit_length(prefix as nat),
            exponent_start < text@.len() ==> exponent_start == index && (text@[index as int] == 'p' || text@[index as int] == 'P'),
            exponent_start == text@.len() ==> index == text@.len(),
            forall|j: int| 0 <= j < index ==> text@[j] != 'p' && text@[j] != 'P',
            forall|j: int| 0 <= j < index ==> crate::text::is_hex(#[trigger] text@[j]) || text@[j] == '.',
            forall|a: int, b: int| 0 <= a < b < index && #[trigger] text@[a] == '.' ==> #[trigger] text@[b] != '.',
            digits > 0 <==> exists|j: int| 0 <= j < index && crate::text::is_hex(#[trigger] text@[j]),
        decreases text@.len() - index,
    {
        let c = text[index];
        if c == '.' && !after_dot {
            after_dot = true;
            index = index + 1;
            continue;
        }
        if c == 'p' || c == 'P' {
            exponent_start = index;
            break;
        }
        let digit = match hex_digit(c) {
            Some(d) => d,
            None => {
                proof {
                    lemma_exponent_mark_from(text@, index as int);
                    if c == '.' {
                        let a = choose|j: int| 0 <= j < index && #[trigger] text@[j] == '.';
                        assert(text@.subrange(0, exponent_mark(text@, 0))[a] == '.');
                        assert(text@.subrange(0, exponent_mark(text@, 0))[index as int] == '.');
                    } else {
                        assert(text@.subrange(0, exponent_mark(text@, 0))[index as int] == c);
                    }
                }
                return None;
            },
        };
        digits = digits + 1;
        if after_dot {
            fractional_digits = fractional_digits + 1;
        }
        let ghost start_prefix = prefix;
        let ghost next: u32 = 0;
        proof {
            if int_hex {
                assert(crate::text::is_hex(text@[index as int]));
                assert(digit == crate::text::hex_digit(c));
                lemma_hex_value_prefix(text@, index + 1);
                assert(text@.take(index + 1).drop_last() =~= text@.take(index as int));
                assert(text@.take(index + 1).last() == c);
                assert(crate::text::hex_value(text@.take(index + 1)) == prefix * 16 + digit);
                next = (prefix * 16 + digit) as u32;
                assert(next < 0x100_0000);
                let p = prefix;
                assert(p < 0x10_0000 && digit < 16 ==> (p << 4u32) | digit == p * 16 + digit) by (bit_vector);
                assert(p < 0x10_0000 && digit < 16 ==> ((p * 16 + digit) as u32) >> 4u32 == p) by (bit_vector);
                assert(prefix == next >> 4u32);
            }
        }
        let mut shift: u32 = 4;
        while shift > 0
            invariant
                shift <= 4,
                0 <= bit_count <= 4 * index + (4 - shift),
                digit < 16,
                int_hex ==> prefix == next >> shift && bit_count == bit_length(prefix as nat) && !sticky && next < 0x100_0000
                    && next == (start_prefix * 16 + digit) as u32 && start_prefix < 0x10_0000,
            decreases shift,
        {
            shift = shift - 1;
            let bit = (digit >> shift) & 1;
            proof {
                if int_hex {
                    let nx = next;
                    let s1 = shift;
                    let sp = start_prefix;
                    assert(prefix == nx >> ((s1 + 1) as u32));
                    assert(nx < 0x100_0000 ==> nx >> ((s1 + 1) as u32) < 0x100_0000) by (bit_vector);
                    assert(sp < 0x10_0000 && digit < 16 && s1 < 4 && nx == (sp * 16 + digit) as u32 ==> nx >> s1 == ((nx >> (
                        (s1 + 1) as u32)) << 1u32) | ((digit >> s1) & 1)) by (bit_vector);
                    assert(nx < 0x100_0000 ==> nx >> s1 < 0x100_0000) by (bit_vector);
                    lemma_bit_length_small(prefix as nat);
                    lemma_bit_length_small((nx >> s1) as nat);
                    let pr = prefix;
                    assert(pr < 0x100_0000 && bit < 2 ==> (pr << 1u32) | bit == 2 * pr + bit) by (bit_vector);
                    assert((digit >> s1) & 1 < 2) by (bit_vector);
                    lemma_bit_length_step(prefix as nat, bit as nat);
                    assert(bit_count == 0 <==> prefix == 0);
                    assert(bit_count <= 24);
                    if bit_count == 0 && bit == 0 {
                        assert((0u32 << 1u32) | 0u32 == 0u32) by (bit_vector);
                        assert(nx >> s1 == 0);
                    }
                }
            }
            if !(bit_count == 0 && bit == 0) {
                bit_count = bit_count + 1;
                if bit_count <= 32 {
                    prefix = (prefix << 1) | bit;
                } else {
                    sticky = sticky || bit != 0;
                }
            }
        }
        proof {
            if int_hex {
                assert(next >> 0u32 == next) by (bit_vector);
                assert(prefix as nat == crate::text::hex_value(text@.take(index + 1)));
            }
        }
        index = index + 1;
    }
    proof {
        lemma_exponent_mark_from(text@, index as int);
        assert(exponent_mark(text@, 0) == index);
        let m = text@.subrange(0, index as int);
        assert forall|j: int| 0 <= j < m.len() implies crate::text::is_hex(#[trigger] m[j]) || m[j] == '.' by {
            assert(m[j] == text@[j]);
        }
        assert forall|a: int, b: int| 0 <= a < b < m.len() && #[trigger] m[a] == '.' implies #[trigger] m[b] != '.' by {
            assert(m[a] == text@[a] && m[b] == text@[b]);
        }
        if digits > 0 {
            let w = choose|j: int| 0 <= j < index && crate::text::is_hex(#[trigger] text@[j]);
            assert(m[w] == text@[w]);
        } else {
            assert forall|j: int| 0 <= j < m.len() implies !crate::text::is_hex(#[trigger] m[j]) by {
                assert(m[j] == text@[j]);
            }
        }
    }
    if digits == 0 {
        return None;
    }
    let exponent: i128 = if exponent_start == text.len() {
        0
    } else {
        let tail = chars_between(text, exponent_start + 1, text.len());
        match binary_exponent(&tail) {
            Some(e) => e as i128,
            None => {
                return None;
            },
        }
    };
    proof {
        if int_hex {
            assert(exponent == 0);
            lemma_bit_length_small(total);
            if total > 0 {
                lemma_bit_length_bounds(total);
            }
        }
    }
    if bit_count == 0 {
        return Some(0);
    }
    let mut highest: i128 = exponent - 4 * fractional_digits + bit_count - 1;
    if highest > 127 {
        return Some(0x7f80_0000);
    }
    if highest < -150 {
        return Some(0);
    }
    let kept: i128 = if highest >= -126 { 24 } else { highest + 150 };
    let mut significand: u32 = if bit_count <= kept {
        prefix << ((kept - bit_count) as u32)
    } else {
        let top: i128 = if bit_count < 32 { bit_count } else { 32 };
        let discarded: u32 = (top - kept) as u32;
        let integer: u32 = if discarded == 32 { 0 } else { prefix >> discarded };
        let guard = (prefix >> (discarded - 1)) & 1;
        proof {
            let d = (discarded - 1) as u32;
            assert(d < 32 ==> (1u32 << d) >= 1) by (bit_vector);
        }
        let lower_bits = (prefix & ((1u32 << (discarded - 1)) - 1)) != 0 || sticky;
        proof {
            assert(1 <= discarded <= 32);
            let d = (discarded - 1) as u32;
            assert(d < 32 ==> (1u32 << d) >= 1) by (bit_vector);
            assert(discarded >= 1 && discarded < 32 ==> prefix >> discarded < 0xffff_ffff) by (bit_vector);
        }
        if guard != 0 && (lower_bits || integer & 1 != 0) {
            integer + 1
        } else {
            integer
        }
    };
    proof {
        if int_hex && total > 0 {
            let bc = bit_count as nat;
            let up = (24 - bc) as nat;
            vstd::arithmetic::power2::lemma2_to64();
            vstd::arithmetic::power2::lemma_pow2_adds(up, bc);
            vstd::arithmetic::power2::lemma_pow2_pos(up);
            let pu = vstd::arithmetic::power2::pow2(up);
            let pb = vstd::arithmetic::power2::pow2(bc);
            assert(pu * pb == 0x100_0000);
            assert(total * pu < 0x100_0000) by (nonlinear_arith)
                requires
                    total < pb,
                    pu * pb == 0x100_0000,
                    pu > 0,
            ;
            assert(kept == 24 && bit_count <= kept);
            assert(((kept - bit_count) as u32) == up as u32);
            vstd::bits::lemma_u32_shl_is_mul(prefix, up as u32);
            assert(significand == total * pu);
            assert(significand < 0x100_0000);
            assert(1u32 << 24u32 == 0x100_0000) by (bit_vector);
        }
    }
    if highest < -126 {
        return Some(significand);
    }
    if significand == (1u32 << 24u32) {
        significand = significand >> 1;
        highest = highest + 1;
    }
    if highest > 127 {
        return Some(0x7f80_0000);
    }
    let exponent_bits: u32 = (highest + 127) as u32;
    let bits = (exponent_bits << 23) | (significand & 0x007f_ffff);
    proof {
        if int_hex && total > 0 {
            let bc = bit_count as nat;
            let up = (24 - bc) as nat;
            let down = (bc - 1) as nat;
            vstd::arithmetic::power2::lemma2_to64();
            vstd::arithmetic::power2::lemma_pow2_adds(up, bc);
            vstd::arithmetic::power2::lemma_pow2_adds(up, down);
            vstd::arithmetic::power2::lemma_pow2_pos(up);
            let pu = vstd::arithmetic::power2::pow2(up);
            let pd = vstd::arithmetic::power2::pow2(down);
            let pb = vstd::arithmetic::power2::pow2(bc);
            assert(pu * pb == 0x100_0000);
            assert(pu * pd == 0x80_0000);
            assert(pd <= total < pb);
            assert(total * pu < 0x100_0000) by (nonlinear_arith)
                requires
                    total < pb,
                    pu * pb == 0x100_0000,
                    pu > 0,
            ;
            assert(pd * pu <= total * pu) by (nonlinear_arith)
                requires
                    pd <= total,
                    pu > 0,
            ;
            vstd::bits::lemma_u32_shl_is_mul(prefix, up as u32);
            let sig = significand;
            assert(sig == total * pu);
            assert(0x80_0000 <= sig < 0x100_0000);
            let eb = exponent_bits;
            assert(eb == bc + 126);
            assert(eb < 256 && 0x80_0000 <= sig && sig < 0x100_0000 ==> ((eb << 23u32) | (sig & 0x7f_ffffu32)) >> 23u32 == eb
                && ((eb << 23u32) | (sig & 0x7f_ffffu32)) & 0x7f_ffffu32 == sig - 0x80_0000 && (eb < 255 ==> (eb << 23u32)
                | (sig & 0x7f_ffffu32) < 0x8000_0000)) by (bit_vector);
            assert(sig * pd == total * 0x80_0000) by (nonlinear_arith)
                requires
                    sig == total * pu,
                    pu * pd == 0x80_0000,
            ;
            assert((bits >> 23u32) - 127 == down);
        }
    }
    Some(bits)
}

/// The white space that C's `isspace` accepts in the C locale.
fn c_space(c: char) -> (r: bool)
    ensures
        r == (c == ' ' || c == '\t' || c == '\n' || c == '\r' || c == '\u{b}' || c == '\u{c}'),
{
    c == ' ' || c == '\t' || c == '\n' || c == '\r' || c == '\u{b}' || c == '\u{c}'
}

/// The index of the first NUL of `s` from `i` on, or `s.len()`.
pub open spec fn nul_index(s: Seq<char>, i: int) -> int
    decreases s.len() - i,
{
    if 0 <= i < s.len() {
        if s[i] == '\0' {
            i
        } else {
            nul_index(s, i + 1)
        }
    } else {
        s.len() as int
    }
}

proof fn lemma_nul_index(s: Seq<char>, i: int, m: int)
    requires
        0 <= i <= m <= s.len(),
        forall|j: int| i <= j < m ==> s[j] != '\0',
        m == s.len() || s[m] == '\0',
    ensures
        nul_index(s, i) == m,
    decreases m - i,
{
    if i < m {
        lemma_nul_index(s, i + 1, m);
    }
}

/// The index of the first character of `s` from `i` on that C's `isspace`
/// does not accept, or `s.len()`.
pub open spec fn first_non_c_space(s: Seq<char>, i: int) -> int
    decreases s.len() - i,
{
    if 0 <= i < s.len() && (s[i] == ' ' || s[i] == '\t' || s[i] == '\n' || s[i] == '\r' || s[i] == '\u{b}' || s[i]
        == '\u{c}') {
        first_non_c_space(s, i + 1)
    } else {
        i
    }
}

/// The text that `strtof` reads: everything before the first NUL.
pub open spec fn read_prefix(text: Seq<char>) -> Seq<char> {
    text.take(nul_index(text, 0))
}

/// The number of the read text: the prefix after its leading white space.
pub open spec fn read_number(text: Seq<char>) -> Seq<char> {
    let p = read_prefix(text);
    p.subrange(first_non_c_space(p, 0), p.len() as int)
}

/// The number without its sign.
pub open spec fn read_unsigned(text: Seq<char>) -> Seq<char> {
    let n = read_number(text);
    if n.len() > 0 && (n[0] == '-' || n[0] == '+') {
        n.drop_first()
    } else {
        n
    }
}

/// The sign bit of the number.
pub open spec fn read_sign(text: Seq<char>) -> u32 {
    let n = read_number(text);
    if n.len() > 0 && n[0] == '-' {
        0x8000_0000
    } else {
        0
    }
}

/// `u` is the lower-case word `w`, ignoring ASCII case.
pub open spec fn ascii_word(u: Seq<char>, w: Seq<char>) -> bool {
    u.len() == w.len() && forall|i: int| 0 <= i < u.len() ==> ascii_lower(#[trigger] u[i]) == w[i]
}

/// `u` starts with `0x` or `0X`.
pub open spec fn hex_prefix(u: Seq<char>) -> bool {
    u.len() >= 2 && u[0] == '0' && (u[1] == 'x' || u[1] == 'X')
}

/// The `f32` bits that C's `strtof` reads from text, where it consumes all
/// of it up to the first NUL; `None` where it does not. Decimal numbers are
/// read by the host's correctly rounded parser.
pub fn read(text: &str, floats: &dyn FloatSyntax, crt_nan: bool) -> (r: Option<u32>)
    ensures
        text@.len() == 0 ==> r is None,
        text@.len() > 0 && text@[0] == '\0' ==> r == Some(0u32),
        text@.len() > 0 && read_prefix(text@).len() == 0 ==> r == Some(0u32),
        text@.len() > 0 && read_prefix(text@).len() > 0 ==> ({
            let u = read_unsigned(text@);
            let sign = read_sign(text@);
            let inf = ascii_word(u, "inf"@) || ascii_word(u, "infinity"@);
            &&& inf ==> r == Some(sign | 0x7f80_0000u32)
            &&& !inf && nan_text(u) && crt_nan ==> r == Some(sign | 0x7fc0_0000u32 | 0x003f_ffffu32)
            &&& !inf && nan_text(u) && !crt_nan && u.len() == 3 ==> r == Some(sign | 0x7fc0_0000u32)
            &&& !inf && nan_text(u) && !crt_nan && u.len() > 3 ==> exists|v: u64|
                payload_reads(u.subrange(4, u.len() - 1), v) && r == Some(sign | 0x7fc0_0000u32 | ((v & 0x003f_ffff) as u32))
            &&& !inf && !nan_text(u) && hex_prefix(u) ==> (r is Some <==> hex_float_text(u.subrange(2, u.len() as int)))
            &&& !inf && !nan_text(u) && hex_prefix(u) && crate::text::hex_text(u.subrange(2, u.len() as int))
                && crate::text::hex_value(u.subrange(2, u.len() as int)) == 0 ==> r == Some(sign)
            &&& !inf && !nan_text(u) && hex_prefix(u) && crate::text::hex_text(u.subrange(2, u.len() as int))
                && 0 < crate::text::hex_value(u.subrange(2, u.len() as int)) < 0x100_0000 ==> (r matches Some(b)
                && b & 0x8000_0000u32 == sign && f32_value_is(b & 0x7fff_ffffu32, crate::text::hex_value(u.subrange(2, u.len() as int))))
            &&& !inf && !nan_text(u) && !hex_prefix(u) && !decimal_text(u) ==> r is None
        }),
{
    proof {
        reveal_strlit("inf");
        reveal_strlit("infinity");
    }
    if text.is_empty() {
        return None;
    }
    let all = chars_of(text);
    let prefix = before_char(&all, '\0');
    if prefix.len() == 0 {
        return Some(0);
    }
    proof {
        assert forall|j: int| 0 <= j < prefix@.len() implies all@[j] != '\0' by {
            assert(prefix@[j] == all@[j]);
            if all@[j] == '\0' {
                assert(prefix@.contains('\0'));
            }
        }
        lemma_nul_index(all@, 0, prefix@.len() as int);
        assert(prefix@ == read_prefix(text@));
    }
    let mut start: usize = 0;
    while start < prefix.len() && c_space(prefix[start])
        invariant
            start <= prefix@.len(),
            first_non_c_space(prefix@, start as int) == first_non_c_space(prefix@, 0),
        decreases prefix@.len() - start,
    {
        start = start + 1;
    }
    proof {
        assert(prefix@[0] == all@[0]);
        if all@[0] == '\0' {
            assert(prefix@.contains('\0'));
        }
    }
    let number = chars_between(&prefix, start, prefix.len());
    let negative = number.len() > 0 && number[0] == '-';
    let signed = number.len() > 0 && (number[0] == '-' || number[0] == '+');
    let unsigned = if signed {
        chars_between(&number, 1, number.len())
    } else {
        chars_between(&number, 0, number.len())
    };
    proof {
        assert(number@ == read_number(text@));
        if signed {
            assert(unsigned@ =~= read_unsigned(text@));
        } else {
            assert(unsigned@ =~= read_unsigned(text@));
        }
    }
    let sign: u32 = if negative { 0x8000_0000 } else { 0 };
    if eq_ignore_ascii_case(&unsigned, "inf") || eq_ignore_ascii_case(&unsigned, "infinity") {
        return Some(sign | 0x7f80_0000);
    }
    if let Some(payload) = nan_payload(&unsigned, crt_nan) {
        proof {
            let s = sign;
            assert((s | 0x7fc0_0000u32 | 0u32) == (s | 0x7fc0_0000u32)) by (bit_vector);
            if !crt_nan && unsigned@.len() > 3 {
                let v = choose|v: u64|
                    payload_reads(unsigned@.subrange(4, unsigned@.len() - 1), v) && Some(payload) == Some(((v & 0x003f_ffff) as u32));
                assert(payload_reads(unsigned@.subrange(4, unsigned@.len() - 1), v));
                assert(Some(sign | 0x7fc0_0000 | payload) == Some(sign | 0x7fc0_0000u32 | ((v & 0x003f_ffff) as u32)));
            }
        }
        return Some(sign | 0x7fc0_0000 | payload);
    }
    if unsigned.len() >= 2 && unsigned[0] == '0' && (unsigned[1] == 'x' || unsigned[1] == 'X') {
        let digits = chars_between(&unsigned, 2, unsigned.len());
        proof {
            assert(nan_text(unsigned@) == false || true);
        }
        let result = hexadecimal(&digits);
        proof {
            assert(digits@ =~= unsigned@.subrange(2, unsigned@.len() as int));
            if let Some(bits) = result {
                let sg = sign;
                assert((sg == 0 || sg == 0x8000_0000) && bits < 0x8000_0000 ==> (sg | bits) & 0x8000_0000u32 == sg
                    && (sg | bits) & 0x7fff_ffffu32 == bits) by (bit_vector);
                assert(sg | 0u32 == sg) by (bit_vector);
            }
        }
        return match result {
            Some(bits) => Some(sign | bits),
            None => None,
        };
    }
    if !decimal(&unsigned) {
        return None;
    }
    let spelled = string_of(number.as_slice());
    match floats.parse_f32(spelled.as_str()) {
        Ok(bits) => Some(bits),
        Err(_) => None,
    }
}

} // verus!
