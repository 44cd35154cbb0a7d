//! Basic string operations of std, with what their documentation promises.
use vstd::prelude::*;

verus! {

/// `PartialEq for str`: two string slices are equal when they hold the same characters.
#[verifier::external_body]
pub fn str_eq(a: &str, b: &str) -> (r: bool)
    ensures
        r == (a@ == b@),
{
    a == b
}

/// `str::starts_with` with a `char` pattern: whether the first character is `c`.
#[verifier::external_body]
pub fn starts_with_char(s: &str, c: char) -> (r: bool)
    ensures
        r == (s@.len() > 0 && s@[0] == c),
{
    s.starts_with(c)
}

/// `<[&str]>::concat`: the characters of `a` followed by those of `b`.
#[verifier::external_body]
pub fn concat(a: &str, b: &str) -> (r: String)
    ensures
        r@ == a@ + b@,
{
    [a, b].concat()
}

/// `str::chars` collected: the characters of `s`, in order.
#[verifier::external_body]
pub fn chars_of(s: &str) -> (r: Vec<char>)
    ensures
        r@ == s@,
{
    s.chars().collect()
}

/// `String: FromIterator<char>`: the string made of the given characters.
#[verifier::external_body]
pub fn string_of(chars: &[char]) -> (r: String)
    ensures
        r@ == chars@,
{
    chars.iter().collect()
}

/// The characters of `cs` from `from` up to `to`.
pub fn chars_between(cs: &Vec<char>, from: usize, to: usize) -> (r: Vec<char>)
    requires
        from <= to <= cs@.len(),
    ensures
        r@ == cs@.subrange(from as int, to as int),
{
    let mut out: Vec<char> = Vec::new();
    let mut k: usize = from;
    while k < to
        invariant
            from <= k <= to,
            to <= cs@.len(),
            out@ == cs@.subrange(from as int, k as int),
        decreases to - k,
    {
        out.push(cs[k]);
        proof {
            assert(cs@.subrange(from as int, k + 1) =~= cs@.subrange(from as int, k as int).push(cs@[k as int]));
        }
        k = k + 1;
    }
    out
}

/// The decimal digits of `n`, most significant first, without leading zeros.
pub open spec fn spec_decimal(n: nat) -> Seq<char>
    decreases n,
{
    if n < 10 {
        seq![digit_char(n)]
    } else {
        spec_decimal(n / 10).push(digit_char(n % 10))
    }
}

pub open spec fn digit_char(d: nat) -> char {
    if d == 0 { '0' } else if d == 1 { '1' } else if d == 2 { '2' } else if d == 3 { '3' } else if d == 4 { '4' }
    else if d == 5 { '5' } else if d == 6 { '6' } else if d == 7 { '7' } else if d == 8 { '8' } else { '9' }
}

fn digit(d: usize) -> (r: char)
    requires
        d < 10,
    ensures
        r == digit_char(d as nat),
{
    if d == 0 { '0' } else if d == 1 { '1' } else if d == 2 { '2' } else if d == 3 { '3' } else if d == 4 { '4' }
    else if d == 5 { '5' } else if d == 6 { '6' } else if d == 7 { '7' } else if d == 8 { '8' } else { '9' }
}

/// `n` written in decimal.
pub fn decimal(n: usize) -> (r: String)
    ensures
        r@ == spec_decimal(n as nat),
    decreases n,
{
    if n < 10 {
        let mut cs: Vec<char> = Vec::new();
        cs.push(digit(n));
        proof {
            assert(cs@ =~= seq![digit_char(n as nat)]);
        }
        string_of(cs.as_slice())
    } else {
        let head = decimal(n / 10);
        let mut cs = chars_of(head.as_str());
        cs.push(digit(n % 10));
        string_of(cs.as_slice())
    }
}

/// The number of bytes of the UTF-8 encoding of `s`.
pub open spec fn utf8_bytes(s: Seq<char>) -> nat
    decreases s.len(),
{
    if s.len() == 0 {
        0
    } else {
        utf8_bytes(s.drop_last()) + crate::lexer::spec_utf8_len(s.last())
    }
}

/// `str::len`: the length of `s` in bytes.
#[verifier::external_body]
pub fn byte_len(s: &str) -> (r: usize)
    ensures
        r == utf8_bytes(s@),
{
    s.len()
}

/// The fields of a text between `\n` characters (one empty field for no
/// text).
pub open spec fn newline_fields(s: Seq<char>) -> Seq<Seq<char>>
    decreases s.len(),
{
    if s.len() == 0 {
        seq![Seq::empty()]
    } else {
        let f = newline_fields(s.drop_last());
        if s.last() == '\n' {
            f.push(Seq::empty())
        } else {
            f.update(f.len() - 1, f.last().push(s.last()))
        }
    }
}

proof fn lemma_newline_fields_nonempty(s: Seq<char>)
    ensures
        newline_fields(s).len() >= 1,
    decreases s.len(),
{
    if s.len() > 0 {
        lemma_newline_fields_nonempty(s.drop_last());
    }
}

/// A line without one `\r` at its end.
pub open spec fn without_cr(l: Seq<char>) -> Seq<char> {
    if l.len() > 0 && l.last() == '\r' {
        l.drop_last()
    } else {
        l
    }
}

/// The lines of a text: the fields ended by `\n`, each without one `\r`
/// before its `\n`, then the unended rest unless it is empty.
pub open spec fn spec_lines(s: Seq<char>) -> Seq<Seq<char>> {
    let f = newline_fields(s);
    let ended = f.drop_last().map_values(|l: Seq<char>| without_cr(l));
    if f.last().len() == 0 {
        ended
    } else {
        ended.push(f.last())
    }
}

pub open spec fn char_views(v: Seq<Vec<char>>) -> Seq<Seq<char>> {
    v.map_values(|x: Vec<char>| x@)
}

/// `str::lines`: the lines of `spec_lines`.
pub fn lines(s: &str) -> (r: Vec<Vec<char>>)
    ensures
        char_views(r@) == spec_lines(s@),
{
    let cs = chars_of(s);
    let mut out: Vec<Vec<char>> = Vec::new();
    let mut current: Vec<char> = Vec::new();
    let mut k: usize = 0;
    proof {
        assert(cs@.take(0) =~= Seq::<char>::empty());
        assert(char_views(out@) =~= newline_fields(cs@.take(0)).drop_last().map_values(|l: Seq<char>| without_cr(l)));
    }
    while k < cs.len()
        invariant
            k <= cs@.len(),
            cs@ == s@,
            char_views(out@) == newline_fields(cs@.take(k as int)).drop_last().map_values(|l: Seq<char>| without_cr(l)),
            current@ == newline_fields(cs@.take(k as int)).last(),
        decreases cs@.len() - k,
    {
        proof {
            assert(cs@.take(k + 1).drop_last() =~= cs@.take(k as int));
            lemma_newline_fields_nonempty(cs@.take(k as int));
        }
        let ghost before = out@;
        let ghost fs = newline_fields(cs@.take(k as int));
        let c = cs[k];
        if c == '\n' {
            let ghost whole = current@;
            if current.len() > 0 && current[current.len() - 1] == '\r' {
                current.pop();
            }
            proof {
                assert(current@ =~= without_cr(whole));
            }
            out.push(current);
            current = Vec::new();
            proof {
                let nf = newline_fields(cs@.take(k + 1));
                assert(nf == fs.push(Seq::empty()));
                assert(nf.drop_last() =~= fs);
                assert(fs =~= fs.drop_last().push(fs.last()));
                assert(char_views(out@) =~= char_views(before).push(without_cr(fs.last())));
                assert(fs.map_values(|l: Seq<char>| without_cr(l)) =~= fs.drop_last().map_values(|l: Seq<char>| without_cr(l)).push(without_cr(fs.last())));
            }
        } else {
            current.push(c);
            proof {
                let nf = newline_fields(cs@.take(k + 1));
                assert(nf == fs.update(fs.len() - 1, fs.last().push(c)));
                assert(nf.drop_last() =~= fs.drop_last());
            }
        }
        k = k + 1;
    }
    proof {
        assert(cs@.take(k as int) =~= s@);
        lemma_newline_fields_nonempty(s@);
    }
    if current.len() > 0 {
        let ghost before = out@;
        out.push(current);
        proof {
            assert(char_views(out@) =~= char_views(before).push(newline_fields(s@).last()));
        }
    }
    out
}

/// The index of the first character of `s` from `i` on that is not white
/// space (`s.len()` where there is none).
pub open spec fn first_non_space(s: Seq<char>, i: int) -> int
    decreases s.len() - i,
{
    if 0 <= i < s.len() && crate::lexer::spec_is_whitespace(s[i]) {
        first_non_space(s, i + 1)
    } else {
        i
    }
}

/// The end of `s` before `j` without its trailing white space, not going
/// below `from`.
pub open spec fn last_non_space_end(s: Seq<char>, j: int, from: int) -> int
    decreases j - from,
{
    if from < j && j <= s.len() && crate::lexer::spec_is_whitespace(s[j - 1]) {
        last_non_space_end(s, j - 1, from)
    } else {
        j
    }
}

/// `str::trim`: `s` without its leading and trailing white space.
pub open spec fn spec_trim(s: Seq<char>) -> Seq<char> {
    let from = first_non_space(s, 0);
    s.subrange(from, last_non_space_end(s, s.len() as int, from))
}

/// `str::trim`: the text without leading and trailing white space.
pub fn trim(cs: &Vec<char>) -> (r: Vec<char>)
    ensures
        r@ == spec_trim(cs@),
{
    let mut from: usize = 0;
    while from < cs.len() && crate::lexer::is_whitespace(cs[from])
        invariant
            from <= cs@.len(),
            first_non_space(cs@, from as int) == first_non_space(cs@, 0),
        decreases cs@.len() - from,
    {
        from = from + 1;
    }
    let mut to: usize = cs.len();
    while to > from && crate::lexer::is_whitespace(cs[to - 1])
        invariant
            from <= to <= cs@.len(),
            from == first_non_space(cs@, 0),
            last_non_space_end(cs@, to as int, from as int) == last_non_space_end(cs@, cs@.len() as int, from as int),
        decreases to,
    {
        to = to - 1;
    }
    chars_between(cs, from, to)
}

/// The white-space-separated fields of a text (one empty field for none).
pub open spec fn space_fields(s: Seq<char>) -> Seq<Seq<char>>
    decreases s.len(),
{
    if s.len() == 0 {
        seq![Seq::empty()]
    } else {
        let f = space_fields(s.drop_last());
        if crate::lexer::spec_is_whitespace(s.last()) {
            f.push(Seq::empty())
        } else {
            f.update(f.len() - 1, f.last().push(s.last()))
        }
    }
}

/// The words of a text: its nonempty white-space-separated fields.
pub open spec fn words(s: Seq<char>) -> Seq<Seq<char>> {
    space_fields(s).filter(|f: Seq<char>| f.len() > 0)
}

proof fn lemma_space_fields_nonempty(s: Seq<char>)
    ensures
        space_fields(s).len() >= 1,
    decreases s.len(),
{
    if s.len() > 0 {
        lemma_space_fields_nonempty(s.drop_last());
    }
}

/// `str::split_whitespace`: the nonempty runs of characters between white space.
pub fn split_whitespace(cs: &Vec<char>) -> (r: Vec<String>)
    ensures
        r@.map_values(|x: String| x@) == words(cs@),
{
    let mut out: Vec<String> = Vec::new();
    let mut current: Vec<char> = Vec::new();
    let mut k: usize = 0;
    proof {
        reveal(Seq::filter);
        assert(cs@.take(0) =~= Seq::<char>::empty());
        assert(space_fields(cs@.take(0)).drop_last() =~= Seq::<Seq<char>>::empty());
        assert(out@.map_values(|x: String| x@) =~= Seq::<Seq<char>>::empty());
    }
    while k < cs.len()
        invariant
            k <= cs@.len(),
            out@.map_values(|x: String| x@) == space_fields(cs@.take(k as int)).drop_last().filter(|f: Seq<char>| f.len() > 0),
            current@ == space_fields(cs@.take(k as int)).last(),
        decreases cs@.len() - k,
    {
        proof {
            reveal(Seq::filter);
            assert(cs@.take(k + 1).drop_last() =~= cs@.take(k as int));
            lemma_space_fields_nonempty(cs@.take(k as int));
        }
        let ghost before = out@.map_values(|x: String| x@);
        let ghost fs = space_fields(cs@.take(k as int));
        if crate::lexer::is_whitespace(cs[k]) {
            if current.len() > 0 {
                out.push(string_of(current.as_slice()));
                current = Vec::new();
                proof {
                    assert(out@.map_values(|x: String| x@) =~= before.push(fs.last()));
                }
            } else {
                current = Vec::new();
            }
            proof {
                assert(space_fields(cs@.take(k + 1)).drop_last() =~= fs);
                assert(fs =~= fs.drop_last().push(fs.last()));
            }
        } else {
            current.push(cs[k]);
            proof {
                assert(space_fields(cs@.take(k + 1)).drop_last() =~= fs.drop_last());
            }
        }
        k = k + 1;
    }
    proof {
        reveal(Seq::filter);
        assert(cs@.take(k as int) =~= cs@);
        lemma_space_fields_nonempty(cs@);
        let fs = space_fields(cs@);
        assert(fs =~= fs.drop_last().push(fs.last()));
    }
    let ghost before = out@.map_values(|x: String| x@);
    if current.len() > 0 {
        out.push(string_of(current.as_slice()));
        proof {
            assert(out@.map_values(|x: String| x@) =~= before.push(current@));
        }
    }
    out
}

/// The characters before the first `c`, or all of them.
pub fn before_char(cs: &Vec<char>, c: char) -> (r: Vec<char>)
    ensures
        !r@.contains(c),
        r@.len() <= cs@.len(),
        r@ == cs@.take(r@.len() as int),
        r@.len() < cs@.len() ==> cs@[r@.len() as int] == c,
{
    let mut k: usize = 0;
    while k < cs.len() && cs[k] != c
        invariant
            k <= cs@.len(),
            forall|j: int| 0 <= j < k ==> cs@[j] != c,
        decreases cs@.len() - k,
    {
        k = k + 1;
    }
    let r = chars_between(cs, 0, k);
    proof {
        assert(r@ =~= cs@.take(k as int));
        assert(!r@.contains(c)) by {
            if r@.contains(c) {
                let j = choose|j: int| 0 <= j < r@.len() && r@[j] == c;
                assert(cs@[j] == c);
            }
        }
    }
    r
}

/// Every character is an ASCII decimal digit.
pub open spec fn all_digits(s: Seq<char>) -> bool {
    forall|k: int| 0 <= k < s.len() ==> '0' <= #[trigger] s[k] <= '9'
}

/// The number that a string of decimal digits spells.
pub open spec fn digits_value(s: Seq<char>) -> nat
    decreases s.len(),
{
    if s.len() == 0 {
        0
    } else {
        digits_value(s.drop_last()) * 10 + ((s.last() as u32) - ('0' as u32)) as nat
    }
}

/// `str::parse::<u32>`: on decimal digits, the value, or the error's text
/// when the value exceeds `u32::MAX`; of other text only that it is read.
#[verifier::external_body]
pub fn parse_u32(text: &str) -> (r: Result<u32, String>)
    ensures
        text@.len() > 0 && all_digits(text@) ==> (r matches Ok(v) ==> v == digits_value(text@)),
        text@.len() > 0 && all_digits(text@) ==> (r is Err <==> digits_value(text@) > u32::MAX),
{
    text.parse::<u32>().map_err(|e| e.to_string())
}

/// `str::parse::<usize>`: on decimal digits, the value, or the error's text
/// when the value exceeds `usize::MAX`; of other text only that it is read.
#[verifier::external_body]
pub fn parse_usize(text: &str) -> (r: Result<usize, String>)
    ensures
        text@.len() > 0 && all_digits(text@) ==> (r matches Ok(v) ==> v == digits_value(text@)),
        text@.len() > 0 && all_digits(text@) ==> (r is Err <==> digits_value(text@) > usize::MAX),
{
    text.parse::<usize>().map_err(|e| e.to_string())
}

pub open spec fn is_hex(c: char) -> bool {
    ('0' <= c <= '9') || ('a' <= c <= 'f') || ('A' <= c <= 'F')
}

pub open spec fn hex_digit(c: char) -> nat {
    if '0' <= c <= '9' {
        ((c as u32) - ('0' as u32)) as nat
    } else if 'a' <= c <= 'f' {
        ((c as u32) - ('a' as u32) + 10) as nat
    } else {
        ((c as u32) - ('A' as u32) + 10) as nat
    }
}

/// Hexadecimal digits: decimal digits count from 0, letters from 10, an
/// upper-case letter counts as its lower-case form, and every value below 16
/// is spelled.
pub proof fn law_hex_digits(c: char, d: char)
    requires
        is_hex(c),
        is_hex(d),
    ensures
        hex_digit(c) < 16,
        'A' <= c <= 'F' ==> hex_digit(c) == hex_digit(((c as u32) + 32) as char),
        ('0' <= c <= '9' && '0' <= d <= '9') || ('a' <= c <= 'f' && 'a' <= d <= 'f') || ('A' <= c <= 'F' && 'A' <= d
            <= 'F') ==> hex_digit(d) - hex_digit(c) == (d as u32) - (c as u32),
        hex_digit('0') == 0 && hex_digit('9') == 9 && hex_digit('a') == 10 && hex_digit('f') == 15 && hex_digit('A') == 10
            && hex_digit('F') == 15,
        '0' <= c <= '9' ==> hex_digit(c) < 10,
        !('0' <= c <= '9') ==> hex_digit(c) >= 10,
{
    if 'A' <= c <= 'F' {
        let l = ((c as u32) + 32) as char;
        assert('a' <= l <= 'f');
    }
}

/// A nonempty string of hexadecimal digits.
pub open spec fn hex_text(s: Seq<char>) -> bool {
    s.len() > 0 && forall|k: int| 0 <= k < s.len() ==> is_hex(#[trigger] s[k])
}

/// The number that a string of hexadecimal digits spells.
pub open spec fn hex_value(s: Seq<char>) -> nat
    decreases s.len(),
{
    if s.len() == 0 {
        0
    } else {
        hex_value(s.drop_last()) * 16 + hex_digit(s.last())
    }
}

/// The number that `u32::from_str_radix(text, 16)` reads: hexadecimal digits
/// after an optional `+`, of a value that fits in `u32`.
pub open spec fn hex_number(text: Seq<char>) -> Option<u32> {
    if hex_text(text) && hex_value(text) <= u32::MAX {
        Some(hex_value(text) as u32)
    } else if text.len() > 0 && text[0] == '+' && hex_text(text.drop_first()) && hex_value(text.drop_first())
        <= u32::MAX {
        Some(hex_value(text.drop_first()) as u32)
    } else {
        None
    }
}

/// `u32::from_str_radix(text, 16)`: the number of `hex_number`, or the
/// error's text for anything else; that text is not stated.
#[verifier::external_body]
pub fn parse_hex_u32(text: &str) -> (r: Result<u32, String>)
    ensures
        match hex_number(text@) {
            Some(v) => r == Ok::<u32, String>(v),
            None => r is Err,
        },
{
    u32::from_str_radix(text, 16).map_err(|e| e.to_string())
}

/// A Unicode scalar value: at most `0x10FFFF` and not a surrogate.
pub open spec fn scalar(u: u32) -> bool {
    u <= 0x10FFFF && !(0xD800 <= u <= 0xDFFF)
}

/// `char::from_u32`: the character with code `u`, if `u` is a scalar value.
#[verifier::external_body]
pub fn char_from_u32(u: u32) -> (r: Option<char>)
    ensures
        r matches Some(c) ==> scalar(u) && c as u32 == u && c == u as char,
        r is None <==> !scalar(u),
{
    char::from_u32(u)
}

/// The `Debug` form of a string: quoted, with escapes.
pub uninterp spec fn debug_text(s: Seq<char>) -> Seq<char>;

/// `format!("{s:?}")`: the quoted, escaped `Debug` form of a string.
#[verifier::external_body]
pub fn debug_quoted(s: &str) -> (r: String)
    ensures
        r@ == debug_text(s@),
{
    format!("{s:?}")
}

/// Whether `c` occurs in `s`.
pub fn contains_char(s: &str, c: char) -> (r: bool)
    ensures
        r == s@.contains(c),
{
    let cs = chars_of(s);
    let mut k: usize = 0;
    while k < cs.len()
        invariant
            cs@ == s@,
            k <= cs@.len(),
            forall|j: int| 0 <= j < k ==> cs@[j] != c,
        decreases cs@.len() - k,
    {
        if cs[k] == c {
            assert(s@[k as int] == c);
            return true;
        }
        k = k + 1;
    }
    false
}

/// `s` split around its first `c`: the text before it and the text after it.
pub fn split_once(s: &str, c: char) -> (r: Option<(String, String)>)
    ensures
        r matches Some((h, t)) ==> s@ == h@ + seq![c] + t@ && !h@.contains(c),
        r is None <==> !s@.contains(c),
{
    let cs = chars_of(s);
    let mut k: usize = 0;
    while k < cs.len()
        invariant
            cs@ == s@,
            k <= cs@.len(),
            forall|j: int| 0 <= j < k ==> cs@[j] != c,
        decreases cs@.len() - k,
    {
        if cs[k] == c {
            let h = string_of(vstd::slice::slice_subrange(cs.as_slice(), 0, k));
            let t = string_of(vstd::slice::slice_subrange(cs.as_slice(), k + 1, cs.len()));
            proof {
                assert(s@ =~= h@ + seq![c] + t@);
                assert(!h@.contains(c)) by {
                    if h@.contains(c) {
                        let j = choose|j: int| 0 <= j < h@.len() && h@[j] == c;
                        assert(cs@[j] == c);
                    }
                }
            }
            return Some((h, t));
        }
        k = k + 1;
    }
    proof {
        assert(!s@.contains(c)) by {
            if s@.contains(c) {
                let j = choose|j: int| 0 <= j < s@.len() && s@[j] == c;
                assert(cs@[j] == c);
            }
        }
    }
    None
}

/// `a`, a separator character, then `b`.
pub fn joined(a: &str, sep: char, b: &str) -> (r: String)
    ensures
        r@ == a@ + seq![sep] + b@,
{
    let mut cs = chars_of(a);
    cs.push(sep);
    let tail = chars_of(b);
    let mut k: usize = 0;
    let ghost start = cs@;
    while k < tail.len()
        invariant
            k <= tail@.len(),
            tail@ == b@,
            cs@ == start + tail@.take(k as int),
        decreases tail@.len() - k,
    {
        cs.push(tail[k]);
        proof {
            assert(tail@.take(k + 1) =~= tail@.take(k as int).push(tail@[k as int]));
        }
        k = k + 1;
    }
    proof {
        assert(tail@.take(k as int) =~= tail@);
        assert(start =~= a@ + seq![sep]);
    }
    string_of(cs.as_slice())
}

} // verus!
