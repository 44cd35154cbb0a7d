//! Tokens of Bend source text and the scanner that produces them.
use crate::text::{chars_of, concat, decimal, spec_decimal, string_of};
use vstd::prelude::*;

verus! {

/// A source location and a precise parse or module loading failure.
#[derive(Debug)]
pub struct ParseError {
    pub source: String,
    pub line: usize,
    pub column: usize,
    pub message: String,
}

impl ParseError {
    /// `source:line:column: message`.
    pub fn describe(&self) -> (r: String)
        ensures
            r@ == location_text(self.source@, self.line, self.column, self.message@),
    {
        located(self.source.as_str(), self.line, self.column, self.message.as_str())
    }
}

/// `source:line:column: message`, with the numbers in decimal.
pub open spec fn location_text(source: Seq<char>, line: usize, column: usize, message: Seq<char>) -> Seq<char> {
    source + ":"@ + spec_decimal(line as nat) + ":"@ + spec_decimal(column as nat) + ": "@ + message
}

/// `source:line:column: message`, with the numbers in decimal.
fn located(source: &str, line: usize, column: usize, message: &str) -> (r: String)
    ensures
        r@ == location_text(source@, line, column, message@),
{
    let line_text = decimal(line);
    let column_text = decimal(column);
    let a = concat(source, ":");
    let b = concat(a.as_str(), line_text.as_str());
    let c = concat(b.as_str(), ":");
    let d = concat(c.as_str(), column_text.as_str());
    let e = concat(d.as_str(), ": ");
    let r = concat(e.as_str(), message);
    proof {
        assert(r@ =~= location_text(source@, line, column, message@));
    }
    r
}

/// The `Debug` form of a character: quoted and escaped.
pub uninterp spec fn debug_char(c: char) -> Seq<char>;

/// `format!("{c:?}")`: the quoted, escaped `Debug` form of a character.
#[verifier::external_body]
fn debug_character(c: char) -> (r: String)
    ensures
        r@ == debug_char(c),
{
    format!("{c:?}")
}

/// The refusal of a character that starts no token.
fn unexpected_character(c: char) -> (r: String)
    ensures
        r@ == "unexpected character "@ + debug_char(c),
{
    concat("unexpected character ", debug_character(c).as_str())
}

/// One token: its text, where it starts (line and column), and the character
/// offsets of its first character and of the character after it.
#[derive(Debug)]
pub struct Token {
    pub text: String,
    pub line: usize,
    pub column: usize,
    pub start: usize,
    pub end: usize,
}

impl Token {
    pub fn copy(&self) -> (r: Token)
        ensures
            r == *self,
    {
        Token { text: self.text.clone(), line: self.line, column: self.column, start: self.start, end: self.end }
    }
}

/// Unicode `White_Space`, the property that `char::is_whitespace` tests.
pub open spec fn spec_is_whitespace(c: char) -> bool {
    let u = c as u32;
    (0x9 <= u <= 0xd) || u == 0x20 || u == 0x85 || u == 0xa0 || u == 0x1680 || (0x2000 <= u <= 0x200a)
        || u == 0x2028 || u == 0x2029 || u == 0x202f || u == 0x205f || u == 0x3000
}

pub fn is_whitespace(c: char) -> (r: bool)
    ensures
        r == spec_is_whitespace(c),
{
    let u = c as u32;
    (0x9 <= u && u <= 0xd) || u == 0x20 || u == 0x85 || u == 0xa0 || u == 0x1680 || (0x2000 <= u && u
        <= 0x200a) || u == 0x2028 || u == 0x2029 || u == 0x202f || u == 0x205f || u == 0x3000
}

/// The number of bytes of `c` in UTF-8.
pub open spec fn spec_utf8_len(c: char) -> nat {
    let u = c as u32;
    if u < 0x80 {
        1
    } else if u < 0x800 {
        2
    } else if u < 0x10000 {
        3
    } else {
        4
    }
}

pub fn utf8_len(c: char) -> (r: usize)
    ensures
        r == spec_utf8_len(c),
{
    let u = c as u32;
    if u < 0x80 {
        1
    } else if u < 0x800 {
        2
    } else if u < 0x10000 {
        3
    } else {
        4
    }
}

pub open spec fn spec_ascii_alpha(c: char) -> bool {
    ('a' <= c <= 'z') || ('A' <= c <= 'Z')
}

pub open spec fn spec_ascii_digit(c: char) -> bool {
    '0' <= c <= '9'
}

pub fn is_ascii_alpha(c: char) -> (r: bool)
    ensures
        r == spec_ascii_alpha(c),
{
    ('a' <= c && c <= 'z') || ('A' <= c && c <= 'Z')
}

pub fn is_ascii_digit(c: char) -> (r: bool)
    ensures
        r == spec_ascii_digit(c),
{
    '0' <= c && c <= '9'
}

/// Whether the characters of `s` at `at` begin with `p`.
pub open spec fn spec_starts_at(s: Seq<char>, at: int, p: Seq<char>) -> bool {
    at + p.len() <= s.len() && s.subrange(at, at + p.len()) == p
}

pub fn starts_at(s: &Vec<char>, at: usize, p: &Vec<char>) -> (r: bool)
    ensures
        r == spec_starts_at(s@, at as int, p@),
{
    if at > s.len() || p.len() > s.len() - at {
        return false;
    }
    let mut k: usize = 0;
    while k < p.len()
        invariant
            k <= p@.len(),
            at + p.len() <= s.len(),
            forall|j: int| 0 <= j < k ==> s@[at + j] == p@[j],
        decreases p@.len() - k,
    {
        if s[at + k] != p[k] {
            proof {
                assert(s@.subrange(at as int, at + p@.len())[k as int] != p@[k as int]);
            }
            return false;
        }
        k = k + 1;
    }
    proof {
        assert(s@.subrange(at as int, at + p@.len()) =~= p@);
    }
    true
}

/// `a + b`, or `usize::MAX` where that does not fit.
pub open spec fn sat_add(a: usize, b: int) -> usize {
    if a + b <= usize::MAX {
        (a + b) as usize
    } else {
        usize::MAX
    }
}

fn saturating_add(a: usize, b: usize) -> (r: usize)
    ensures
        r == sat_add(a, b as int),
{
    if a <= usize::MAX - b {
        a + b
    } else {
        usize::MAX
    }
}

/// The characters that continue a name.
pub open spec fn name_char(c: char) -> bool {
    spec_ascii_alpha(c) || spec_ascii_digit(c) || c == '_' || c == '.'
}

/// The end of the run of name characters that starts at `at`.
pub open spec fn name_end(s: Seq<char>, at: int) -> int
    decreases s.len() - at,
{
    if 0 <= at < s.len() && name_char(s[at]) {
        name_end(s, at + 1)
    } else {
        at
    }
}

/// The end of the run of decimal digits that starts at `at`.
pub open spec fn digits_end(s: Seq<char>, at: int) -> int
    decreases s.len() - at,
{
    if 0 <= at < s.len() && spec_ascii_digit(s[at]) {
        digits_end(s, at + 1)
    } else {
        at
    }
}

/// The end of a numeric literal that starts at `start`: digits, then either
/// an `n`, or a `.` with digits and an optional exponent.
pub open spec fn number_end(s: Seq<char>, start: int) -> int {
    let d = digits_end(s, start);
    if d < s.len() && s[d] == 'n' {
        d + 1
    } else if d < s.len() && s[d] == '.' {
        let f = digits_end(s, d + 1);
        if f < s.len() && (s[f] == 'e' || s[f] == 'E') {
            let g = if f + 1 < s.len() && (s[f + 1] == '+' || s[f + 1] == '-') {
                f + 2
            } else {
                f + 1
            };
            digits_end(s, g)
        } else {
            f
        }
    } else {
        d
    }
}

/// The rest of a quoted literal from `at`, after its opening `quote`: the
/// end after the closing quote, or why there is none. A backslash escapes
/// the character after it.
pub open spec fn literal_end(s: Seq<char>, at: int, quote: char, escaped: bool) -> Result<int, Seq<char>>
    decreases s.len() - at,
{
    if !(0 <= at < s.len()) {
        Err("unterminated literal"@)
    } else if s[at] == '\n' {
        Err("a string or character literal cannot cross a line"@)
    } else if escaped {
        literal_end(s, at + 1, quote, false)
    } else if s[at] == '\\' {
        literal_end(s, at + 1, quote, true)
    } else if s[at] == quote {
        Ok(at + 1)
    } else {
        literal_end(s, at + 1, quote, false)
    }
}

/// Multi-character punctuation, longest first where one is a prefix of another.
pub open spec fn punctuation_list() -> Seq<Seq<char>> {
    seq![
        seq!['<', '&', '>'], seq!['.', '|', '.'], seq!['.', '^', '.'], seq!['.', '&', '.'],
        seq!['=', '>'], seq!['-', '>'], seq!['=', '='], seq!['!', '='], seq!['<', '='],
        seq!['>', '='], seq!['<', '>'], seq!['+', '+'], seq!['<', '<'], seq!['>', '>'],
        seq!['&', '&'], seq!['|', '|'], seq!['<', '-'],
    ]
}

/// The length of the first of `list`, from index `k` on, that the
/// characters at `at` begin with, or 0 where none does.
pub open spec fn first_punctuation(s: Seq<char>, at: int, list: Seq<Seq<char>>, k: int) -> int
    decreases list.len() - k,
{
    if 0 <= k < list.len() {
        if spec_starts_at(s, at, list[k]) {
            list[k].len() as int
        } else {
            first_punctuation(s, at, list, k + 1)
        }
    } else {
        0
    }
}

/// Text that is too short for `p`, or differs from it at `m`, does not
/// begin with `p`.
pub proof fn lemma_not_starts(s: Seq<char>, p: Seq<char>, m: int)
    requires
        0 <= m < p.len(),
        p.len() > s.len() || s[m] != p[m],
    ensures
        !spec_starts_at(s, 0, p),
{
    if spec_starts_at(s, 0, p) {
        assert(s.subrange(0, p.len() as int)[m] == p[m]);
    }
}

/// Single-character punctuation.
pub open spec fn single_punct(c: char) -> bool {
    c == '@' || c == '&' || c == '+' || c == '\\' || c == '%' || c == '{' || c == '}' || c == '('
        || c == ')' || c == '[' || c == ']' || c == '?' || c == ':' || c == ',' || c == ';' || c == '='
        || c == '<' || c == '>' || c == '-' || c == '*' || c == '/' || c == '|' || c == '~' || c == '!'
        || c == '^'
}

/// The token that starts at `start`, which is neither whitespace nor `#`:
/// where it ends, or the message that refuses it.
pub open spec fn token_scan(s: Seq<char>, start: int) -> Result<int, Seq<char>> {
    let ch = s[start];
    if ch == '"' || ch == '\'' {
        literal_end(s, start + 1, ch, false)
    } else if spec_ascii_alpha(ch) || ch == '_' {
        let e = name_end(s, start + 1);
        if s[e - 1] == '.' {
            Err("a name cannot end with a dot"@)
        } else {
            Ok(e)
        }
    } else if spec_ascii_digit(ch) {
        let e = number_end(s, start);
        if e < s.len() && (spec_ascii_alpha(s[e]) || s[e] == '_') {
            Err("invalid numeric literal suffix"@)
        } else {
            Ok(e)
        }
    } else {
        let p = first_punctuation(s, start, punctuation_list(), 0);
        if p > 0 {
            Ok(start + p)
        } else if single_punct(ch) {
            Ok(start + 1)
        } else {
            Err("unexpected character "@ + debug_char(ch))
        }
    }
}

/// The end of a comment whose text starts at `at`, and the column there: a
/// comment runs to the end of its line and advances the column by the UTF-8
/// length of each character.
pub open spec fn comment_end(s: Seq<char>, at: int, column: usize) -> (int, usize)
    decreases s.len() - at,
{
    if 0 <= at < s.len() && s[at] != '\n' {
        comment_end(s, at + 1, sat_add(column, spec_utf8_len(s[at]) as int))
    } else {
        (at, column)
    }
}

pub proof fn lemma_name_end(s: Seq<char>, at: int)
    requires
        0 <= at <= s.len(),
    ensures
        at <= name_end(s, at) <= s.len(),
        name_end(s, at) < s.len() ==> !name_char(s[name_end(s, at)]),
        forall|j: int| at <= j < name_end(s, at) ==> name_char(#[trigger] s[j]),
    decreases s.len() - at,
{
    if at < s.len() && name_char(s[at]) {
        lemma_name_end(s, at + 1);
    }
}

pub proof fn lemma_digits_end(s: Seq<char>, at: int)
    requires
        0 <= at <= s.len(),
    ensures
        at <= digits_end(s, at) <= s.len(),
        digits_end(s, at) < s.len() ==> !spec_ascii_digit(s[digits_end(s, at)]),
    decreases s.len() - at,
{
    if at < s.len() && spec_ascii_digit(s[at]) {
        lemma_digits_end(s, at + 1);
    }
}

pub proof fn lemma_literal_end(s: Seq<char>, at: int, quote: char, escaped: bool)
    requires
        0 <= at <= s.len(),
    ensures
        literal_end(s, at, quote, escaped) matches Ok(e) ==> at < e <= s.len(),
    decreases s.len() - at,
{
    if at < s.len() && s[at] != '\n' {
        lemma_literal_end(s, at + 1, quote, false);
        lemma_literal_end(s, at + 1, quote, true);
    }
}

pub proof fn lemma_first_punctuation(s: Seq<char>, at: int, k: int)
    requires
        0 <= k <= punctuation_list().len(),
    ensures
        first_punctuation(s, at, punctuation_list(), k) > 0 ==> at + first_punctuation(s, at, punctuation_list(), k) <= s.len(),
        first_punctuation(s, at, punctuation_list(), k) >= 0,
    decreases punctuation_list().len() - k,
{
    if k < punctuation_list().len() && !spec_starts_at(s, at, punctuation_list()[k]) {
        lemma_first_punctuation(s, at, k + 1);
    }
}

pub proof fn lemma_number_end(s: Seq<char>, start: int)
    requires
        0 <= start < s.len(),
        spec_ascii_digit(s[start]),
    ensures
        start < number_end(s, start) <= s.len(),
{
    lemma_digits_end(s, start);
    let d = digits_end(s, start);
    if d < s.len() && s[d] == '.' {
        lemma_digits_end(s, d + 1);
        let f = digits_end(s, d + 1);
        if f < s.len() && (s[f] == 'e' || s[f] == 'E') {
            if f + 1 < s.len() && (s[f + 1] == '+' || s[f + 1] == '-') {
                lemma_digits_end(s, f + 2);
            } else {
                lemma_digits_end(s, f + 1);
            }
        }
    }
}

/// A token ends after it starts, within the text.
pub proof fn lemma_token_scan(s: Seq<char>, start: int)
    requires
        0 <= start < s.len(),
    ensures
        token_scan(s, start) matches Ok(e) ==> start < e <= s.len(),
{
    let ch = s[start];
    if ch == '"' || ch == '\'' {
        lemma_literal_end(s, start + 1, ch, false);
    } else if spec_ascii_alpha(ch) || ch == '_' {
        lemma_name_end(s, start + 1);
    } else if spec_ascii_digit(ch) {
        lemma_number_end(s, start);
    } else {
        lemma_first_punctuation(s, start, 0);
    }
}

pub proof fn lemma_comment_end(s: Seq<char>, at: int, column: usize)
    requires
        0 <= at <= s.len(),
    ensures
        at <= comment_end(s, at, column).0 <= s.len(),
    decreases s.len() - at,
{
    if at < s.len() && s[at] != '\n' {
        lemma_comment_end(s, at + 1, sat_add(column, spec_utf8_len(s[at]) as int));
    }
}

/// Where a token starts and ends, and its line and column.
pub open spec fn prepend(
    spans: Seq<(int, int, usize, usize)>,
    rest: Result<(Seq<(int, int, usize, usize)>, usize, usize), (usize, usize, Seq<char>)>,
) -> Result<(Seq<(int, int, usize, usize)>, usize, usize), (usize, usize, Seq<char>)> {
    match rest {
        Ok((more, line, column)) => Ok((spans + more, line, column)),
        Err(e) => Err(e),
    }
}

/// Scanning the characters of `s` from `pos`, at `line` and `column`: the
/// spans of the tokens and the line and column at the end, or the line,
/// column and message of the first refusal. Lines count from 1 and columns
/// from 1 in characters; a newline starts a new line at column 1.
pub open spec fn lex_from(s: Seq<char>, pos: int, line: usize, column: usize) -> Result<
    (Seq<(int, int, usize, usize)>, usize, usize),
    (usize, usize, Seq<char>),
>
    decreases s.len() - pos,
{
    if !(0 <= pos < s.len()) {
        Ok((seq![], line, column))
    } else if spec_is_whitespace(s[pos]) {
        if s[pos] == '\n' {
            lex_from(s, pos + 1, sat_add(line, 1), 1)
        } else {
            lex_from(s, pos + 1, line, sat_add(column, 1))
        }
    } else if s[pos] == '#' {
        let (e, c) = comment_end(s, pos + 1, sat_add(column, 1));
        proof {
            lemma_comment_end(s, pos + 1, sat_add(column, 1));
        }
        lex_from(s, e, line, c)
    } else {
        match token_scan(s, pos) {
            Err(m) => Err((line, column, m)),
            Ok(end) => {
                proof {
                    lemma_token_scan(s, pos);
                }
                prepend(seq![(pos, end, line, column)], lex_from(s, end, line, sat_add(column, end - pos)))
            },
        }
    }
}

/// The spans of tokens.
pub open spec fn spans_of(ts: Seq<Token>) -> Seq<(int, int, usize, usize)> {
    ts.map_values(|t: Token| (t.start as int, t.end as int, t.line, t.column))
}

/// The well-formedness of a token list over the characters `s`: tokens are
/// nonempty, in order, non-overlapping slices of `s`, closed by one empty
/// end-of-input token at `s.len()`.
pub open spec fn tokens_wf(ts: Seq<Token>, s: Seq<char>) -> bool {
    &&& ts.len() >= 1
    &&& ts.last().text@.len() == 0
    &&& ts.last().start == s.len()
    &&& ts.last().end == s.len()
    &&& forall|k: int| 0 <= k < ts.len() - 1 ==> {
        &&& (#[trigger] ts[k]).start < ts[k].end <= s.len()
        &&& ts[k].text@ == s.subrange(ts[k].start as int, ts[k].end as int)
    }
    &&& forall|k: int| 0 <= k < ts.len() - 1 ==> (#[trigger] ts[k]).end <= ts[k + 1].start
}

/// What `lex` gives back for the characters `s`: the tokens of `lex_from`
/// with their text, closed by an empty token at the end, or the first
/// refusal, located.
pub open spec fn lexed(s: Seq<char>, label: Seq<char>, r: Result<Vec<Token>, ParseError>) -> bool {
    match lex_from(s, 0, 1, 1) {
        Ok((spans, line, column)) => r matches Ok(ts) && {
            &&& ts@.len() == spans.len() + 1
            &&& spans_of(ts@.drop_last()) == spans
            &&& ts@.last() == (Token { text: ts@.last().text, line, column, start: s.len() as usize, end: s.len() as usize })
            &&& tokens_wf(ts@, s)
        },
        Err((line, column, message)) => r matches Err(e) && e.source@ == label && e.line == line && e.column
            == column && e.message@ == message,
    }
}

/// Where the scan of `s` refuses it, `r` is that refusal, located in
/// `label`.
pub open spec fn refused_as_scanned<T>(s: Seq<char>, label: Seq<char>, r: Result<T, ParseError>) -> bool {
    match lex_from(s, 0, 1, 1) {
        Ok(_) => true,
        Err((line, column, message)) => r matches Err(e) && e.source@ == label && e.line == line && e.column
            == column && e.message@ == message,
    }
}

fn name_end_at(s: &Vec<char>, at: usize) -> (r: usize)
    requires
        at <= s@.len(),
    ensures
        r == name_end(s@, at as int),
{
    let mut pos = at;
    while pos < s.len() && (is_ascii_alpha(s[pos]) || is_ascii_digit(s[pos]) || s[pos] == '_' || s[pos] == '.')
        invariant
            at <= pos <= s@.len(),
            name_end(s@, pos as int) == name_end(s@, at as int),
        decreases s@.len() - pos,
    {
        pos = pos + 1;
    }
    pos
}

pub(crate) fn digits_end_at(s: &Vec<char>, at: usize) -> (r: usize)
    requires
        at <= s@.len(),
    ensures
        r == digits_end(s@, at as int),
{
    let mut pos = at;
    while pos < s.len() && is_ascii_digit(s[pos])
        invariant
            at <= pos <= s@.len(),
            digits_end(s@, pos as int) == digits_end(s@, at as int),
        decreases s@.len() - pos,
    {
        pos = pos + 1;
    }
    pos
}

fn number_end_at(s: &Vec<char>, start: usize) -> (r: usize)
    requires
        start < s@.len(),
    ensures
        r == number_end(s@, start as int),
{
    let n = s.len();
    let d = digits_end_at(s, start);
    proof {
        lemma_digits_end(s@, start as int);
    }
    if d < n && s[d] == 'n' {
        d + 1
    } else if d < n && s[d] == '.' {
        let f = digits_end_at(s, d + 1);
        proof {
            lemma_digits_end(s@, d + 1);
        }
        if f < n && (s[f] == 'e' || s[f] == 'E') {
            let g = if f + 1 < n && (s[f + 1] == '+' || s[f + 1] == '-') {
                f + 2
            } else {
                f + 1
            };
            digits_end_at(s, g)
        } else {
            f
        }
    } else {
        d
    }
}

fn literal_end_at(s: &Vec<char>, at: usize, quote: char) -> (r: Result<usize, String>)
    requires
        at <= s@.len(),
    ensures
        match literal_end(s@, at as int, quote, false) {
            Ok(e) => r == Ok::<usize, String>(e as usize),
            Err(m) => r matches Err(x) && x@ == m,
        },
{
    let n = s.len();
    let mut pos = at;
    let mut escaped = false;
    while pos < n
        invariant
            at <= pos <= n,
            n == s@.len(),
            literal_end(s@, pos as int, quote, escaped) == literal_end(s@, at as int, quote, false),
        decreases n - pos,
    {
        let c = s[pos];
        if c == '\n' {
            return Err("a string or character literal cannot cross a line".to_owned());
        }
        if escaped {
            escaped = false;
        } else if c == '\\' {
            escaped = true;
        } else if c == quote {
            return Ok(pos + 1);
        }
        pos = pos + 1;
    }
    Err("unterminated literal".to_owned())
}

/// Multi-character punctuation, as characters.
fn punctuation() -> (r: Vec<Vec<char>>)
    ensures
        r@.len() == punctuation_list().len(),
        forall|k: int| 0 <= k < r@.len() ==> (#[trigger] r@[k])@ == punctuation_list()[k],
{
    let out: Vec<Vec<char>> = vec![
        vec!['<', '&', '>'], vec!['.', '|', '.'], vec!['.', '^', '.'], vec!['.', '&', '.'],
        vec!['=', '>'], vec!['-', '>'], vec!['=', '='], vec!['!', '='], vec!['<', '='],
        vec!['>', '='], vec!['<', '>'], vec!['+', '+'], vec!['<', '<'], vec!['>', '>'],
        vec!['&', '&'], vec!['|', '|'], vec!['<', '-'],
    ];
    proof {
        assert(out@.len() == punctuation_list().len());
        assert forall|k: int| 0 <= k < out@.len() implies (#[trigger] out@[k])@ == punctuation_list()[k] by {
            assert(out@[k]@ =~= punctuation_list()[k]);
        }
    }
    out
}

/// The length of the first of `punctuation` that the characters at `at`
/// begin with, or 0 where none does.
fn punctuation_at(s: &Vec<char>, at: usize, punctuation: &Vec<Vec<char>>) -> (r: usize)
    requires
        punctuation@.len() == punctuation_list().len(),
        forall|k: int| 0 <= k < punctuation@.len() ==> (#[trigger] punctuation@[k])@ == punctuation_list()[k],
    ensures
        r == first_punctuation(s@, at as int, punctuation_list(), 0),
{
    let mut k: usize = 0;
    while k < punctuation.len()
        invariant
            k <= punctuation@.len(),
            punctuation@.len() == punctuation_list().len(),
            forall|j: int| 0 <= j < punctuation@.len() ==> (#[trigger] punctuation@[j])@ == punctuation_list()[j],
            first_punctuation(s@, at as int, punctuation_list(), k as int) == first_punctuation(
                s@,
                at as int,
                punctuation_list(),
                0,
            ),
        decreases punctuation@.len() - k,
    {
        if starts_at(s, at, &punctuation[k]) {
            return punctuation[k].len();
        }
        k = k + 1;
    }
    0
}

fn single_punctuation(c: char) -> (r: bool)
    ensures
        r == single_punct(c),
{
    c == '@' || c == '&' || c == '+' || c == '\\' || c == '%' || c == '{' || c == '}' || c == '('
        || c == ')' || c == '[' || c == ']' || c == '?' || c == ':' || c == ',' || c == ';' || c == '='
        || c == '<' || c == '>' || c == '-' || c == '*' || c == '/' || c == '|' || c == '~' || c == '!'
        || c == '^'
}

/// The token that starts at `start`.
fn scan_token(s: &Vec<char>, start: usize, punctuation: &Vec<Vec<char>>) -> (r: Result<usize, String>)
    requires
        start < s@.len(),
        punctuation@.len() == punctuation_list().len(),
        forall|k: int| 0 <= k < punctuation@.len() ==> (#[trigger] punctuation@[k])@ == punctuation_list()[k],
    ensures
        match token_scan(s@, start as int) {
            Ok(e) => r == Ok::<usize, String>(e as usize),
            Err(m) => r matches Err(x) && x@ == m,
        },
{
    proof {
        lemma_token_scan(s@, start as int);
    }
    let n = s.len();
    let ch = s[start];
    if ch == '"' || ch == '\'' {
        literal_end_at(s, start + 1, ch)
    } else if is_ascii_alpha(ch) || ch == '_' {
        let e = name_end_at(s, start + 1);
        proof {
            lemma_name_end(s@, start + 1);
        }
        if s[e - 1] == '.' {
            Err("a name cannot end with a dot".to_owned())
        } else {
            Ok(e)
        }
    } else if is_ascii_digit(ch) {
        let e = number_end_at(s, start);
        proof {
            lemma_number_end(s@, start as int);
        }
        if e < s.len() && (is_ascii_alpha(s[e]) || s[e] == '_') {
            Err("invalid numeric literal suffix".to_owned())
        } else {
            Ok(e)
        }
    } else {
        let p = punctuation_at(s, start, punctuation);
        proof {
            lemma_first_punctuation(s@, start as int, 0);
        }
        if p > 0 {
            Ok(start + p)
        } else if single_punctuation(ch) {
            Ok(start + 1)
        } else {
            Err(unexpected_character(ch))
        }
    }
}

/// The end of a comment whose text starts at `at`, and the column there.
fn skip_comment(s: &Vec<char>, at: usize, column: usize) -> (r: (usize, usize))
    requires
        at <= s@.len(),
    ensures
        r.0 as int == comment_end(s@, at as int, column).0,
        r.1 == comment_end(s@, at as int, column).1,
        at <= r.0 <= s@.len(),
{
    let mut pos = at;
    let mut col = column;
    while pos < s.len() && s[pos] != '\n'
        invariant
            at <= pos <= s@.len(),
            comment_end(s@, pos as int, col) == comment_end(s@, at as int, column),
        decreases s@.len() - pos,
    {
        col = saturating_add(col, utf8_len(s[pos]));
        pos = pos + 1;
    }
    (pos, col)
}

fn lex_error(label: &str, line: usize, column: usize, message: String) -> (r: ParseError)
    ensures
        r.source@ == label@,
        r.line == line,
        r.column == column,
        r.message == message,
{
    ParseError { source: label.to_owned(), line, column, message }
}

proof fn lemma_prepend(a: Seq<(int, int, usize, usize)>, b: Seq<(int, int, usize, usize)>, rest: Result<(Seq<(int, int, usize, usize)>, usize, usize), (usize, usize, Seq<char>)>)
    ensures
        prepend(a, prepend(b, rest)) == prepend(a + b, rest),
{
    match rest {
        Ok((more, line, column)) => {
            assert(a + (b + more) =~= (a + b) + more);
        },
        Err(_) => {},
    }
}

/// Split Bend source text into tokens, skipping whitespace and `#` comments:
/// the tokens and the refusals of `lex_from`, closed by an empty token at the
/// end of the text.
pub fn lex(source: &str, label: &str) -> (r: Result<Vec<Token>, ParseError>)
    ensures
        lexed(source@, label@, r),
{
    let s = chars_of(source);
    let n = s.len();
    let punctuation = punctuation();
    let mut tokens: Vec<Token> = Vec::new();
    let mut pos: usize = 0;
    let mut line: usize = 1;
    let mut column: usize = 1;
    proof {
        assert(spans_of(tokens@) =~= seq![]);
        assert(seq![] + seq![] =~= Seq::<(int, int, usize, usize)>::empty());
        match lex_from(s@, 0, 1, 1) {
            Ok((more, l, c)) => assert(Seq::<(int, int, usize, usize)>::empty() + more =~= more),
            Err(_) => {},
        }
    }
    while pos < n
        invariant
            n == s@.len(),
            s@ == source@,
            pos <= n,
            punctuation@.len() == punctuation_list().len(),
            forall|k: int| 0 <= k < punctuation@.len() ==> (#[trigger] punctuation@[k])@ == punctuation_list()[k],
            forall|k: int| 0 <= k < tokens@.len() ==> {
                &&& (#[trigger] tokens@[k]).start < tokens@[k].end <= pos
                &&& tokens@[k].text@ == s@.subrange(tokens@[k].start as int, tokens@[k].end as int)
            },
            forall|k: int| 0 <= k < tokens@.len() - 1 ==> (#[trigger] tokens@[k]).end <= tokens@[k + 1].start,
            lex_from(s@, 0, 1, 1) == prepend(spans_of(tokens@), lex_from(s@, pos as int, line, column)),
        decreases n - pos,
    {
        let ch = s[pos];
        if is_whitespace(ch) {
            pos = pos + 1;
            if ch == '\n' {
                line = saturating_add(line, 1);
                column = 1;
            } else {
                column = saturating_add(column, 1);
            }
            continue;
        }
        if ch == '#' {
            let (end, col) = skip_comment(&s, pos + 1, saturating_add(column, 1));
            pos = end;
            column = col;
            continue;
        }
        let start = pos;
        match scan_token(&s, pos, &punctuation) {
            Err(message) => {
                return Err(lex_error(label, line, column, message));
            },
            Ok(end) => {
                proof {
                    lemma_token_scan(s@, start as int);
                }
                let text = string_of(vstd::slice::slice_subrange(s.as_slice(), start, end));
                let token = Token { text, line, column, start, end };
                let ghost before = tokens@;
                tokens.push(token);
                proof {
                    let t = (start as int, end as int, line, column);
                    assert(spans_of(tokens@) =~= spans_of(before) + seq![t]);
                    lemma_prepend(spans_of(before), seq![t], lex_from(s@, end as int, line, sat_add(column, end - start)));
                }
                column = saturating_add(column, end - start);
                pos = end;
            },
        }
    }
    let ghost body = tokens@;
    tokens.push(Token { text: String::new(), line, column, start: n, end: n });
    proof {
        assert(tokens@.drop_last() =~= body);
        assert(spans_of(body) + seq![] =~= spans_of(body));
    }
    Ok(tokens)
}


} // verus!
