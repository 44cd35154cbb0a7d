//! The Bend parser: declarations, expressions, bodies and patterns over the
//! tokens of one source, with compile-time templates specialised on demand.
use crate::book::{arrows, AdtDecl, Book, ConstructorDecl, Declaration, DefDecl};
use crate::lexer::{lex, lex_from, refused_as_scanned, ParseError, Token};
use crate::surface::{flatten, Body, Pattern, Row, Variable};
use crate::term::{
    apply, height, nat_term, nat_value, qualify_operators, share, substitute, term, type_head,
    u32_term, within_term_depth, word_term, same_node, Binder, LetBinding, Quant, Term, TermRef,
};
use crate::machine::copy_ids;
use crate::text::{
    chars_of, concat, contains_char, debug_quoted, hex_number, joined, scalar, spec_decimal, split_once, str_eq,
    string_of, utf8_bytes,
};
use std::rc::Rc;
use vstd::prelude::*;

verus! {

/// The most template instances one load may mint.
pub const MAX_SPECIALIZATIONS: usize = 256;
/// The deepest nesting of template instances being parsed.
pub const MAX_SPECIALIZATION_DEPTH: usize = 16;
/// The longest key that identifies a template instance.
pub const MAX_TEMPLATE_KEY_BYTES: usize = 2048;
/// The deepest nesting of expressions, bodies and `do` blocks.
pub const PARSE_DEPTH: usize = 64;
/// The highest term an expression may produce.
pub const TERM_DEPTH: usize = 256;
/// The longest telescope, argument list or import list.
pub const LIST_LIMIT: usize = 128;

/// Where a source came from: an expression or book on its own, a file in a
/// directory, or the bundled library.
pub enum SourceOrigin {
    Standalone,
    Local(String),
    Bundled,
}

impl SourceOrigin {
    pub fn copy(&self) -> (r: SourceOrigin)
        ensures
            r == *self,
    {
        match self {
            SourceOrigin::Standalone => SourceOrigin::Standalone,
            SourceOrigin::Local(d) => SourceOrigin::Local(d.clone()),
            SourceOrigin::Bundled => SourceOrigin::Bundled,
        }
    }
}

/// The language of a foreign import.
#[derive(Clone, Copy, Debug, PartialEq, Eq, Structural)]
pub enum ForeignTarget {
    C,
    JavaScript,
}

/// One foreign file that implements a definition.
pub struct ForeignImport {
    pub target: ForeignTarget,
    pub path: String,
}

/// A console operation of the bundled library.
#[derive(Clone, Copy, Debug, PartialEq, Eq, Structural)]
pub enum BuiltinForeign {
    Print,
    Write,
    PrintErr,
}

/// The execution contract of a foreign definition.
pub struct ForeignDefinition {
    pub imports: Vec<ForeignImport>,
    pub local_symbol: String,
    pub declared_arity: usize,
    pub parameters: Vec<String>,
    pub builtin: Option<BuiltinForeign>,
}

/// How the host reads decimal floating-point text such as `1.5e3`: the bits
/// of the nearest `f32` (infinite where the text is too large), or the
/// host's own error text.
pub trait FloatSyntax {
    fn parse_f32(&self, text: &str) -> Result<u32, String>;
}

/// Whether `f32` bits denote an infinity or a NaN.
pub open spec fn spec_non_finite(bits: u32) -> bool {
    bits & 0x7f80_0000 == 0x7f80_0000
}

pub fn non_finite(bits: u32) -> (r: bool)
    ensures
        r == spec_non_finite(bits),
{
    bits & 0x7f80_0000 == 0x7f80_0000
}

/// A definition whose leading `~` parameters are filled in at each use.
pub struct Template {
    pub tokens: Vec<Token>,
    pub at: usize,
    pub label: String,
    pub namespace: String,
    pub aliases: Vec<(String, String)>,
    pub origin: SourceOrigin,
    pub unsafe_: bool,
    pub instances: Vec<(String, String)>,
}

/// Every template of a load, how many instances were minted, and how many
/// are being parsed right now.
pub struct Templates {
    pub declarations: Vec<(String, Template)>,
    pub instances: usize,
    pub active: usize,
}

/// A token list that a parser can walk: it ends with the empty end token.
pub open spec fn tokens_ok(ts: Seq<Token>) -> bool {
    ts.len() >= 1 && ts.last().text@.len() == 0
}

impl Template {
    pub open spec fn wf(&self) -> bool {
        tokens_ok(self.tokens@) && self.at < self.tokens@.len()
    }
}

impl Templates {
    pub open spec fn wf(&self) -> bool {
        forall|k: int| 0 <= k < self.declarations@.len() ==> (#[trigger] self.declarations@[k]).1.wf()
    }

    pub fn new() -> (r: Templates)
        ensures
            r.wf(),
            r.active == 0,
            r.instances == 0,
            r.declarations@.len() == 0,
    {
        Templates { declarations: Vec::new(), instances: 0, active: 0 }
    }
}

/// A copy of a token list.
pub fn copy_tokens(ts: &[Token]) -> (r: Vec<Token>)
    ensures
        r@ == ts@,
{
    let mut out: Vec<Token> = Vec::new();
    let mut k: usize = 0;
    while k < ts.len()
        invariant
            k <= ts@.len(),
            out@ == ts@.take(k as int),
        decreases ts@.len() - k,
    {
        out.push(ts[k].copy());
        proof {
            assert(ts@.take(k + 1) =~= ts@.take(k as int).push(ts@[k as int]));
        }
        k = k + 1;
    }
    proof {
        assert(ts@.take(k as int) =~= ts@);
    }
    out
}

/// A copy of a list of string pairs.
pub fn copy_pairs(v: &Vec<(String, String)>) -> (r: Vec<(String, String)>)
    ensures
        r@ == v@,
{
    let mut out: Vec<(String, String)> = Vec::new();
    let mut k: usize = 0;
    while k < v.len()
        invariant
            k <= v@.len(),
            out@ == v@.take(k as int),
        decreases v@.len() - k,
    {
        out.push((v[k].0.clone(), v[k].1.clone()));
        proof {
            assert(v@.take(k + 1) =~= v@.take(k as int).push(v@[k as int]));
        }
        k = k + 1;
    }
    proof {
        assert(v@.take(k as int) =~= v@);
    }
    out
}

/// The value paired with the first key that reads `key`.
pub open spec fn spec_lookup(v: Seq<(String, String)>, key: Seq<char>) -> Option<String>
    decreases v.len(),
{
    if v.len() == 0 {
        None
    } else if v[0].0@ == key {
        Some(v[0].1)
    } else {
        spec_lookup(v.skip(1), key)
    }
}

pub fn lookup(v: &Vec<(String, String)>, key: &str) -> (r: Option<String>)
    ensures
        r == spec_lookup(v@, key@),
{
    let mut k: usize = 0;
    proof {
        assert(v@.skip(0) =~= v@);
    }
    while k < v.len()
        invariant
            k <= v@.len(),
            spec_lookup(v@, key@) == spec_lookup(v@.skip(k as int), key@),
        decreases v@.len() - k,
    {
        proof {
            assert(v@.skip(k as int).skip(1) =~= v@.skip(k + 1));
        }
        if str_eq(v[k].0.as_str(), key) {
            return Some(v[k].1.clone());
        }
        k = k + 1;
    }
    None
}

/// Words that cannot name a binder or a declaration.
pub open spec fn spec_keyword(s: Seq<char>) -> bool {
    s == "def"@ || s == "type"@ || s == "law"@ || s == "match"@ || s == "case"@ || s == "do"@
        || s == "return"@ || s == "for"@ || s == "exs"@ || s == "where"@ || s == "is"@
        || s == "import"@ || s == "Type"@ || s == "Data"@ || s == "Kind"@ || s == "Quant"@
}

pub fn is_keyword(s: &str) -> (r: bool)
    ensures
        r == spec_keyword(s@),
{
    str_eq(s, "def") || str_eq(s, "type") || str_eq(s, "law") || str_eq(s, "match") || str_eq(s, "case")
        || str_eq(s, "do") || str_eq(s, "return") || str_eq(s, "for") || str_eq(s, "exs") || str_eq(
        s,
        "where",
    ) || str_eq(s, "is") || str_eq(s, "import") || str_eq(s, "Type") || str_eq(s, "Data") || str_eq(
        s,
        "Kind",
    ) || str_eq(s, "Quant")
}

/// Whether a token can start a name: an ASCII letter or `_`.
pub open spec fn spec_name_start(s: Seq<char>) -> bool {
    s.len() > 0 && (('a' <= s[0] <= 'z') || ('A' <= s[0] <= 'Z') || s[0] == '_')
}

pub fn name_start(s: &str) -> (r: bool)
    ensures
        r == spec_name_start(s@),
{
    let cs = chars_of(s);
    cs.len() > 0 && (('a' <= cs[0] && cs[0] <= 'z') || ('A' <= cs[0] && cs[0] <= 'Z') || cs[0] == '_')
}

/// Whether a token starts with an ASCII digit.
pub open spec fn spec_digit_start(s: Seq<char>) -> bool {
    s.len() > 0 && '0' <= s[0] <= '9'
}

/// A token that starts with a digit is none of the words and marks that
/// open other atoms.
proof fn lemma_digit_start_is_no_keyword(s: Seq<char>)
    requires
        spec_digit_start(s),
    ensures
        s != "~"@, s != "Type"@, s != "Data"@, s != "Quant"@, s != "Kind"@, s != "do"@,
        s != "@"@, s != "&"@, s != "{"@, s != "("@, s != "\\"@, s != "%"@, s != "?"@,
        s != "["@, s != "+"@, s != ">"@, s != ">>"@,
{
    reveal_strlit("~");
    reveal_strlit("Type");
    reveal_strlit("Data");
    reveal_strlit("Quant");
    reveal_strlit("Kind");
    reveal_strlit("do");
    reveal_strlit("@");
    reveal_strlit("&");
    reveal_strlit("{");
    reveal_strlit("(");
    reveal_strlit("\\");
    reveal_strlit("%");
    reveal_strlit("?");
    reveal_strlit("[");
    reveal_strlit("+");
    reveal_strlit(">");
    reveal_strlit(">>");
    assert(s[0] != ">>"@[0]);
    assert(s[0] != "~"@[0] && s[0] != "Type"@[0] && s[0] != "Data"@[0] && s[0] != "Quant"@[0]);
    assert(s[0] != "Kind"@[0] && s[0] != "do"@[0] && s[0] != "@"@[0] && s[0] != "&"@[0]);
    assert(s[0] != "{"@[0] && s[0] != "("@[0] && s[0] != "\\"@[0] && s[0] != "%"@[0]);
    assert(s[0] != "?"@[0] && s[0] != "["@[0] && s[0] != "+"@[0] && s[0] != ">"@[0]);
}

/// The empty end token is no operator and opens no postfix form.
proof fn lemma_end_is_no_operator(s: Seq<char>)
    requires
        s.len() == 0,
    ensures
        operator_table(s) is None,
        s != "!"@, s != "("@, s != "["@, s != "<"@, s != "=>"@, s != "->"@,
{
    reveal_strlit("%");
    reveal_strlit("&");
    reveal_strlit("&&");
    reveal_strlit("*");
    reveal_strlit("+");
    reveal_strlit("++");
    reveal_strlit("-");
    reveal_strlit(".&.");
    reveal_strlit(".^.");
    reveal_strlit(".|.");
    reveal_strlit("/");
    reveal_strlit("<&>");
    reveal_strlit("<<");
    reveal_strlit("<=");
    reveal_strlit("<>");
    reveal_strlit(">");
    reveal_strlit(">=");
    reveal_strlit(">>");
    reveal_strlit("|");
    reveal_strlit("||");
    reveal_strlit("!");
    reveal_strlit("(");
    reveal_strlit("[");
    reveal_strlit("<");
    reveal_strlit("=>");
    reveal_strlit("->");
    assert("%"@.len() > 0);
    assert("&"@.len() > 0);
    assert("&&"@.len() > 0);
    assert("*"@.len() > 0);
    assert("+"@.len() > 0);
    assert("++"@.len() > 0);
    assert("-"@.len() > 0);
    assert(".&."@.len() > 0);
    assert(".^."@.len() > 0);
    assert(".|."@.len() > 0);
    assert("/"@.len() > 0);
    assert("<&>"@.len() > 0);
    assert("<<"@.len() > 0);
    assert("<="@.len() > 0);
    assert("<>"@.len() > 0);
    assert(">"@.len() > 0);
    assert(">="@.len() > 0);
    assert(">>"@.len() > 0);
    assert("|"@.len() > 0);
    assert("||"@.len() > 0);
    assert("!"@.len() > 0);
    assert("("@.len() > 0);
    assert("["@.len() > 0);
    assert("<"@.len() > 0);
    assert("=>"@.len() > 0);
    assert("->"@.len() > 0);
}

/// A successor chain of `n` constructors is `n` high.
proof fn lemma_succ_chain_height(t: TermRef, n: nat)
    requires
        succ_chain(*t, n),
    ensures
        height(*t) == n,
    decreases n,
{
    if n > 0 {
        if let Term::Ctr { args, .. } = *t {
            lemma_succ_chain_height(args@[0], (n - 1) as nat);
            assert(args@.drop_last() =~= Seq::<TermRef>::empty());
            assert(crate::term::heights(args@.drop_last()) == 0);
            assert(args@.last() == args@[0]);
            assert(crate::term::heights(args@) == height(*args@[0]));
        }
    }
}

/// Qualifying operators keeps a successor chain.
proof fn lemma_qualify_keeps_succ_chain(t: TermRef, ns: Seq<char>, q: TermRef, n: nat)
    requires
        succ_chain(*t, n),
        crate::term::qualify_rel(*t, ns, *q),
    ensures
        succ_chain(*q, n),
    decreases n,
{
    if n > 0 {
        if let Term::Ctr { args, .. } = *t {
            if let Term::Ctr { args: qa, .. } = *q {
                assert(crate::term::qualify_rel(*args@[0], ns, *qa@[0]));
                lemma_qualify_keeps_succ_chain(args@[0], ns, qa@[0], (n - 1) as nat);
            }
        }
    }
}

/// The value of a source text that scans to exactly one token, a Nat
/// literal of at most 128.
pub open spec fn lone_nat_literal(s: Seq<char>) -> Option<nat> {
    match crate::lexer::lex_from(s, 0, 1, 1) {
        Ok((spans, _, _)) => {
            let text = s.subrange(spans[0].0, spans[0].1);
            if spans.len() == 1 && nat_text(text) && crate::text::digits_value(text.drop_last()) <= LIST_LIMIT {
                Some(crate::text::digits_value(text.drop_last()))
            } else {
                None
            }
        },
        Err(_) => None,
    }
}

/// A word literal from bit `i` on is `32 - i` high.
proof fn lemma_word_height(t: TermRef, v: u32, i: nat)
    requires
        crate::term::is_word(*t, v, i),
        i <= 32,
    ensures
        height(*t) == 32 - i,
    decreases 32 - i,
{
    if i < 32 {
        if let Term::Ctr { args, .. } = *t {
            lemma_word_height(args@[1], v, i + 1);
            assert(height(*args@[0]) == 0);
            let first = args@.drop_last();
            assert(first.drop_last() =~= Seq::<TermRef>::empty());
            assert(crate::term::heights(first.drop_last()) == 0);
            assert(first.last() == args@[0]);
            assert(crate::term::heights(first) == 0);
            assert(args@.last() == args@[1]);
            assert(crate::term::heights(args@) == 32 - (i + 1));
        }
    }
}

/// A `U32` literal is 33 high.
proof fn lemma_u32_height(t: TermRef, v: u32)
    requires
        crate::term::is_u32(*t, v),
    ensures
        height(*t) == 33,
{
    if let Term::Ctr { args, .. } = *t {
        lemma_word_height(args@[0], v, 0);
        assert(args@.drop_last() =~= Seq::<TermRef>::empty());
        assert(crate::term::heights(args@.drop_last()) == 0);
        assert(args@.last() == args@[0]);
        assert(crate::term::heights(args@) == 32);
    }
}

/// Qualifying operators keeps a word literal.
proof fn lemma_qualify_keeps_word(t: TermRef, ns: Seq<char>, q: TermRef, v: u32, i: nat)
    requires
        crate::term::is_word(*t, v, i),
        crate::term::qualify_rel(*t, ns, *q),
    ensures
        crate::term::is_word(*q, v, i),
    decreases 32 - i,
{
    if i < 32 {
        if let Term::Ctr { args, .. } = *t {
            if let Term::Ctr { args: qa, .. } = *q {
                assert(crate::term::qualify_rel(*args@[0], ns, *qa@[0]));
                assert(crate::term::qualify_rel(*args@[1], ns, *qa@[1]));
                lemma_qualify_keeps_word(args@[1], ns, qa@[1], v, i + 1);
            }
        }
    }
}

/// Qualifying operators keeps a `U32` literal.
proof fn lemma_qualify_keeps_u32(t: TermRef, ns: Seq<char>, q: TermRef, v: u32)
    requires
        crate::term::is_u32(*t, v),
        crate::term::qualify_rel(*t, ns, *q),
    ensures
        crate::term::is_u32(*q, v),
{
    if let Term::Ctr { args, .. } = *t {
        if let Term::Ctr { args: qa, .. } = *q {
            assert(crate::term::qualify_rel(*args@[0], ns, *qa@[0]));
            lemma_qualify_keeps_word(args@[0], ns, qa@[0], v, 0);
        }
    }
}

/// The value of a source text that scans to exactly one token, a decimal
/// numeral.
pub open spec fn lone_numeral_literal(s: Seq<char>) -> Option<nat> {
    match crate::lexer::lex_from(s, 0, 1, 1) {
        Ok((spans, _, _)) => {
            let text = s.subrange(spans[0].0, spans[0].1);
            if spans.len() == 1 && spec_digit_start(text) && crate::text::all_digits(text) {
                Some(crate::text::digits_value(text))
            } else {
                None
            }
        },
        Err(_) => None,
    }
}

/// A token that starts with a digit is no operator and opens no postfix form.
proof fn lemma_digit_is_no_operator(s: Seq<char>)
    requires
        spec_digit_start(s),
    ensures
        operator_table(s) is None,
        s != "!"@, s != "("@, s != "["@, s != "<"@, s != "=>"@, s != "->"@,
{
    reveal_strlit("%");
    reveal_strlit("&");
    reveal_strlit("&&");
    reveal_strlit("*");
    reveal_strlit("+");
    reveal_strlit("++");
    reveal_strlit("-");
    reveal_strlit(".&.");
    reveal_strlit(".^.");
    reveal_strlit(".|.");
    reveal_strlit("/");
    reveal_strlit("<&>");
    reveal_strlit("<<");
    reveal_strlit("<=");
    reveal_strlit("<>");
    reveal_strlit(">");
    reveal_strlit(">=");
    reveal_strlit(">>");
    reveal_strlit("|");
    reveal_strlit("||");
    reveal_strlit("!");
    reveal_strlit("(");
    reveal_strlit("[");
    reveal_strlit("<");
    reveal_strlit("=>");
    reveal_strlit("->");
    assert(s[0] != "%"@[0]);
    assert(s[0] != "&"@[0]);
    assert(s[0] != "&&"@[0]);
    assert(s[0] != "*"@[0]);
    assert(s[0] != "+"@[0]);
    assert(s[0] != "++"@[0]);
    assert(s[0] != "-"@[0]);
    assert(s[0] != ".&."@[0]);
    assert(s[0] != ".^."@[0]);
    assert(s[0] != ".|."@[0]);
    assert(s[0] != "/"@[0]);
    assert(s[0] != "<&>"@[0]);
    assert(s[0] != "<<"@[0]);
    assert(s[0] != "<="@[0]);
    assert(s[0] != "<>"@[0]);
    assert(s[0] != ">"@[0]);
    assert(s[0] != ">="@[0]);
    assert(s[0] != ">>"@[0]);
    assert(s[0] != "|"@[0]);
    assert(s[0] != "||"@[0]);
    assert(s[0] != "!"@[0]);
    assert(s[0] != "("@[0]);
    assert(s[0] != "["@[0]);
    assert(s[0] != "<"@[0]);
    assert(s[0] != "=>"@[0]);
    assert(s[0] != "->"@[0]);
}

/// The source text scans to a decimal numeral of at most `u32::MAX`
/// followed by a token that starts with a digit.
pub open spec fn numeral_then_digit_source(s: Seq<char>) -> bool {
    match crate::lexer::lex_from(s, 0, 1, 1) {
        Ok((spans, _, _)) => {
            let first = s.subrange(spans[0].0, spans[0].1);
            let second = s.subrange(spans[1].0, spans[1].1);
            &&& spans.len() >= 2
            &&& spec_digit_start(first)
            &&& crate::text::all_digits(first)
            &&& crate::text::digits_value(first) <= u32::MAX
            &&& spec_digit_start(second)
        },
        Err(_) => false,
    }
}

/// A decimal numeral token of at most `u32::MAX`.
pub open spec fn numeral_token(s: Seq<char>) -> bool {
    spec_digit_start(s) && crate::text::all_digits(s) && crate::text::digits_value(s) <= u32::MAX
}

/// One of the left-associative arithmetic operators `+`, `-`, `*`, `/`.
pub open spec fn arithmetic_operator(s: Seq<char>) -> bool {
    s == "+"@ || s == "-"@ || s == "*"@ || s == "/"@
}

/// The method a binary operator calls.
pub open spec fn operator_method(op: Seq<char>) -> Seq<char> {
    match operator_table(op) {
        Some((_, _, m)) => m,
        None => seq![],
    }
}

/// A binary operation `m l r`: the method named `m` applied to the left
/// operand, then the right.
pub open spec fn binary_parts(t: Term) -> Option<(Seq<char>, TermRef, TermRef)> {
    match t {
        Term::App(f, b) => match *f {
            Term::App(h, a) => match *h {
                Term::Ref(n) => Some((n@, a, b)),
                _ => None,
            },
            _ => None,
        },
        _ => None,
    }
}

/// `t` is `(x0 op x1) op x2` for the method `m` of `op`, grouped to the
/// left, where `x0`, `x1`, `x2` are the `U32` literals of `v0`, `v1`, `v2`.
pub open spec fn left_chain(t: Term, m: Seq<char>, v0: u32, v1: u32, v2: u32) -> bool {
    binary_parts(t) matches Some((m1, l, r)) && m1 == m && crate::term::is_u32(*r, v2) && (binary_parts(*l) matches Some((
        m2,
        l2,
        r2,
    )) && m2 == m && crate::term::is_u32(*l2, v0) && crate::term::is_u32(*r2, v1))
}

/// A binary operation is at most two above the higher of its operands.
proof fn lemma_binary_height(t: TermRef)
    requires
        binary_parts(*t) is Some,
    ensures
        height(*t) <= 2 + height(*binary_parts(*t)->Some_0.1) + height(*binary_parts(*t)->Some_0.2),
{
    if let Term::App(f, b) = *t {
        if let Term::App(h, a) = *f {
            assert(height(*h) == 0);
            assert(height(*f) <= 1 + height(*a));
            assert(height(*t) <= 1 + height(*f) + height(*b));
        }
    }
}

/// A left-grouped chain of two operations on `U32` literals is 37 high at most.
proof fn lemma_left_chain_height(t: TermRef, m: Seq<char>, v0: u32, v1: u32, v2: u32)
    requires
        left_chain(*t, m, v0, v1, v2),
    ensures
        height(*t) <= 256,
{
    if let Term::App(f, b) = *t {
        if let Term::App(h, a) = *f {
            lemma_u32_height(b, v2);
            lemma_binary_height(t);
            if let Term::App(f2, b2) = *a {
                if let Term::App(h2, a2) = *f2 {
                    lemma_u32_height(b2, v1);
                    lemma_u32_height(a2, v0);
                    lemma_binary_height(a);
                }
            }
        }
    }
}

/// Qualifying operators keeps a left-grouped chain and prefixes its method.
proof fn lemma_qualify_keeps_left_chain(t: TermRef, ns: Seq<char>, q: TermRef, m: Seq<char>, v0: u32, v1: u32, v2: u32)
    requires
        left_chain(*t, m, v0, v1, v2),
        crate::term::qualify_rel(*t, ns, *q),
        m.len() > 0 && m[0] == '.',
    ensures
        left_chain(*q, ns + m, v0, v1, v2),
{
    if let Term::App(f, b) = *t {
        assert(crate::term::qualify_rel(*t, ns, *q));
        if let Term::App(qf, qb) = *q {
            assert(crate::term::qualify_rel(*f, ns, *qf));
            assert(crate::term::qualify_rel(*b, ns, *qb));
            if let Term::App(h, a) = *f {
                if let Term::App(qh, qa) = *qf {
                    assert(crate::term::qualify_rel(*h, ns, *qh));
                    assert(crate::term::qualify_rel(*a, ns, *qa));
                    lemma_qualify_keeps_u32(b, ns, qb, v2);
                    if let Term::App(f2, b2) = *a {
                        if let Term::App(qf2, qb2) = *qa {
                            assert(crate::term::qualify_rel(*f2, ns, *qf2));
                            assert(crate::term::qualify_rel(*b2, ns, *qb2));
                            if let Term::App(h2, a2) = *f2 {
                                if let Term::App(qh2, qa2) = *qf2 {
                                    assert(crate::term::qualify_rel(*h2, ns, *qh2));
                                    assert(crate::term::qualify_rel(*a2, ns, *qa2));
                                    lemma_qualify_keeps_u32(b2, ns, qb2, v1);
                                    lemma_qualify_keeps_u32(a2, ns, qa2, v0);
                                }
                            }
                        }
                    }
                }
            }
        }
    }
}

/// The value of a source text that scans to `x0 op x1 op x2`: three decimal
/// numerals of at most `u32::MAX` joined by one arithmetic operator
/// (`+`, `-`, `*` or `/`) twice; the operator and the three values.
pub open spec fn numeral_chain_source(s: Seq<char>) -> Option<(Seq<char>, u32, u32, u32)> {
    match crate::lexer::lex_from(s, 0, 1, 1) {
        Ok((spans, _, _)) => {
            let t = |k: int| s.subrange(spans[k].0, spans[k].1);
            if spans.len() == 5 && numeral_token(t(0)) && numeral_token(t(2)) && numeral_token(t(4))
                && arithmetic_operator(t(1)) && t(3) == t(1) {
                Some((
                    t(1),
                    crate::text::digits_value(t(0)) as u32,
                    crate::text::digits_value(t(2)) as u32,
                    crate::text::digits_value(t(4)) as u32,
                ))
            } else {
                None
            }
        },
        Err(_) => None,
    }
}

/// A Nat literal: decimal digits, then `n`.
pub open spec fn nat_text(s: Seq<char>) -> bool {
    s.len() >= 2 && s.last() == 'n' && crate::text::all_digits(s.drop_last())
}

/// `n` successor constructors of one argument each around a constructor of
/// no arguments.
pub open spec fn succ_chain(t: Term, n: nat) -> bool
    decreases n,
{
    match t {
        Term::Ctr { args, .. } => if n == 0 {
            args@.len() == 0
        } else {
            args@.len() == 1 && succ_chain(*args@[0], (n - 1) as nat)
        },
        _ => false,
    }
}

pub fn digit_start(s: &str) -> (r: bool)
    ensures
        r == spec_digit_start(s@),
{
    let cs = chars_of(s);
    cs.len() > 0 && '0' <= cs[0] && cs[0] <= '9'
}

/// `prefix` followed by `s`.
fn prefixed(prefix: &str, s: &str) -> (r: String)
    ensures
        r@ == prefix@ + s@,
{
    concat(prefix, s)
}

/// `message` followed by the quoted form of `s`.
fn quoted_after(message: &str, s: &str) -> (r: String)
    ensures
        r@ == message@ + debug_text_of(s@),
{
    concat(message, debug_quoted(s).as_str())
}

pub open spec fn debug_text_of(s: Seq<char>) -> Seq<char> {
    crate::text::debug_text(s)
}

/// A parser over the tokens of one source, adding to a shared book.
pub struct Parser<'f> {
    pub tokens: Vec<Token>,
    pub at: usize,
    pub label: String,
    pub namespace: String,
    pub aliases: Vec<(String, String)>,
    pub scope: Vec<Variable>,
    pub fresh: usize,
    pub book: Book,
    pub depth: usize,
    pub reusable: Vec<(Variable, TermRef)>,
    pub reusable_markers: Vec<usize>,
    pub templates: Templates,
    pub instance_name: Option<String>,
    pub instance_arguments: Vec<TermRef>,
    pub compile_bindings: Vec<(usize, TermRef)>,
    pub foreign: Option<Vec<(String, ForeignDefinition)>>,
    pub constructor_tags: Option<Vec<(String, String)>>,
    pub origin: SourceOrigin,
    pub floats: &'f dyn FloatSyntax,
}

impl<'f> Parser<'f> {
    /// The parser stands on a token, the list ends with the empty end token,
    /// and the nesting counters are within their limits.
    pub open spec fn wf(&self) -> bool {
        &&& tokens_ok(self.tokens@)
        &&& self.at < self.tokens@.len()
        &&& self.depth <= PARSE_DEPTH
        &&& self.templates.active <= MAX_SPECIALIZATION_DEPTH
        &&& self.templates.wf()
    }

    /// `self` is a later state of `old`: still well formed, no token was
    /// given back, and the nesting counters are as they were.
    pub open spec fn follows(&self, old: &Parser<'f>) -> bool {
        &&& self.wf()
        &&& self.at >= old.at
        &&& self.depth == old.depth
        &&& self.templates.active == old.templates.active
        &&& self.fresh >= old.fresh
        &&& self.label == old.label
        &&& self.namespace == old.namespace
        &&& self.remaining() <= old.remaining()
        &&& self.book.declarations@.len() >= old.book.declarations@.len()
    }

    /// A measure of the input left: two per token from the current one on,
    /// and one more while the current token is a `>>` that may be split.
    pub open spec fn remaining(&self) -> int {
        2 * (self.tokens@.len() - self.at) + if self.text() == ">>"@ { 1int } else { 0int }
    }

    /// `self` follows `old` and has consumed at least one token.
    pub open spec fn progressed(&self, old: &Parser<'f>) -> bool {
        self.follows(old) && self.remaining() < old.remaining()
    }

    pub open spec fn text(&self) -> Seq<char> {
        self.tokens@[self.at as int].text@
    }

    /// `take(s)` consumes the current token: it reads `s` (or is a `>>`
    /// whose first `>` is asked for) and it is not the end token.
    /// The token after the current one is a `+` that starts where the current
    /// one ends, and it is not the end token.
    pub open spec fn plus_follows(&self) -> bool {
        &&& self.at + 2 < self.tokens@.len()
        &&& self.tokens@[self.at as int].end == self.tokens@[self.at + 1].start
        &&& self.tokens@[self.at + 1].text@ == "+"@
    }

    /// The current token is a Nat literal of at most 128 and the only token
    /// before the end.
    pub open spec fn lone_nat(&self) -> bool {
        &&& nat_text(self.text())
        &&& crate::text::digits_value(self.text().drop_last()) <= LIST_LIMIT
        &&& self.at + 2 == self.tokens@.len()
    }

    /// The current token is a decimal numeral and the only token before the end.
    pub open spec fn lone_numeral(&self) -> bool {
        &&& spec_digit_start(self.text())
        &&& crate::text::all_digits(self.text())
        &&& self.at + 2 == self.tokens@.len()
    }

    /// The current token is a decimal numeral of at most `u32::MAX`, and the
    /// next token, not the end, starts with a digit.
    pub open spec fn numeral_then_digit(&self) -> bool {
        &&& spec_digit_start(self.text())
        &&& crate::text::all_digits(self.text())
        &&& crate::text::digits_value(self.text()) <= u32::MAX
        &&& self.at + 2 < self.tokens@.len()
        &&& spec_digit_start(self.tokens@[self.at + 1].text@)
    }

    /// The current token is a decimal numeral of at most `u32::MAX`, and the
    /// next token, not the end, is a binary operator that binds looser than
    /// `min`.
    pub open spec fn numeral_then_looser(&self, min: u8) -> bool {
        &&& spec_digit_start(self.text())
        &&& crate::text::all_digits(self.text())
        &&& crate::text::digits_value(self.text()) <= u32::MAX
        &&& self.at + 2 < self.tokens@.len()
        &&& operator_table(self.tokens@[self.at + 1].text@) matches Some((p, _, _)) && p < min
    }

    /// From the current token on: a numeral, an arithmetic operator, a
    /// numeral, the same operator, a numeral, and the end.
    pub open spec fn numeral_chain(&self) -> bool {
        let ts = self.tokens@;
        let a = self.at as int;
        &&& a + 6 == ts.len()
        &&& numeral_token(ts[a].text@) && numeral_token(ts[a + 2].text@) && numeral_token(ts[a + 4].text@)
        &&& arithmetic_operator(ts[a + 1].text@)
        &&& ts[a + 3].text@ == ts[a + 1].text@
    }

    /// The value of the numeral `k` tokens after the current one.
    pub open spec fn value_at(&self, k: int) -> u32 {
        crate::text::digits_value(self.tokens@[self.at + k].text@) as u32
    }

    pub open spec fn takes(&self, s: Seq<char>) -> bool {
        self.at < self.tokens@.len() - 1 && (self.text() == s || (s == ">"@ && self.text() == ">>"@))
    }

    fn current(&self) -> (r: &Token)
        requires
            self.wf(),
        ensures
            *r == self.tokens@[self.at as int],
    {
        &self.tokens[self.at]
    }

    fn is(&self, s: &str) -> (r: bool)
        requires
            self.wf(),
        ensures
            r == (self.text() == s@),
    {
        str_eq(self.tokens[self.at].text.as_str(), s)
    }

    /// Whether the parser is at the end of its tokens.
    fn at_end(&self) -> (r: bool)
        requires
            self.wf(),
        ensures
            r == (self.text().len() == 0),
    {
        self.tokens[self.at].text.as_str().is_empty()
    }

    /// The line of the token before the current one equals the current line.
    fn same_line(&self) -> (r: bool)
        requires
            self.wf(),
        ensures
            r == (self.at > 0 && self.tokens@[self.at - 1].line == self.tokens@[self.at as int].line),
    {
        self.at > 0 && self.tokens[self.at - 1].line == self.tokens[self.at].line
    }

    /// The token before the current one ends where the current one starts.
    fn glued(&self) -> (r: bool)
        requires
            self.wf(),
        ensures
            r == (self.at > 0 && self.tokens@[self.at - 1].end == self.tokens@[self.at as int].start),
    {
        self.at > 0 && self.tokens[self.at - 1].end == self.tokens[self.at].start
    }

    /// The next token, if any, starts where the current one ends.
    fn next_glued(&self) -> (r: bool)
        requires
            self.wf(),
        ensures
            r ==> self.at < self.tokens@.len() - 1,
            r == (self.at < self.tokens@.len() - 1 && self.tokens@[self.at + 1].start == self.tokens@[self.at as int].end),
    {
        self.at < self.tokens.len() - 1 && self.tokens[self.at + 1].start == self.tokens[self.at].end
    }

    /// The next token, if any, can start a name.
    fn next_starts_name(&self) -> (r: bool)
        requires
            self.wf(),
        ensures
            r ==> self.at < self.tokens@.len() - 1,
            r == (self.at < self.tokens@.len() - 1 && spec_name_start(self.tokens@[self.at + 1].text@)),
    {
        self.at < self.tokens.len() - 1 && name_start(self.tokens[self.at + 1].text.as_str())
    }

    /// Consume the current token if it reads `s`. A `>>` token is split so
    /// that taking `>` leaves the second `>` for an enclosing closer.
    fn take(&mut self, s: &str) -> (r: bool)
        requires
            old(self).wf(),
        ensures
            final(self).follows(old(self)),
            final(self).fresh == old(self).fresh,
            final(self).book == old(self).book,
            final(self).scope == old(self).scope,
            !r ==> final(self).at == old(self).at,
            !r ==> final(self).tokens == old(self).tokens,
            s@ != ">"@ ==> final(self).tokens == old(self).tokens,
            r ==> final(self).progressed(old(self)),
            final(self).book == old(self).book,
            r == old(self).takes(s@),
    {
        proof {
            reveal_strlit(">");
            reveal_strlit(">>");
        }
        if str_eq(s, ">") && self.is(">>") && self.at < self.tokens.len() - 1 {
            let mut remainder = self.tokens[self.at].copy();
            remainder.text = ">".to_owned();
            remainder.start = saturating_add(remainder.start, 1);
            remainder.column = saturating_add(remainder.column, 1);
            let at = self.at;
            let mut first = self.tokens[at].copy();
            first.text = ">".to_owned();
            first.end = if first.end > 0 { first.end - 1 } else { 0 };
            self.tokens.set(at, first);
            let ghost rest = remainder;
            self.tokens.insert(at + 1, remainder);
            self.at = at + 1;
            proof {
                reveal_strlit(">");
                reveal_strlit(">>");
                assert(self.tokens@[at + 1] == rest);
                assert(rest.text@ == ">"@);
                assert(">"@.len() != ">>"@.len());
                assert(self.text() != ">>"@);
            }
            return true;
        }
        if self.is(s) && self.at < self.tokens.len() - 1 {
            self.at = self.at + 1;
            true
        } else {
            false
        }
    }

    /// Consume and return the current token's text; the end token stays.
    fn bump(&mut self) -> (r: String)
        requires
            old(self).wf(),
        ensures
            final(self).follows(old(self)),
            final(self).fresh == old(self).fresh,
            final(self).book == old(self).book,
            final(self).scope == old(self).scope,
            final(self).tokens == old(self).tokens,
            r@ == old(self).text(),
            r@.len() > 0 ==> final(self).at == old(self).at + 1,
    {
        let s = self.tokens[self.at].text.clone();
        if !s.as_str().is_empty() && self.at < self.tokens.len() - 1 {
            self.at = self.at + 1;
        }
        s
    }

    /// A failure at the current token.
    fn error(&self, message: String) -> (r: ParseError)
        requires
            self.wf(),
        ensures
            r.source == self.label,
            r.line == self.tokens@[self.at as int].line,
            r.column == self.tokens@[self.at as int].column,
            r.message == message,
    {
        ParseError {
            source: self.label.clone(),
            line: self.tokens[self.at].line,
            column: self.tokens[self.at].column,
            message,
        }
    }

    fn fail<T>(&self, message: &str) -> (r: Result<T, ParseError>)
        requires
            self.wf(),
        ensures
            r matches Err(e) && e.source == self.label && e.message@ == message@,
    {
        Err(self.error(message.to_owned()))
    }

    fn expect(&mut self, s: &str) -> (r: Result<(), ParseError>)
        requires
            old(self).wf(),
        ensures
            final(self).follows(old(self)),
            final(self).fresh == old(self).fresh,
            final(self).book == old(self).book,
            final(self).scope == old(self).scope,
            r matches Err(e) ==> e.source == old(self).label,
            r is Ok <==> old(self).takes(s@),
            r is Ok ==> final(self).progressed(old(self)),
            r is Err ==> final(self).at == old(self).at,
    {
        if self.take(s) {
            Ok(())
        } else {
            let found = debug_quoted(self.tokens[self.at].text.as_str());
            let message = concat(concat(quoted_after("expected ", s).as_str(), ", found ").as_str(), found.as_str());
            Err(self.error(message))
        }
    }

    fn name(&mut self) -> (r: Result<String, ParseError>)
        requires
            old(self).wf(),
        ensures
            final(self).follows(old(self)),
            final(self).fresh == old(self).fresh,
            final(self).book == old(self).book,
            final(self).scope == old(self).scope,
            r matches Ok(n) ==> spec_name_start(n@) && !spec_keyword(n@),
            r matches Err(e) ==> e.source == old(self).label,
            r is Ok ==> final(self).progressed(old(self)),
    {
        let ok = {
            let s = self.tokens[self.at].text.as_str();
            name_start(s) && !is_keyword(s)
        };
        if !ok {
            let message = quoted_after("expected a name, found ", self.tokens[self.at].text.as_str());
            return Err(self.error(message));
        }
        Ok(self.bump())
    }

    fn fresh_variable(&mut self, name: String) -> (r: Variable)
        requires
            old(self).wf(),
        ensures
            final(self).follows(old(self)),
            final(self).at == old(self).at,
            final(self).book == old(self).book,
            final(self).scope == old(self).scope,
            r.name == name,
            r.id == old(self).fresh,
            final(self).tokens == old(self).tokens,
            final(self).fresh == old(self).fresh + 1 || old(self).fresh == usize::MAX,
    {
        let id = self.fresh;
        if self.fresh < usize::MAX {
            self.fresh = self.fresh + 1;
        }
        Variable { name, id }
    }

    /// A fresh variable, in scope from now on unless it is `_`.
    fn open(&mut self, name: String) -> (r: Variable)
        requires
            old(self).wf(),
        ensures
            final(self).follows(old(self)),
            final(self).at == old(self).at,
            final(self).book == old(self).book,
            final(self).scope@.len() >= old(self).scope@.len(),
            final(self).scope@.take(old(self).scope@.len() as int) == old(self).scope@,
            r.name == name,
            final(self).tokens == old(self).tokens,
    {
        let v = self.fresh_variable(name);
        if !str_eq(v.name.as_str(), "_") {
            self.scope.push(v.copy());
        }
        proof {
            assert(final(self).scope@.take(old(self).scope@.len() as int) =~= old(self).scope@);
        }
        v
    }

    /// `name` inside the current namespace.
    fn qualify(&self, name: &str) -> (r: String)
        ensures
            r@ == if self.namespace@.len() == 0 { name@ } else { self.namespace@ + seq!['.'] + name@ },
    {
        if self.namespace.as_str().is_empty() {
            name.to_owned()
        } else {
            joined(self.namespace.as_str(), '.', name)
        }
    }

    /// Bind `name`; a reusable binder also gets a second variable that later
    /// replies rebind to the first.
    fn bind_variable(&mut self, name: String, reusable: bool) -> (r: Variable)
        requires
            old(self).wf(),
        ensures
            final(self).follows(old(self)),
            final(self).at == old(self).at,
            final(self).book == old(self).book,
            final(self).scope@.len() >= old(self).scope@.len(),
            final(self).scope@.take(old(self).scope@.len() as int) == old(self).scope@,
            r.name == name,
            final(self).tokens == old(self).tokens,
    {
        let original = self.open(name.clone());
        if reusable {
            let ghost mid = self.scope@;
            let binding = self.open(name);
            self.reusable.push((binding, original.term()));
            proof {
                assert(self.scope@.take(old(self).scope@.len() as int) =~= mid.take(old(self).scope@.len() as int));
            }
        }
        original
    }

    /// Whether `value` is a `+` marker that makes a binder reusable.
    fn is_reusable(&self, value: &TermRef) -> (r: bool)
        ensures
            r == (**value matches Term::Var { id, .. } && self.reusable_markers@.contains(id)),
    {
        match &**value {
            Term::Var { id, .. } => {
                let mut k: usize = 0;
                while k < self.reusable_markers.len()
                    invariant
                        k <= self.reusable_markers@.len(),
                        forall|j: int| 0 <= j < k ==> self.reusable_markers@[j] != *id,
                        **value matches Term::Var { id: i, .. } && i == *id,
                    decreases self.reusable_markers@.len() - k,
                {
                    if self.reusable_markers[k] == *id {
                        proof {
                            assert(self.reusable_markers@[k as int] == *id);
                            assert(self.reusable_markers@.contains(*id));
                        }
                        return true;
                    }
                    k = k + 1;
                }
                false
            },
            _ => false,
        }
    }

    /// Whether `name` is a template or a declaration of the book so far.
    fn known(&self, name: &str) -> (r: bool)
        ensures
            r == (spec_declares(self.book.declarations@, name@) || exists|k: int|
                0 <= k < self.templates.declarations@.len() && (#[trigger] self.templates.declarations@[k]).0@ == name@),
    {
        has_template(&self.templates, name).is_some() || declares(&self.book, name)
    }

    /// What a name refers to: an alias prefix is replaced by its namespace;
    /// otherwise the name in the current namespace where that is declared.
    fn resolve(&self, name: &str) -> (r: String)
        ensures
            r@.len() > 0 || name@.len() == 0,
    {
        if let Some((head, tail)) = split_once(name, '.') {
            if let Some(namespace) = lookup(&self.aliases, head.as_str()) {
                return joined(namespace.as_str(), '.', tail.as_str());
            }
        }
        let q = self.qualify(name);
        if self.known(q.as_str()) {
            q
        } else {
            name.to_owned()
        }
    }

    /// The term a name denotes here: the innermost variable in scope, what
    /// a template argument bound it to, or a reference to a declaration.
    fn variable(&self, name: &str) -> (r: TermRef)
        ensures
            match innermost_named(self.scope@, name@) {
                Some(k) => match first_bound(self.compile_bindings@, self.scope@[k].id) {
                    Some(j) => r == self.compile_bindings@[j].1,
                    None => *r == (Term::Var { name: self.scope@[k].name, id: self.scope@[k].id }),
                },
                None => *r is Ref,
            },
    {
        let mut k: usize = self.scope.len();
        proof {
            assert(self.scope@.take(k as int) =~= self.scope@);
        }
        while k > 0
            invariant
                k <= self.scope@.len(),
                innermost_named(self.scope@, name@) == innermost_named(self.scope@.take(k as int), name@),
            decreases k,
        {
            proof {
                assert(self.scope@.take(k as int).drop_last() =~= self.scope@.take(k - 1));
            }
            k = k - 1;
            if str_eq(self.scope[k].name.as_str(), name) {
                proof {
                    assert(self.scope@.take(k + 1).last() == self.scope@[k as int]);
                    assert(innermost_named(self.scope@, name@) == Some(k as int));
                }
                let id = self.scope[k].id;
                let mut j: usize = 0;
                proof {
                    assert(self.compile_bindings@.take(0) =~= Seq::<(usize, TermRef)>::empty());
                }
                while j < self.compile_bindings.len()
                    invariant
                        j <= self.compile_bindings@.len(),
                        forall|i: int| 0 <= i < j ==> self.compile_bindings@[i].0 != id,
                        k < self.scope@.len(),
                        id == self.scope@[k as int].id,
                        innermost_named(self.scope@, name@) == Some(k as int),
                    decreases self.compile_bindings@.len() - j,
                {
                    if self.compile_bindings[j].0 == id {
                        proof {
                            lemma_first_bound(self.compile_bindings@, id, j as int);
                        }
                        return share(&self.compile_bindings[j].1);
                    }
                    j = j + 1;
                }
                proof {
                    lemma_first_bound_none(self.compile_bindings@, id);
                }
                return self.scope[k].term();
            }
        }
        proof {
            assert(self.scope@.take(0) =~= Seq::<Variable>::empty());
        }
        term(Term::Ref(self.resolve(name)))
    }

    /// Whether `value` is, by identity, a template argument bound here.
    fn is_compile_binding(&self, value: &TermRef) -> (r: bool)
        ensures
            r ==> exists|j: int| 0 <= j < self.compile_bindings@.len() && *self.compile_bindings@[j].1 == **value,
    {
        let mut j: usize = 0;
        while j < self.compile_bindings.len()
            invariant
                j <= self.compile_bindings@.len(),
            decreases self.compile_bindings@.len() - j,
        {
            if same_node(&self.compile_bindings[j].1, value) {
                return true;
            }
            j = j + 1;
        }
        false
    }

    /// A binder quantity: `-` erased, `+` many, otherwise once.
    fn quant(&mut self) -> (r: Quant)
        requires
            old(self).wf(),
        ensures
            final(self).follows(old(self)),
            final(self).fresh == old(self).fresh,
            final(self).book == old(self).book,
            final(self).scope == old(self).scope,
            final(self).tokens == old(self).tokens,
            r == (if old(self).takes("-"@) {
                Quant::Erased
            } else if old(self).takes("+"@) {
                Quant::Many
            } else {
                Quant::Lone
            }),
    {
        proof {
            reveal_strlit("-");
            reveal_strlit("+");
            reveal_strlit(">");
            assert("-"@[0] != ">"@[0]);
            assert("+"@[0] != ">"@[0]);
        }
        if self.take("-") {
            Quant::Erased
        } else if self.take("+") {
            Quant::Many
        } else {
            Quant::Lone
        }
    }

    /// A failure unless no declaration or template is named `name` yet.
    fn require_fresh(&self, name: &str) -> (r: Result<(), ParseError>)
        requires
            self.wf(),
        ensures
            r is Ok <==> !(has_template_name(self.templates, name@) || spec_declares_top(self.book.declarations@, name@)),
            r matches Err(e) ==> e.source == self.label,
    {
        if has_template(&self.templates, name).is_some() || declares_top(&self.book, name) {
            let message = prefixed("duplicate declaration: ", name);
            Err(self.error(message))
        } else {
            Ok(())
        }
    }
}

/// The index of the innermost variable of `scope` named `name`.
pub open spec fn innermost_named(scope: Seq<Variable>, name: Seq<char>) -> Option<int>
    decreases scope.len(),
{
    if scope.len() == 0 {
        None
    } else if scope.last().name@ == name {
        Some(scope.len() - 1)
    } else {
        innermost_named(scope.drop_last(), name)
    }
}

/// The index of the first template binding of the binder `id`.
pub open spec fn first_bound(bindings: Seq<(usize, TermRef)>, id: usize) -> Option<int>
    decreases bindings.len(),
{
    if bindings.len() == 0 {
        None
    } else {
        match first_bound(bindings.drop_last(), id) {
            Some(j) => Some(j),
            None => if bindings.last().0 == id {
                Some(bindings.len() - 1)
            } else {
                None
            },
        }
    }
}

proof fn lemma_first_bound(b: Seq<(usize, TermRef)>, id: usize, j: int)
    requires
        0 <= j < b.len(),
        b[j].0 == id,
        forall|i: int| 0 <= i < j ==> b[i].0 != id,
    ensures
        first_bound(b, id) == Some(j),
    decreases b.len(),
{
    if j < b.len() - 1 {
        lemma_first_bound(b.drop_last(), id, j);
    } else {
        lemma_first_bound_none(b.drop_last(), id);
    }
}

proof fn lemma_first_bound_none(b: Seq<(usize, TermRef)>, id: usize)
    requires
        forall|i: int| 0 <= i < b.len() ==> b[i].0 != id,
    ensures
        first_bound(b, id) is None,
    decreases b.len(),
{
    if b.len() > 0 {
        lemma_first_bound_none(b.drop_last(), id);
    }
}

/// The last definition named `name` among `ds`.
pub open spec fn last_definition(ds: Seq<Declaration>, name: Seq<char>) -> Option<DefDecl>
    decreases ds.len(),
{
    if ds.len() == 0 {
        None
    } else if ds.last() matches Declaration::Def(d) && d.name@ == name {
        Some(ds.last()->Def_0)
    } else {
        last_definition(ds.drop_last(), name)
    }
}

pub open spec fn has_template_name(t: Templates, name: Seq<char>) -> bool {
    exists|k: int| 0 <= k < t.declarations@.len() && (#[trigger] t.declarations@[k]).0@ == name
}

/// Whether a definition or datatype of the book (not a constructor) reads `name`.
pub open spec fn spec_declares_top(ds: Seq<Declaration>, name: Seq<char>) -> bool {
    exists|k: int| 0 <= k < ds.len() && crate::book::declared_name(#[trigger] ds[k]) == name
}

pub fn declares_top(book: &Book, name: &str) -> (r: bool)
    ensures
        r == spec_declares_top(book.declarations@, name@),
{
    let ds = &book.declarations;
    let mut k: usize = 0;
    while k < ds.len()
        invariant
            ds@ == book.declarations@,
            k <= ds@.len(),
            forall|j: int| 0 <= j < k ==> crate::book::declared_name(#[trigger] ds@[j]) != name@,
        decreases ds@.len() - k,
    {
        let hit = match &ds[k] {
            Declaration::Def(d) => str_eq(d.name.as_str(), name),
            Declaration::Adt(a) => str_eq(a.name.as_str(), name),
        };
        if hit {
            return true;
        }
        k = k + 1;
    }
    false
}

/// Whether any declaration of the book reads `name`: a definition, a datatype
/// or one of its constructors.
pub open spec fn spec_declares(ds: Seq<Declaration>, name: Seq<char>) -> bool {
    exists|k: int| 0 <= k < ds.len() && match #[trigger] ds[k] {
        Declaration::Def(d) => d.name@ == name,
        Declaration::Adt(a) => a.name@ == name || exists|c: int| 0 <= c < a.constructors@.len() && (
        #[trigger] a.constructors@[c]).name@ == name,
    }
}

/// Whether a constructor of some datatype of the book reads `name`.
pub open spec fn spec_has_constructor(ds: Seq<Declaration>, name: Seq<char>) -> bool {
    exists|k: int| 0 <= k < ds.len() && match #[trigger] ds[k] {
        Declaration::Def(_) => false,
        Declaration::Adt(a) => exists|c: int| 0 <= c < a.constructors@.len() && (
        #[trigger] a.constructors@[c]).name@ == name,
    }
}

fn constructor_in(cs: &Vec<ConstructorDecl>, name: &str) -> (r: Option<usize>)
    ensures
        r matches Some(c) ==> c < cs@.len() && cs@[c as int].name@ == name@,
        r is None ==> forall|c: int| 0 <= c < cs@.len() ==> (#[trigger] cs@[c]).name@ != name@,
{
    let mut c: usize = 0;
    while c < cs.len()
        invariant
            c <= cs@.len(),
            forall|j: int| 0 <= j < c ==> (#[trigger] cs@[j]).name@ != name@,
        decreases cs@.len() - c,
    {
        if str_eq(cs[c].name.as_str(), name) {
            return Some(c);
        }
        c = c + 1;
    }
    None
}

/// Whether any declaration of the book reads `name`.
pub fn declares(book: &Book, name: &str) -> (r: bool)
    ensures
        r == spec_declares(book.declarations@, name@),
{
    let ds = &book.declarations;
    let mut k: usize = 0;
    while k < ds.len()
        invariant
            ds@ == book.declarations@,
            k <= ds@.len(),
            forall|j: int| 0 <= j < k ==> !match #[trigger] ds@[j] {
                Declaration::Def(d) => d.name@ == name@,
                Declaration::Adt(a) => a.name@ == name@ || exists|c: int| 0 <= c < a.constructors@.len() && (
                #[trigger] a.constructors@[c]).name@ == name@,
            },
        decreases ds@.len() - k,
    {
        let hit = match &ds[k] {
            Declaration::Def(d) => str_eq(d.name.as_str(), name),
            Declaration::Adt(a) => str_eq(a.name.as_str(), name) || constructor_in(&a.constructors, name).is_some(),
        };
        if hit {
            return true;
        }
        k = k + 1;
    }
    false
}

/// The datatype and constructor positions of the first constructor named `name`.
pub fn find_constructor(book: &Book, name: &str) -> (r: Option<(usize, usize)>)
    ensures
        r matches Some((k, c)) ==> k < book.declarations@.len() && (book.declarations@[k as int] matches Declaration::Adt(a) && c < a.constructors@.len() && a.constructors@[c as int].name@ == name@),
        r is None <==> !spec_has_constructor(book.declarations@, name@),
{
    let ds = &book.declarations;
    let mut k: usize = 0;
    while k < ds.len()
        invariant
            ds@ == book.declarations@,
            k <= ds@.len(),
            forall|j: int| 0 <= j < k ==> !match #[trigger] ds@[j] {
                Declaration::Def(_) => false,
                Declaration::Adt(a) => exists|c: int| 0 <= c < a.constructors@.len() && (
                #[trigger] a.constructors@[c]).name@ == name@,
            },
        decreases ds@.len() - k,
    {
        match &ds[k] {
            Declaration::Def(_) => {},
            Declaration::Adt(a) => {
                if let Some(c) = constructor_in(&a.constructors, name) {
                    return Some((k, c));
                }
            },
        }
        k = k + 1;
    }
    None
}

/// The position of the first datatype named `name`.
pub fn find_datatype(book: &Book, name: &str) -> (r: Option<usize>)
    ensures
        r matches Some(k) ==> k < book.declarations@.len() && (book.declarations@[k as int] matches Declaration::Adt(a) && a.name@ == name@),
        r is None ==> forall|k: int| 0 <= k < book.declarations@.len() ==> !(#[trigger] book.declarations@[k] matches Declaration::Adt(a) && a.name@ == name@),
{
    let ds = &book.declarations;
    let mut k: usize = 0;
    while k < ds.len()
        invariant
            ds@ == book.declarations@,
            k <= ds@.len(),
            forall|j: int| 0 <= j < k ==> !(#[trigger] ds@[j] matches Declaration::Adt(a) && a.name@ == name@),
        decreases ds@.len() - k,
    {
        if let Declaration::Adt(a) = &ds[k] {
            if str_eq(a.name.as_str(), name) {
                return Some(k);
            }
        }
        k = k + 1;
    }
    None
}

/// Whether some template reads `name`.
pub fn has_template(templates: &Templates, name: &str) -> (r: Option<usize>)
    ensures
        r matches Some(k) ==> k < templates.declarations@.len() && templates.declarations@[k as int].0@ == name@,
        r is None ==> forall|k: int| 0 <= k < templates.declarations@.len() ==> (#[trigger] templates.declarations@[k]).0@ != name@,
{
    let ds = &templates.declarations;
    let mut k: usize = 0;
    while k < ds.len()
        invariant
            ds@ == templates.declarations@,
            k <= ds@.len(),
            forall|j: int| 0 <= j < k ==> (#[trigger] ds@[j]).0@ != name@,
        decreases ds@.len() - k,
    {
        if str_eq(ds[k].0.as_str(), name) {
            return Some(k);
        }
        k = k + 1;
    }
    None
}

/// The binding power, right associativity and method name of a binary
/// operator, where it is one.
pub open spec fn operator_table(op: Seq<char>) -> Option<(u8, bool, Seq<char>)> {
    if op == "&"@ {
        Some((1u8, true, "Pair"@))
    } else if op == "|"@ {
        Some((1u8, true, "Or"@))
    } else if op == "||"@ {
        Some((2u8, false, "Bool.or"@))
    } else if op == "&&"@ {
        Some((3u8, false, "Bool.and"@))
    } else if op == "<="@ {
        Some((4u8, false, ".is_le"@))
    } else if op == ">="@ {
        Some((4u8, false, ".is_ge"@))
    } else if op == ">"@ {
        Some((4u8, false, ".is_gt"@))
    } else if op == "<>"@ || op == "<&>"@ {
        Some((5u8, true, ""@))
    } else if op == "++"@ {
        Some((5u8, true, "String.append"@))
    } else if op == ".|."@ {
        Some((6u8, false, ".or"@))
    } else if op == ".^."@ {
        Some((7u8, false, ".xor"@))
    } else if op == ".&."@ {
        Some((8u8, false, ".and"@))
    } else if op == "<<"@ {
        Some((9u8, false, ".shln"@))
    } else if op == ">>"@ {
        Some((9u8, false, ".shrn"@))
    } else if op == "+"@ {
        Some((10u8, false, ".add"@))
    } else if op == "-"@ {
        Some((10u8, false, ".sub"@))
    } else if op == "*"@ {
        Some((11u8, false, ".mul"@))
    } else if op == "/"@ {
        Some((11u8, false, ".div"@))
    } else if op == "%"@ {
        Some((11u8, false, ".mod"@))
    } else {
        None
    }
}

/// Only the pair, union and concatenation operators associate to the
/// right; every other binary operator, the arithmetic ones among them,
/// associates to the left. The additive operators bind at 10 and the
/// multiplicative ones at 11, tighter than every other operator, so
/// `a - b - c` reads `(a - b) - c` and `a + b * c` reads `a + (b * c)`.
pub proof fn law_operator_associativity(op: Seq<char>)
    ensures
        op == "+"@ || op == "-"@ ==> (operator_table(op) matches Some((p, right, _)) && p == 10 && !right),
        op == "*"@ || op == "/"@ || op == "%"@ ==> (operator_table(op) matches Some((p, right, _)) && p == 11 && !right),
        operator_table(op) matches Some((p, right, _)) ==> (right <==> (op == "&"@ || op == "|"@ || op == "<>"@ || op
            == "<&>"@ || op == "++"@)),
        operator_table(op) matches Some((p, right, _)) ==> (p >= 10 <==> (op == "+"@ || op == "-"@ || op == "*"@ || op
            == "/"@ || op == "%"@)),
        op == "+"@ ==> (operator_table(op) matches Some((_, _, m)) && m == ".add"@),
        op == "-"@ ==> (operator_table(op) matches Some((_, _, m)) && m == ".sub"@),
        op == "*"@ ==> (operator_table(op) matches Some((_, _, m)) && m == ".mul"@),
        op == "/"@ ==> (operator_table(op) matches Some((_, _, m)) && m == ".div"@),
        op == "%"@ ==> (operator_table(op) matches Some((_, _, m)) && m == ".mod"@),
        op == "<="@ || op == ">="@ || op == ">"@ ==> (operator_table(op) matches Some((p, right, m)) && p == 4 && !right
            && (op == "<="@ ==> m == ".is_le"@) && (op == ">="@ ==> m == ".is_ge"@) && (op == ">"@ ==> m == ".is_gt"@)),
{
    reveal_strlit("&");
    reveal_strlit("|");
    reveal_strlit("||");
    reveal_strlit("&&");
    reveal_strlit("<=");
    reveal_strlit(">=");
    reveal_strlit(">");
    reveal_strlit("<>");
    reveal_strlit("<&>");
    reveal_strlit("++");
    reveal_strlit(".|.");
    reveal_strlit(".^.");
    reveal_strlit(".&.");
    reveal_strlit("<<");
    reveal_strlit(">>");
    reveal_strlit("+");
    reveal_strlit("-");
    reveal_strlit("*");
    reveal_strlit("/");
    reveal_strlit("%");
    assert("&"@.len() == 1 && "&"@[0] == '&');
    assert("|"@.len() == 1 && "|"@[0] == '|');
    assert("||"@.len() == 2 && "||"@[0] == '|' && "||"@[1] == '|');
    assert("&&"@.len() == 2 && "&&"@[0] == '&' && "&&"@[1] == '&');
    assert("<="@.len() == 2 && "<="@[0] == '<' && "<="@[1] == '=');
    assert(">="@.len() == 2 && ">="@[0] == '>' && ">="@[1] == '=');
    assert(">"@.len() == 1 && ">"@[0] == '>');
    assert("<>"@.len() == 2 && "<>"@[0] == '<' && "<>"@[1] == '>');
    assert("<&>"@.len() == 3 && "<&>"@[0] == '<' && "<&>"@[1] == '&' && "<&>"@[2] == '>');
    assert("++"@.len() == 2 && "++"@[0] == '+' && "++"@[1] == '+');
    assert(".|."@.len() == 3 && ".|."@[0] == '.' && ".|."@[1] == '|' && ".|."@[2] == '.');
    assert(".^."@.len() == 3 && ".^."@[0] == '.' && ".^."@[1] == '^' && ".^."@[2] == '.');
    assert(".&."@.len() == 3 && ".&."@[0] == '.' && ".&."@[1] == '&' && ".&."@[2] == '.');
    assert("<<"@.len() == 2 && "<<"@[0] == '<' && "<<"@[1] == '<');
    assert(">>"@.len() == 2 && ">>"@[0] == '>' && ">>"@[1] == '>');
    assert("+"@.len() == 1 && "+"@[0] == '+');
    assert("-"@.len() == 1 && "-"@[0] == '-');
    assert("*"@.len() == 1 && "*"@[0] == '*');
    assert("/"@.len() == 1 && "/"@[0] == '/');
    assert("%"@.len() == 1 && "%"@[0] == '%');
}

/// Every binary operator of the parser, and every other mark the parser
/// reads as one (`=>`, `->`, `==`, `!=`, `<-`), is one token of the lexer:
/// its characters on their own scan to exactly one token that spans all of
/// them, so `x <= y` reaches the parser as `x`, `<=`, `y`.
pub proof fn law_operators_are_single_tokens(op: Seq<char>)
    requires
        operator_table(op) is Some || op == "=>"@ || op == "->"@ || op == "=="@ || op == "!="@ || op == "<-"@,
    ensures
        crate::lexer::lex_from(op, 0, 1, 1) == Ok::<(Seq<(int, int, usize, usize)>, usize, usize), (usize, usize, Seq<char>)>(
            (seq![(0int, op.len() as int, 1usize, 1usize)], 1usize, (1 + op.len()) as usize),
        ),
{
    reveal_strlit("&");
    reveal_strlit("|");
    reveal_strlit("||");
    reveal_strlit("&&");
    reveal_strlit("<=");
    reveal_strlit(">=");
    reveal_strlit(">");
    reveal_strlit("<>");
    reveal_strlit("<&>");
    reveal_strlit("++");
    reveal_strlit(".|.");
    reveal_strlit(".^.");
    reveal_strlit(".&.");
    reveal_strlit("<<");
    reveal_strlit(">>");
    reveal_strlit("+");
    reveal_strlit("-");
    reveal_strlit("*");
    reveal_strlit("/");
    reveal_strlit("%");
    if op == "&"@ {
        assert(op =~= seq!['&']);
        lemma_operator_punctuation_0();
    }
    if op == "|"@ {
        assert(op =~= seq!['|']);
        lemma_operator_punctuation_1();
    }
    if op == "||"@ {
        assert(op =~= seq!['|', '|']);
        lemma_operator_punctuation_2();
    }
    if op == "&&"@ {
        assert(op =~= seq!['&', '&']);
        lemma_operator_punctuation_3();
    }
    if op == "<="@ {
        assert(op =~= seq!['<', '=']);
        lemma_operator_punctuation_4();
    }
    if op == ">="@ {
        assert(op =~= seq!['>', '=']);
        lemma_operator_punctuation_5();
    }
    if op == ">"@ {
        assert(op =~= seq!['>']);
        lemma_operator_punctuation_6();
    }
    if op == "<>"@ {
        assert(op =~= seq!['<', '>']);
        lemma_operator_punctuation_7();
    }
    if op == "<&>"@ {
        assert(op =~= seq!['<', '&', '>']);
        lemma_operator_punctuation_8();
    }
    if op == "++"@ {
        assert(op =~= seq!['+', '+']);
        lemma_operator_punctuation_9();
    }
    if op == ".|."@ {
        assert(op =~= seq!['.', '|', '.']);
        lemma_operator_punctuation_10();
    }
    if op == ".^."@ {
        assert(op =~= seq!['.', '^', '.']);
        lemma_operator_punctuation_11();
    }
    if op == ".&."@ {
        assert(op =~= seq!['.', '&', '.']);
        lemma_operator_punctuation_12();
    }
    if op == "<<"@ {
        assert(op =~= seq!['<', '<']);
        lemma_operator_punctuation_13();
    }
    if op == ">>"@ {
        assert(op =~= seq!['>', '>']);
        lemma_operator_punctuation_14();
    }
    if op == "+"@ {
        assert(op =~= seq!['+']);
        lemma_operator_punctuation_15();
    }
    if op == "-"@ {
        assert(op =~= seq!['-']);
        lemma_operator_punctuation_16();
    }
    if op == "*"@ {
        assert(op =~= seq!['*']);
        lemma_operator_punctuation_17();
    }
    if op == "/"@ {
        assert(op =~= seq!['/']);
        lemma_operator_punctuation_18();
    }
    if op == "%"@ {
        assert(op =~= seq!['%']);
        lemma_operator_punctuation_19();
    }
    reveal_strlit("=>");
    reveal_strlit("->");
    reveal_strlit("==");
    reveal_strlit("!=");
    reveal_strlit("<-");
    if op == "=>"@ {
        assert(op =~= seq!['=', '>']);
        lemma_operator_punctuation_20();
    }
    if op == "->"@ {
        assert(op =~= seq!['-', '>']);
        lemma_operator_punctuation_21();
    }
    if op == "=="@ {
        assert(op =~= seq!['=', '=']);
        lemma_operator_punctuation_22();
    }
    if op == "!="@ {
        assert(op =~= seq!['!', '=']);
        lemma_operator_punctuation_23();
    }
    if op == "<-"@ {
        assert(op =~= seq!['<', '-']);
        lemma_operator_punctuation_24();
    }
    lemma_single_punctuation_token(op);
}

/// Punctuation that scans whole on its own is one token.
proof fn lemma_single_punctuation_token(s: Seq<char>)
    requires
        1 <= s.len() <= 3,
        !crate::lexer::spec_is_whitespace(s[0]),
        s[0] != '#' && s[0] != '"' && s[0] != '\'' && s[0] != '_',
        !crate::lexer::spec_ascii_alpha(s[0]),
        !crate::lexer::spec_ascii_digit(s[0]),
        crate::lexer::first_punctuation(s, 0, crate::lexer::punctuation_list(), 0) == s.len()
            || (s.len() == 1 && crate::lexer::first_punctuation(s, 0, crate::lexer::punctuation_list(), 0) == 0
            && crate::lexer::single_punct(s[0])),
    ensures
        crate::lexer::lex_from(s, 0, 1, 1) == Ok::<(Seq<(int, int, usize, usize)>, usize, usize), (usize, usize, Seq<char>)>(
            (seq![(0int, s.len() as int, 1usize, 1usize)], 1usize, (1 + s.len()) as usize),
        ),
{
    let end = s.len() as int;
    assert(crate::lexer::token_scan(s, 0) == Ok::<int, Seq<char>>(end));
    reveal_with_fuel(crate::lexer::lex_from, 2);
    assert(crate::lexer::lex_from(s, end, 1, crate::lexer::sat_add(1, end)) == Ok::<(Seq<(int, int, usize, usize)>, usize, usize), (usize, usize, Seq<char>)>((seq![], 1usize, (1 + end) as usize)));
    assert(seq![(0int, end, 1usize, 1usize)] + Seq::<(int, int, usize, usize)>::empty() =~= seq![(0int, end, 1usize, 1usize)]);
}

proof fn lemma_operator_punctuation_0()
    ensures
        crate::lexer::first_punctuation(seq!['&'], 0, crate::lexer::punctuation_list(), 0) == 0,
{
    let s = seq!['&'];
    assert(crate::lexer::punctuation_list() =~= seq![seq!['<', '&', '>'], seq!['.', '|', '.'], seq!['.', '^', '.'], seq!['.', '&', '.'], seq!['=', '>'], seq!['-', '>'], seq!['=', '='], seq!['!', '='], seq!['<', '='], seq!['>', '='], seq!['<', '>'], seq!['+', '+'], seq!['<', '<'], seq!['>', '>'], seq!['&', '&'], seq!['|', '|'], seq!['<', '-']]);
    reveal_with_fuel(crate::lexer::first_punctuation, 18);
    crate::lexer::lemma_not_starts(s, seq!['<', '&', '>'], 0);
    crate::lexer::lemma_not_starts(s, seq!['.', '|', '.'], 0);
    crate::lexer::lemma_not_starts(s, seq!['.', '^', '.'], 0);
    crate::lexer::lemma_not_starts(s, seq!['.', '&', '.'], 0);
    crate::lexer::lemma_not_starts(s, seq!['=', '>'], 0);
    crate::lexer::lemma_not_starts(s, seq!['-', '>'], 0);
    crate::lexer::lemma_not_starts(s, seq!['=', '='], 0);
    crate::lexer::lemma_not_starts(s, seq!['!', '='], 0);
    crate::lexer::lemma_not_starts(s, seq!['<', '='], 0);
    crate::lexer::lemma_not_starts(s, seq!['>', '='], 0);
    crate::lexer::lemma_not_starts(s, seq!['<', '>'], 0);
    crate::lexer::lemma_not_starts(s, seq!['+', '+'], 0);
    crate::lexer::lemma_not_starts(s, seq!['<', '<'], 0);
    crate::lexer::lemma_not_starts(s, seq!['>', '>'], 0);
    crate::lexer::lemma_not_starts(s, seq!['&', '&'], 0);
    crate::lexer::lemma_not_starts(s, seq!['|', '|'], 0);
    crate::lexer::lemma_not_starts(s, seq!['<', '-'], 0);
}

proof fn lemma_operator_punctuation_1()
    ensures
        crate::lexer::first_punctuation(seq!['|'], 0, crate::lexer::punctuation_list(), 0) == 0,
{
    let s = seq!['|'];
    assert(crate::lexer::punctuation_list() =~= seq![seq!['<', '&', '>'], seq!['.', '|', '.'], seq!['.', '^', '.'], seq!['.', '&', '.'], seq!['=', '>'], seq!['-', '>'], seq!['=', '='], seq!['!', '='], seq!['<', '='], seq!['>', '='], seq!['<', '>'], seq!['+', '+'], seq!['<', '<'], seq!['>', '>'], seq!['&', '&'], seq!['|', '|'], seq!['<', '-']]);
    reveal_with_fuel(crate::lexer::first_punctuation, 18);
    crate::lexer::lemma_not_starts(s, seq!['<', '&', '>'], 0);
    crate::lexer::lemma_not_starts(s, seq!['.', '|', '.'], 0);
    crate::lexer::lemma_not_starts(s, seq!['.', '^', '.'], 0);
    crate::lexer::lemma_not_starts(s, seq!['.', '&', '.'], 0);
    crate::lexer::lemma_not_starts(s, seq!['=', '>'], 0);
    crate::lexer::lemma_not_starts(s, seq!['-', '>'], 0);
    crate::lexer::lemma_not_starts(s, seq!['=', '='], 0);
    crate::lexer::lemma_not_starts(s, seq!['!', '='], 0);
    crate::lexer::lemma_not_starts(s, seq!['<', '='], 0);
    crate::lexer::lemma_not_starts(s, seq!['>', '='], 0);
    crate::lexer::lemma_not_starts(s, seq!['<', '>'], 0);
    crate::lexer::lemma_not_starts(s, seq!['+', '+'], 0);
    crate::lexer::lemma_not_starts(s, seq!['<', '<'], 0);
    crate::lexer::lemma_not_starts(s, seq!['>', '>'], 0);
    crate::lexer::lemma_not_starts(s, seq!['&', '&'], 0);
    crate::lexer::lemma_not_starts(s, seq!['|', '|'], 0);
    crate::lexer::lemma_not_starts(s, seq!['<', '-'], 0);
}

proof fn lemma_operator_punctuation_2()
    ensures
        crate::lexer::first_punctuation(seq!['|', '|'], 0, crate::lexer::punctuation_list(), 0) == 2,
{
    let s = seq!['|', '|'];
    assert(crate::lexer::punctuation_list() =~= seq![seq!['<', '&', '>'], seq!['.', '|', '.'], seq!['.', '^', '.'], seq!['.', '&', '.'], seq!['=', '>'], seq!['-', '>'], seq!['=', '='], seq!['!', '='], seq!['<', '='], seq!['>', '='], seq!['<', '>'], seq!['+', '+'], seq!['<', '<'], seq!['>', '>'], seq!['&', '&'], seq!['|', '|'], seq!['<', '-']]);
    reveal_with_fuel(crate::lexer::first_punctuation, 18);
    crate::lexer::lemma_not_starts(s, seq!['<', '&', '>'], 0);
    crate::lexer::lemma_not_starts(s, seq!['.', '|', '.'], 0);
    crate::lexer::lemma_not_starts(s, seq!['.', '^', '.'], 0);
    crate::lexer::lemma_not_starts(s, seq!['.', '&', '.'], 0);
    crate::lexer::lemma_not_starts(s, seq!['=', '>'], 0);
    crate::lexer::lemma_not_starts(s, seq!['-', '>'], 0);
    crate::lexer::lemma_not_starts(s, seq!['=', '='], 0);
    crate::lexer::lemma_not_starts(s, seq!['!', '='], 0);
    crate::lexer::lemma_not_starts(s, seq!['<', '='], 0);
    crate::lexer::lemma_not_starts(s, seq!['>', '='], 0);
    crate::lexer::lemma_not_starts(s, seq!['<', '>'], 0);
    crate::lexer::lemma_not_starts(s, seq!['+', '+'], 0);
    crate::lexer::lemma_not_starts(s, seq!['<', '<'], 0);
    crate::lexer::lemma_not_starts(s, seq!['>', '>'], 0);
    crate::lexer::lemma_not_starts(s, seq!['&', '&'], 0);
    assert(s.subrange(0, 2) =~= s);
}

proof fn lemma_operator_punctuation_3()
    ensures
        crate::lexer::first_punctuation(seq!['&', '&'], 0, crate::lexer::punctuation_list(), 0) == 2,
{
    let s = seq!['&', '&'];
    assert(crate::lexer::punctuation_list() =~= seq![seq!['<', '&', '>'], seq!['.', '|', '.'], seq!['.', '^', '.'], seq!['.', '&', '.'], seq!['=', '>'], seq!['-', '>'], seq!['=', '='], seq!['!', '='], seq!['<', '='], seq!['>', '='], seq!['<', '>'], seq!['+', '+'], seq!['<', '<'], seq!['>', '>'], seq!['&', '&'], seq!['|', '|'], seq!['<', '-']]);
    reveal_with_fuel(crate::lexer::first_punctuation, 18);
    crate::lexer::lemma_not_starts(s, seq!['<', '&', '>'], 0);
    crate::lexer::lemma_not_starts(s, seq!['.', '|', '.'], 0);
    crate::lexer::lemma_not_starts(s, seq!['.', '^', '.'], 0);
    crate::lexer::lemma_not_starts(s, seq!['.', '&', '.'], 0);
    crate::lexer::lemma_not_starts(s, seq!['=', '>'], 0);
    crate::lexer::lemma_not_starts(s, seq!['-', '>'], 0);
    crate::lexer::lemma_not_starts(s, seq!['=', '='], 0);
    crate::lexer::lemma_not_starts(s, seq!['!', '='], 0);
    crate::lexer::lemma_not_starts(s, seq!['<', '='], 0);
    crate::lexer::lemma_not_starts(s, seq!['>', '='], 0);
    crate::lexer::lemma_not_starts(s, seq!['<', '>'], 0);
    crate::lexer::lemma_not_starts(s, seq!['+', '+'], 0);
    crate::lexer::lemma_not_starts(s, seq!['<', '<'], 0);
    crate::lexer::lemma_not_starts(s, seq!['>', '>'], 0);
    assert(s.subrange(0, 2) =~= s);
}

proof fn lemma_operator_punctuation_4()
    ensures
        crate::lexer::first_punctuation(seq!['<', '='], 0, crate::lexer::punctuation_list(), 0) == 2,
{
    let s = seq!['<', '='];
    assert(crate::lexer::punctuation_list() =~= seq![seq!['<', '&', '>'], seq!['.', '|', '.'], seq!['.', '^', '.'], seq!['.', '&', '.'], seq!['=', '>'], seq!['-', '>'], seq!['=', '='], seq!['!', '='], seq!['<', '='], seq!['>', '='], seq!['<', '>'], seq!['+', '+'], seq!['<', '<'], seq!['>', '>'], seq!['&', '&'], seq!['|', '|'], seq!['<', '-']]);
    reveal_with_fuel(crate::lexer::first_punctuation, 18);
    crate::lexer::lemma_not_starts(s, seq!['<', '&', '>'], 0);
    crate::lexer::lemma_not_starts(s, seq!['.', '|', '.'], 0);
    crate::lexer::lemma_not_starts(s, seq!['.', '^', '.'], 0);
    crate::lexer::lemma_not_starts(s, seq!['.', '&', '.'], 0);
    crate::lexer::lemma_not_starts(s, seq!['=', '>'], 0);
    crate::lexer::lemma_not_starts(s, seq!['-', '>'], 0);
    crate::lexer::lemma_not_starts(s, seq!['=', '='], 0);
    crate::lexer::lemma_not_starts(s, seq!['!', '='], 0);
    assert(s.subrange(0, 2) =~= s);
}

proof fn lemma_operator_punctuation_5()
    ensures
        crate::lexer::first_punctuation(seq!['>', '='], 0, crate::lexer::punctuation_list(), 0) == 2,
{
    let s = seq!['>', '='];
    assert(crate::lexer::punctuation_list() =~= seq![seq!['<', '&', '>'], seq!['.', '|', '.'], seq!['.', '^', '.'], seq!['.', '&', '.'], seq!['=', '>'], seq!['-', '>'], seq!['=', '='], seq!['!', '='], seq!['<', '='], seq!['>', '='], seq!['<', '>'], seq!['+', '+'], seq!['<', '<'], seq!['>', '>'], seq!['&', '&'], seq!['|', '|'], seq!['<', '-']]);
    reveal_with_fuel(crate::lexer::first_punctuation, 18);
    crate::lexer::lemma_not_starts(s, seq!['<', '&', '>'], 0);
    crate::lexer::lemma_not_starts(s, seq!['.', '|', '.'], 0);
    crate::lexer::lemma_not_starts(s, seq!['.', '^', '.'], 0);
    crate::lexer::lemma_not_starts(s, seq!['.', '&', '.'], 0);
    crate::lexer::lemma_not_starts(s, seq!['=', '>'], 0);
    crate::lexer::lemma_not_starts(s, seq!['-', '>'], 0);
    crate::lexer::lemma_not_starts(s, seq!['=', '='], 0);
    crate::lexer::lemma_not_starts(s, seq!['!', '='], 0);
    crate::lexer::lemma_not_starts(s, seq!['<', '='], 0);
    assert(s.subrange(0, 2) =~= s);
}

proof fn lemma_operator_punctuation_6()
    ensures
        crate::lexer::first_punctuation(seq!['>'], 0, crate::lexer::punctuation_list(), 0) == 0,
{
    let s = seq!['>'];
    assert(crate::lexer::punctuation_list() =~= seq![seq!['<', '&', '>'], seq!['.', '|', '.'], seq!['.', '^', '.'], seq!['.', '&', '.'], seq!['=', '>'], seq!['-', '>'], seq!['=', '='], seq!['!', '='], seq!['<', '='], seq!['>', '='], seq!['<', '>'], seq!['+', '+'], seq!['<', '<'], seq!['>', '>'], seq!['&', '&'], seq!['|', '|'], seq!['<', '-']]);
    reveal_with_fuel(crate::lexer::first_punctuation, 18);
    crate::lexer::lemma_not_starts(s, seq!['<', '&', '>'], 0);
    crate::lexer::lemma_not_starts(s, seq!['.', '|', '.'], 0);
    crate::lexer::lemma_not_starts(s, seq!['.', '^', '.'], 0);
    crate::lexer::lemma_not_starts(s, seq!['.', '&', '.'], 0);
    crate::lexer::lemma_not_starts(s, seq!['=', '>'], 0);
    crate::lexer::lemma_not_starts(s, seq!['-', '>'], 0);
    crate::lexer::lemma_not_starts(s, seq!['=', '='], 0);
    crate::lexer::lemma_not_starts(s, seq!['!', '='], 0);
    crate::lexer::lemma_not_starts(s, seq!['<', '='], 0);
    crate::lexer::lemma_not_starts(s, seq!['>', '='], 0);
    crate::lexer::lemma_not_starts(s, seq!['<', '>'], 0);
    crate::lexer::lemma_not_starts(s, seq!['+', '+'], 0);
    crate::lexer::lemma_not_starts(s, seq!['<', '<'], 0);
    crate::lexer::lemma_not_starts(s, seq!['>', '>'], 0);
    crate::lexer::lemma_not_starts(s, seq!['&', '&'], 0);
    crate::lexer::lemma_not_starts(s, seq!['|', '|'], 0);
    crate::lexer::lemma_not_starts(s, seq!['<', '-'], 0);
}

proof fn lemma_operator_punctuation_7()
    ensures
        crate::lexer::first_punctuation(seq!['<', '>'], 0, crate::lexer::punctuation_list(), 0) == 2,
{
    let s = seq!['<', '>'];
    assert(crate::lexer::punctuation_list() =~= seq![seq!['<', '&', '>'], seq!['.', '|', '.'], seq!['.', '^', '.'], seq!['.', '&', '.'], seq!['=', '>'], seq!['-', '>'], seq!['=', '='], seq!['!', '='], seq!['<', '='], seq!['>', '='], seq!['<', '>'], seq!['+', '+'], seq!['<', '<'], seq!['>', '>'], seq!['&', '&'], seq!['|', '|'], seq!['<', '-']]);
    reveal_with_fuel(crate::lexer::first_punctuation, 18);
    crate::lexer::lemma_not_starts(s, seq!['<', '&', '>'], 0);
    crate::lexer::lemma_not_starts(s, seq!['.', '|', '.'], 0);
    crate::lexer::lemma_not_starts(s, seq!['.', '^', '.'], 0);
    crate::lexer::lemma_not_starts(s, seq!['.', '&', '.'], 0);
    crate::lexer::lemma_not_starts(s, seq!['=', '>'], 0);
    crate::lexer::lemma_not_starts(s, seq!['-', '>'], 0);
    crate::lexer::lemma_not_starts(s, seq!['=', '='], 0);
    crate::lexer::lemma_not_starts(s, seq!['!', '='], 0);
    crate::lexer::lemma_not_starts(s, seq!['<', '='], 1);
    crate::lexer::lemma_not_starts(s, seq!['>', '='], 0);
    assert(s.subrange(0, 2) =~= s);
}

proof fn lemma_operator_punctuation_8()
    ensures
        crate::lexer::first_punctuation(seq!['<', '&', '>'], 0, crate::lexer::punctuation_list(), 0) == 3,
{
    let s = seq!['<', '&', '>'];
    assert(crate::lexer::punctuation_list() =~= seq![seq!['<', '&', '>'], seq!['.', '|', '.'], seq!['.', '^', '.'], seq!['.', '&', '.'], seq!['=', '>'], seq!['-', '>'], seq!['=', '='], seq!['!', '='], seq!['<', '='], seq!['>', '='], seq!['<', '>'], seq!['+', '+'], seq!['<', '<'], seq!['>', '>'], seq!['&', '&'], seq!['|', '|'], seq!['<', '-']]);
    reveal_with_fuel(crate::lexer::first_punctuation, 18);
    assert(s.subrange(0, 3) =~= s);
}

proof fn lemma_operator_punctuation_9()
    ensures
        crate::lexer::first_punctuation(seq!['+', '+'], 0, crate::lexer::punctuation_list(), 0) == 2,
{
    let s = seq!['+', '+'];
    assert(crate::lexer::punctuation_list() =~= seq![seq!['<', '&', '>'], seq!['.', '|', '.'], seq!['.', '^', '.'], seq!['.', '&', '.'], seq!['=', '>'], seq!['-', '>'], seq!['=', '='], seq!['!', '='], seq!['<', '='], seq!['>', '='], seq!['<', '>'], seq!['+', '+'], seq!['<', '<'], seq!['>', '>'], seq!['&', '&'], seq!['|', '|'], seq!['<', '-']]);
    reveal_with_fuel(crate::lexer::first_punctuation, 18);
    crate::lexer::lemma_not_starts(s, seq!['<', '&', '>'], 0);
    crate::lexer::lemma_not_starts(s, seq!['.', '|', '.'], 0);
    crate::lexer::lemma_not_starts(s, seq!['.', '^', '.'], 0);
    crate::lexer::lemma_not_starts(s, seq!['.', '&', '.'], 0);
    crate::lexer::lemma_not_starts(s, seq!['=', '>'], 0);
    crate::lexer::lemma_not_starts(s, seq!['-', '>'], 0);
    crate::lexer::lemma_not_starts(s, seq!['=', '='], 0);
    crate::lexer::lemma_not_starts(s, seq!['!', '='], 0);
    crate::lexer::lemma_not_starts(s, seq!['<', '='], 0);
    crate::lexer::lemma_not_starts(s, seq!['>', '='], 0);
    crate::lexer::lemma_not_starts(s, seq!['<', '>'], 0);
    assert(s.subrange(0, 2) =~= s);
}

proof fn lemma_operator_punctuation_10()
    ensures
        crate::lexer::first_punctuation(seq!['.', '|', '.'], 0, crate::lexer::punctuation_list(), 0) == 3,
{
    let s = seq!['.', '|', '.'];
    assert(crate::lexer::punctuation_list() =~= seq![seq!['<', '&', '>'], seq!['.', '|', '.'], seq!['.', '^', '.'], seq!['.', '&', '.'], seq!['=', '>'], seq!['-', '>'], seq!['=', '='], seq!['!', '='], seq!['<', '='], seq!['>', '='], seq!['<', '>'], seq!['+', '+'], seq!['<', '<'], seq!['>', '>'], seq!['&', '&'], seq!['|', '|'], seq!['<', '-']]);
    reveal_with_fuel(crate::lexer::first_punctuation, 18);
    crate::lexer::lemma_not_starts(s, seq!['<', '&', '>'], 0);
    assert(s.subrange(0, 3) =~= s);
}

proof fn lemma_operator_punctuation_11()
    ensures
        crate::lexer::first_punctuation(seq!['.', '^', '.'], 0, crate::lexer::punctuation_list(), 0) == 3,
{
    let s = seq!['.', '^', '.'];
    assert(crate::lexer::punctuation_list() =~= seq![seq!['<', '&', '>'], seq!['.', '|', '.'], seq!['.', '^', '.'], seq!['.', '&', '.'], seq!['=', '>'], seq!['-', '>'], seq!['=', '='], seq!['!', '='], seq!['<', '='], seq!['>', '='], seq!['<', '>'], seq!['+', '+'], seq!['<', '<'], seq!['>', '>'], seq!['&', '&'], seq!['|', '|'], seq!['<', '-']]);
    reveal_with_fuel(crate::lexer::first_punctuation, 18);
    crate::lexer::lemma_not_starts(s, seq!['<', '&', '>'], 0);
    crate::lexer::lemma_not_starts(s, seq!['.', '|', '.'], 1);
    assert(s.subrange(0, 3) =~= s);
}

proof fn lemma_operator_punctuation_12()
    ensures
        crate::lexer::first_punctuation(seq!['.', '&', '.'], 0, crate::lexer::punctuation_list(), 0) == 3,
{
    let s = seq!['.', '&', '.'];
    assert(crate::lexer::punctuation_list() =~= seq![seq!['<', '&', '>'], seq!['.', '|', '.'], seq!['.', '^', '.'], seq!['.', '&', '.'], seq!['=', '>'], seq!['-', '>'], seq!['=', '='], seq!['!', '='], seq!['<', '='], seq!['>', '='], seq!['<', '>'], seq!['+', '+'], seq!['<', '<'], seq!['>', '>'], seq!['&', '&'], seq!['|', '|'], seq!['<', '-']]);
    reveal_with_fuel(crate::lexer::first_punctuation, 18);
    crate::lexer::lemma_not_starts(s, seq!['<', '&', '>'], 0);
    crate::lexer::lemma_not_starts(s, seq!['.', '|', '.'], 1);
    crate::lexer::lemma_not_starts(s, seq!['.', '^', '.'], 1);
    assert(s.subrange(0, 3) =~= s);
}

proof fn lemma_operator_punctuation_13()
    ensures
        crate::lexer::first_punctuation(seq!['<', '<'], 0, crate::lexer::punctuation_list(), 0) == 2,
{
    let s = seq!['<', '<'];
    assert(crate::lexer::punctuation_list() =~= seq![seq!['<', '&', '>'], seq!['.', '|', '.'], seq!['.', '^', '.'], seq!['.', '&', '.'], seq!['=', '>'], seq!['-', '>'], seq!['=', '='], seq!['!', '='], seq!['<', '='], seq!['>', '='], seq!['<', '>'], seq!['+', '+'], seq!['<', '<'], seq!['>', '>'], seq!['&', '&'], seq!['|', '|'], seq!['<', '-']]);
    reveal_with_fuel(crate::lexer::first_punctuation, 18);
    crate::lexer::lemma_not_starts(s, seq!['<', '&', '>'], 0);
    crate::lexer::lemma_not_starts(s, seq!['.', '|', '.'], 0);
    crate::lexer::lemma_not_starts(s, seq!['.', '^', '.'], 0);
    crate::lexer::lemma_not_starts(s, seq!['.', '&', '.'], 0);
    crate::lexer::lemma_not_starts(s, seq!['=', '>'], 0);
    crate::lexer::lemma_not_starts(s, seq!['-', '>'], 0);
    crate::lexer::lemma_not_starts(s, seq!['=', '='], 0);
    crate::lexer::lemma_not_starts(s, seq!['!', '='], 0);
    crate::lexer::lemma_not_starts(s, seq!['<', '='], 1);
    crate::lexer::lemma_not_starts(s, seq!['>', '='], 0);
    crate::lexer::lemma_not_starts(s, seq!['<', '>'], 1);
    crate::lexer::lemma_not_starts(s, seq!['+', '+'], 0);
    assert(s.subrange(0, 2) =~= s);
}

proof fn lemma_operator_punctuation_14()
    ensures
        crate::lexer::first_punctuation(seq!['>', '>'], 0, crate::lexer::punctuation_list(), 0) == 2,
{
    let s = seq!['>', '>'];
    assert(crate::lexer::punctuation_list() =~= seq![seq!['<', '&', '>'], seq!['.', '|', '.'], seq!['.', '^', '.'], seq!['.', '&', '.'], seq!['=', '>'], seq!['-', '>'], seq!['=', '='], seq!['!', '='], seq!['<', '='], seq!['>', '='], seq!['<', '>'], seq!['+', '+'], seq!['<', '<'], seq!['>', '>'], seq!['&', '&'], seq!['|', '|'], seq!['<', '-']]);
    reveal_with_fuel(crate::lexer::first_punctuation, 18);
    crate::lexer::lemma_not_starts(s, seq!['<', '&', '>'], 0);
    crate::lexer::lemma_not_starts(s, seq!['.', '|', '.'], 0);
    crate::lexer::lemma_not_starts(s, seq!['.', '^', '.'], 0);
    crate::lexer::lemma_not_starts(s, seq!['.', '&', '.'], 0);
    crate::lexer::lemma_not_starts(s, seq!['=', '>'], 0);
    crate::lexer::lemma_not_starts(s, seq!['-', '>'], 0);
    crate::lexer::lemma_not_starts(s, seq!['=', '='], 0);
    crate::lexer::lemma_not_starts(s, seq!['!', '='], 0);
    crate::lexer::lemma_not_starts(s, seq!['<', '='], 0);
    crate::lexer::lemma_not_starts(s, seq!['>', '='], 1);
    crate::lexer::lemma_not_starts(s, seq!['<', '>'], 0);
    crate::lexer::lemma_not_starts(s, seq!['+', '+'], 0);
    crate::lexer::lemma_not_starts(s, seq!['<', '<'], 0);
    assert(s.subrange(0, 2) =~= s);
}

proof fn lemma_operator_punctuation_15()
    ensures
        crate::lexer::first_punctuation(seq!['+'], 0, crate::lexer::punctuation_list(), 0) == 0,
{
    let s = seq!['+'];
    assert(crate::lexer::punctuation_list() =~= seq![seq!['<', '&', '>'], seq!['.', '|', '.'], seq!['.', '^', '.'], seq!['.', '&', '.'], seq!['=', '>'], seq!['-', '>'], seq!['=', '='], seq!['!', '='], seq!['<', '='], seq!['>', '='], seq!['<', '>'], seq!['+', '+'], seq!['<', '<'], seq!['>', '>'], seq!['&', '&'], seq!['|', '|'], seq!['<', '-']]);
    reveal_with_fuel(crate::lexer::first_punctuation, 18);
    crate::lexer::lemma_not_starts(s, seq!['<', '&', '>'], 0);
    crate::lexer::lemma_not_starts(s, seq!['.', '|', '.'], 0);
    crate::lexer::lemma_not_starts(s, seq!['.', '^', '.'], 0);
    crate::lexer::lemma_not_starts(s, seq!['.', '&', '.'], 0);
    crate::lexer::lemma_not_starts(s, seq!['=', '>'], 0);
    crate::lexer::lemma_not_starts(s, seq!['-', '>'], 0);
    crate::lexer::lemma_not_starts(s, seq!['=', '='], 0);
    crate::lexer::lemma_not_starts(s, seq!['!', '='], 0);
    crate::lexer::lemma_not_starts(s, seq!['<', '='], 0);
    crate::lexer::lemma_not_starts(s, seq!['>', '='], 0);
    crate::lexer::lemma_not_starts(s, seq!['<', '>'], 0);
    crate::lexer::lemma_not_starts(s, seq!['+', '+'], 0);
    crate::lexer::lemma_not_starts(s, seq!['<', '<'], 0);
    crate::lexer::lemma_not_starts(s, seq!['>', '>'], 0);
    crate::lexer::lemma_not_starts(s, seq!['&', '&'], 0);
    crate::lexer::lemma_not_starts(s, seq!['|', '|'], 0);
    crate::lexer::lemma_not_starts(s, seq!['<', '-'], 0);
}

proof fn lemma_operator_punctuation_16()
    ensures
        crate::lexer::first_punctuation(seq!['-'], 0, crate::lexer::punctuation_list(), 0) == 0,
{
    let s = seq!['-'];
    assert(crate::lexer::punctuation_list() =~= seq![seq!['<', '&', '>'], seq!['.', '|', '.'], seq!['.', '^', '.'], seq!['.', '&', '.'], seq!['=', '>'], seq!['-', '>'], seq!['=', '='], seq!['!', '='], seq!['<', '='], seq!['>', '='], seq!['<', '>'], seq!['+', '+'], seq!['<', '<'], seq!['>', '>'], seq!['&', '&'], seq!['|', '|'], seq!['<', '-']]);
    reveal_with_fuel(crate::lexer::first_punctuation, 18);
    crate::lexer::lemma_not_starts(s, seq!['<', '&', '>'], 0);
    crate::lexer::lemma_not_starts(s, seq!['.', '|', '.'], 0);
    crate::lexer::lemma_not_starts(s, seq!['.', '^', '.'], 0);
    crate::lexer::lemma_not_starts(s, seq!['.', '&', '.'], 0);
    crate::lexer::lemma_not_starts(s, seq!['=', '>'], 0);
    crate::lexer::lemma_not_starts(s, seq!['-', '>'], 0);
    crate::lexer::lemma_not_starts(s, seq!['=', '='], 0);
    crate::lexer::lemma_not_starts(s, seq!['!', '='], 0);
    crate::lexer::lemma_not_starts(s, seq!['<', '='], 0);
    crate::lexer::lemma_not_starts(s, seq!['>', '='], 0);
    crate::lexer::lemma_not_starts(s, seq!['<', '>'], 0);
    crate::lexer::lemma_not_starts(s, seq!['+', '+'], 0);
    crate::lexer::lemma_not_starts(s, seq!['<', '<'], 0);
    crate::lexer::lemma_not_starts(s, seq!['>', '>'], 0);
    crate::lexer::lemma_not_starts(s, seq!['&', '&'], 0);
    crate::lexer::lemma_not_starts(s, seq!['|', '|'], 0);
    crate::lexer::lemma_not_starts(s, seq!['<', '-'], 0);
}

proof fn lemma_operator_punctuation_17()
    ensures
        crate::lexer::first_punctuation(seq!['*'], 0, crate::lexer::punctuation_list(), 0) == 0,
{
    let s = seq!['*'];
    assert(crate::lexer::punctuation_list() =~= seq![seq!['<', '&', '>'], seq!['.', '|', '.'], seq!['.', '^', '.'], seq!['.', '&', '.'], seq!['=', '>'], seq!['-', '>'], seq!['=', '='], seq!['!', '='], seq!['<', '='], seq!['>', '='], seq!['<', '>'], seq!['+', '+'], seq!['<', '<'], seq!['>', '>'], seq!['&', '&'], seq!['|', '|'], seq!['<', '-']]);
    reveal_with_fuel(crate::lexer::first_punctuation, 18);
    crate::lexer::lemma_not_starts(s, seq!['<', '&', '>'], 0);
    crate::lexer::lemma_not_starts(s, seq!['.', '|', '.'], 0);
    crate::lexer::lemma_not_starts(s, seq!['.', '^', '.'], 0);
    crate::lexer::lemma_not_starts(s, seq!['.', '&', '.'], 0);
    crate::lexer::lemma_not_starts(s, seq!['=', '>'], 0);
    crate::lexer::lemma_not_starts(s, seq!['-', '>'], 0);
    crate::lexer::lemma_not_starts(s, seq!['=', '='], 0);
    crate::lexer::lemma_not_starts(s, seq!['!', '='], 0);
    crate::lexer::lemma_not_starts(s, seq!['<', '='], 0);
    crate::lexer::lemma_not_starts(s, seq!['>', '='], 0);
    crate::lexer::lemma_not_starts(s, seq!['<', '>'], 0);
    crate::lexer::lemma_not_starts(s, seq!['+', '+'], 0);
    crate::lexer::lemma_not_starts(s, seq!['<', '<'], 0);
    crate::lexer::lemma_not_starts(s, seq!['>', '>'], 0);
    crate::lexer::lemma_not_starts(s, seq!['&', '&'], 0);
    crate::lexer::lemma_not_starts(s, seq!['|', '|'], 0);
    crate::lexer::lemma_not_starts(s, seq!['<', '-'], 0);
}

proof fn lemma_operator_punctuation_18()
    ensures
        crate::lexer::first_punctuation(seq!['/'], 0, crate::lexer::punctuation_list(), 0) == 0,
{
    let s = seq!['/'];
    assert(crate::lexer::punctuation_list() =~= seq![seq!['<', '&', '>'], seq!['.', '|', '.'], seq!['.', '^', '.'], seq!['.', '&', '.'], seq!['=', '>'], seq!['-', '>'], seq!['=', '='], seq!['!', '='], seq!['<', '='], seq!['>', '='], seq!['<', '>'], seq!['+', '+'], seq!['<', '<'], seq!['>', '>'], seq!['&', '&'], seq!['|', '|'], seq!['<', '-']]);
    reveal_with_fuel(crate::lexer::first_punctuation, 18);
    crate::lexer::lemma_not_starts(s, seq!['<', '&', '>'], 0);
    crate::lexer::lemma_not_starts(s, seq!['.', '|', '.'], 0);
    crate::lexer::lemma_not_starts(s, seq!['.', '^', '.'], 0);
    crate::lexer::lemma_not_starts(s, seq!['.', '&', '.'], 0);
    crate::lexer::lemma_not_starts(s, seq!['=', '>'], 0);
    crate::lexer::lemma_not_starts(s, seq!['-', '>'], 0);
    crate::lexer::lemma_not_starts(s, seq!['=', '='], 0);
    crate::lexer::lemma_not_starts(s, seq!['!', '='], 0);
    crate::lexer::lemma_not_starts(s, seq!['<', '='], 0);
    crate::lexer::lemma_not_starts(s, seq!['>', '='], 0);
    crate::lexer::lemma_not_starts(s, seq!['<', '>'], 0);
    crate::lexer::lemma_not_starts(s, seq!['+', '+'], 0);
    crate::lexer::lemma_not_starts(s, seq!['<', '<'], 0);
    crate::lexer::lemma_not_starts(s, seq!['>', '>'], 0);
    crate::lexer::lemma_not_starts(s, seq!['&', '&'], 0);
    crate::lexer::lemma_not_starts(s, seq!['|', '|'], 0);
    crate::lexer::lemma_not_starts(s, seq!['<', '-'], 0);
}

proof fn lemma_operator_punctuation_19()
    ensures
        crate::lexer::first_punctuation(seq!['%'], 0, crate::lexer::punctuation_list(), 0) == 0,
{
    let s = seq!['%'];
    assert(crate::lexer::punctuation_list() =~= seq![seq!['<', '&', '>'], seq!['.', '|', '.'], seq!['.', '^', '.'], seq!['.', '&', '.'], seq!['=', '>'], seq!['-', '>'], seq!['=', '='], seq!['!', '='], seq!['<', '='], seq!['>', '='], seq!['<', '>'], seq!['+', '+'], seq!['<', '<'], seq!['>', '>'], seq!['&', '&'], seq!['|', '|'], seq!['<', '-']]);
    reveal_with_fuel(crate::lexer::first_punctuation, 18);
    crate::lexer::lemma_not_starts(s, seq!['<', '&', '>'], 0);
    crate::lexer::lemma_not_starts(s, seq!['.', '|', '.'], 0);
    crate::lexer::lemma_not_starts(s, seq!['.', '^', '.'], 0);
    crate::lexer::lemma_not_starts(s, seq!['.', '&', '.'], 0);
    crate::lexer::lemma_not_starts(s, seq!['=', '>'], 0);
    crate::lexer::lemma_not_starts(s, seq!['-', '>'], 0);
    crate::lexer::lemma_not_starts(s, seq!['=', '='], 0);
    crate::lexer::lemma_not_starts(s, seq!['!', '='], 0);
    crate::lexer::lemma_not_starts(s, seq!['<', '='], 0);
    crate::lexer::lemma_not_starts(s, seq!['>', '='], 0);
    crate::lexer::lemma_not_starts(s, seq!['<', '>'], 0);
    crate::lexer::lemma_not_starts(s, seq!['+', '+'], 0);
    crate::lexer::lemma_not_starts(s, seq!['<', '<'], 0);
    crate::lexer::lemma_not_starts(s, seq!['>', '>'], 0);
    crate::lexer::lemma_not_starts(s, seq!['&', '&'], 0);
    crate::lexer::lemma_not_starts(s, seq!['|', '|'], 0);
    crate::lexer::lemma_not_starts(s, seq!['<', '-'], 0);
}

proof fn lemma_operator_punctuation_20()
    ensures
        crate::lexer::first_punctuation(seq!['=', '>'], 0, crate::lexer::punctuation_list(), 0) == 2,
{
    let s = seq!['=', '>'];
    assert(crate::lexer::punctuation_list() =~= seq![seq!['<', '&', '>'], seq!['.', '|', '.'], seq!['.', '^', '.'], seq!['.', '&', '.'], seq!['=', '>'], seq!['-', '>'], seq!['=', '='], seq!['!', '='], seq!['<', '='], seq!['>', '='], seq!['<', '>'], seq!['+', '+'], seq!['<', '<'], seq!['>', '>'], seq!['&', '&'], seq!['|', '|'], seq!['<', '-']]);
    reveal_with_fuel(crate::lexer::first_punctuation, 18);
    crate::lexer::lemma_not_starts(s, seq!['<', '&', '>'], 0);
    crate::lexer::lemma_not_starts(s, seq!['.', '|', '.'], 0);
    crate::lexer::lemma_not_starts(s, seq!['.', '^', '.'], 0);
    crate::lexer::lemma_not_starts(s, seq!['.', '&', '.'], 0);
    assert(s.subrange(0, 2) =~= s);
}

proof fn lemma_operator_punctuation_21()
    ensures
        crate::lexer::first_punctuation(seq!['-', '>'], 0, crate::lexer::punctuation_list(), 0) == 2,
{
    let s = seq!['-', '>'];
    assert(crate::lexer::punctuation_list() =~= seq![seq!['<', '&', '>'], seq!['.', '|', '.'], seq!['.', '^', '.'], seq!['.', '&', '.'], seq!['=', '>'], seq!['-', '>'], seq!['=', '='], seq!['!', '='], seq!['<', '='], seq!['>', '='], seq!['<', '>'], seq!['+', '+'], seq!['<', '<'], seq!['>', '>'], seq!['&', '&'], seq!['|', '|'], seq!['<', '-']]);
    reveal_with_fuel(crate::lexer::first_punctuation, 18);
    crate::lexer::lemma_not_starts(s, seq!['<', '&', '>'], 0);
    crate::lexer::lemma_not_starts(s, seq!['.', '|', '.'], 0);
    crate::lexer::lemma_not_starts(s, seq!['.', '^', '.'], 0);
    crate::lexer::lemma_not_starts(s, seq!['.', '&', '.'], 0);
    crate::lexer::lemma_not_starts(s, seq!['=', '>'], 0);
    assert(s.subrange(0, 2) =~= s);
}

proof fn lemma_operator_punctuation_22()
    ensures
        crate::lexer::first_punctuation(seq!['=', '='], 0, crate::lexer::punctuation_list(), 0) == 2,
{
    let s = seq!['=', '='];
    assert(crate::lexer::punctuation_list() =~= seq![seq!['<', '&', '>'], seq!['.', '|', '.'], seq!['.', '^', '.'], seq!['.', '&', '.'], seq!['=', '>'], seq!['-', '>'], seq!['=', '='], seq!['!', '='], seq!['<', '='], seq!['>', '='], seq!['<', '>'], seq!['+', '+'], seq!['<', '<'], seq!['>', '>'], seq!['&', '&'], seq!['|', '|'], seq!['<', '-']]);
    reveal_with_fuel(crate::lexer::first_punctuation, 18);
    crate::lexer::lemma_not_starts(s, seq!['<', '&', '>'], 0);
    crate::lexer::lemma_not_starts(s, seq!['.', '|', '.'], 0);
    crate::lexer::lemma_not_starts(s, seq!['.', '^', '.'], 0);
    crate::lexer::lemma_not_starts(s, seq!['.', '&', '.'], 0);
    crate::lexer::lemma_not_starts(s, seq!['=', '>'], 1);
    crate::lexer::lemma_not_starts(s, seq!['-', '>'], 0);
    assert(s.subrange(0, 2) =~= s);
}

proof fn lemma_operator_punctuation_23()
    ensures
        crate::lexer::first_punctuation(seq!['!', '='], 0, crate::lexer::punctuation_list(), 0) == 2,
{
    let s = seq!['!', '='];
    assert(crate::lexer::punctuation_list() =~= seq![seq!['<', '&', '>'], seq!['.', '|', '.'], seq!['.', '^', '.'], seq!['.', '&', '.'], seq!['=', '>'], seq!['-', '>'], seq!['=', '='], seq!['!', '='], seq!['<', '='], seq!['>', '='], seq!['<', '>'], seq!['+', '+'], seq!['<', '<'], seq!['>', '>'], seq!['&', '&'], seq!['|', '|'], seq!['<', '-']]);
    reveal_with_fuel(crate::lexer::first_punctuation, 18);
    crate::lexer::lemma_not_starts(s, seq!['<', '&', '>'], 0);
    crate::lexer::lemma_not_starts(s, seq!['.', '|', '.'], 0);
    crate::lexer::lemma_not_starts(s, seq!['.', '^', '.'], 0);
    crate::lexer::lemma_not_starts(s, seq!['.', '&', '.'], 0);
    crate::lexer::lemma_not_starts(s, seq!['=', '>'], 0);
    crate::lexer::lemma_not_starts(s, seq!['-', '>'], 0);
    crate::lexer::lemma_not_starts(s, seq!['=', '='], 0);
    assert(s.subrange(0, 2) =~= s);
}

proof fn lemma_operator_punctuation_24()
    ensures
        crate::lexer::first_punctuation(seq!['<', '-'], 0, crate::lexer::punctuation_list(), 0) == 2,
{
    let s = seq!['<', '-'];
    assert(crate::lexer::punctuation_list() =~= seq![seq!['<', '&', '>'], seq!['.', '|', '.'], seq!['.', '^', '.'], seq!['.', '&', '.'], seq!['=', '>'], seq!['-', '>'], seq!['=', '='], seq!['!', '='], seq!['<', '='], seq!['>', '='], seq!['<', '>'], seq!['+', '+'], seq!['<', '<'], seq!['>', '>'], seq!['&', '&'], seq!['|', '|'], seq!['<', '-']]);
    reveal_with_fuel(crate::lexer::first_punctuation, 18);
    crate::lexer::lemma_not_starts(s, seq!['<', '&', '>'], 0);
    crate::lexer::lemma_not_starts(s, seq!['.', '|', '.'], 0);
    crate::lexer::lemma_not_starts(s, seq!['.', '^', '.'], 0);
    crate::lexer::lemma_not_starts(s, seq!['.', '&', '.'], 0);
    crate::lexer::lemma_not_starts(s, seq!['=', '>'], 0);
    crate::lexer::lemma_not_starts(s, seq!['-', '>'], 0);
    crate::lexer::lemma_not_starts(s, seq!['=', '='], 0);
    crate::lexer::lemma_not_starts(s, seq!['!', '='], 0);
    crate::lexer::lemma_not_starts(s, seq!['<', '='], 1);
    crate::lexer::lemma_not_starts(s, seq!['>', '='], 0);
    crate::lexer::lemma_not_starts(s, seq!['<', '>'], 1);
    crate::lexer::lemma_not_starts(s, seq!['+', '+'], 0);
    crate::lexer::lemma_not_starts(s, seq!['<', '<'], 1);
    crate::lexer::lemma_not_starts(s, seq!['>', '>'], 0);
    crate::lexer::lemma_not_starts(s, seq!['&', '&'], 0);
    crate::lexer::lemma_not_starts(s, seq!['|', '|'], 0);
    assert(s.subrange(0, 2) =~= s);
}

/// A binary operator is none of the marks that open other forms after an
/// expression.
proof fn lemma_operator_is_no_mark(s: Seq<char>)
    requires
        operator_table(s) is Some,
    ensures
        s != "!"@, s != "("@, s != "["@, s != "<"@, s != "=>"@, s != "->"@,
        "=>"@ != ">"@, "->"@ != ">"@,
{
    reveal_strlit("&");
    reveal_strlit("|");
    reveal_strlit("||");
    reveal_strlit("&&");
    reveal_strlit("<=");
    reveal_strlit(">=");
    reveal_strlit(">");
    reveal_strlit("<>");
    reveal_strlit("<&>");
    reveal_strlit("++");
    reveal_strlit(".|.");
    reveal_strlit(".^.");
    reveal_strlit(".&.");
    reveal_strlit("<<");
    reveal_strlit(">>");
    reveal_strlit("+");
    reveal_strlit("-");
    reveal_strlit("*");
    reveal_strlit("/");
    reveal_strlit("%");
    reveal_strlit("!");
    reveal_strlit("(");
    reveal_strlit("[");
    reveal_strlit("<");
    reveal_strlit("=>");
    reveal_strlit("->");
    assert("&"@.len() == 1 && "&"@[0] == '&');
    assert("|"@.len() == 1 && "|"@[0] == '|');
    assert("||"@.len() == 2 && "||"@[0] == '|' && "||"@[1] == '|');
    assert("&&"@.len() == 2 && "&&"@[0] == '&' && "&&"@[1] == '&');
    assert("<="@.len() == 2 && "<="@[0] == '<' && "<="@[1] == '=');
    assert(">="@.len() == 2 && ">="@[0] == '>' && ">="@[1] == '=');
    assert(">"@.len() == 1 && ">"@[0] == '>');
    assert("<>"@.len() == 2 && "<>"@[0] == '<' && "<>"@[1] == '>');
    assert("<&>"@.len() == 3 && "<&>"@[0] == '<' && "<&>"@[1] == '&');
    assert("++"@.len() == 2 && "++"@[0] == '+' && "++"@[1] == '+');
    assert(".|."@.len() == 3 && ".|."@[0] == '.' && ".|."@[1] == '|');
    assert(".^."@.len() == 3 && ".^."@[0] == '.' && ".^."@[1] == '^');
    assert(".&."@.len() == 3 && ".&."@[0] == '.' && ".&."@[1] == '&');
    assert("<<"@.len() == 2 && "<<"@[0] == '<' && "<<"@[1] == '<');
    assert(">>"@.len() == 2 && ">>"@[0] == '>' && ">>"@[1] == '>');
    assert("+"@.len() == 1 && "+"@[0] == '+');
    assert("-"@.len() == 1 && "-"@[0] == '-');
    assert("*"@.len() == 1 && "*"@[0] == '*');
    assert("/"@.len() == 1 && "/"@[0] == '/');
    assert("%"@.len() == 1 && "%"@[0] == '%');
    assert("!"@.len() == 1 && "!"@[0] == '!');
    assert("("@.len() == 1 && "("@[0] == '(');
    assert("["@.len() == 1 && "["@[0] == '[');
    assert("<"@.len() == 1 && "<"@[0] == '<');
    assert("=>"@.len() == 2 && "=>"@[0] == '=' && "=>"@[1] == '>');
    assert("->"@.len() == 2 && "->"@[0] == '-' && "->"@[1] == '>');
}

/// The binding power, right associativity and method of a binary operator.
pub fn operator(op: &str) -> (r: Option<(u8, bool, &'static str)>)
    ensures
        match operator_table(op@) {
            Some((p, right, method)) => r matches Some((q, a, m)) && q == p && a == right && m@ == method,
            None => r is None,
        },
{
    if str_eq(op, "&") {
        Some((1, true, "Pair"))
    } else if str_eq(op, "|") {
        Some((1, true, "Or"))
    } else if str_eq(op, "||") {
        Some((2, false, "Bool.or"))
    } else if str_eq(op, "&&") {
        Some((3, false, "Bool.and"))
    } else if str_eq(op, "<=") {
        Some((4, false, ".is_le"))
    } else if str_eq(op, ">=") {
        Some((4, false, ".is_ge"))
    } else if str_eq(op, ">") {
        Some((4, false, ".is_gt"))
    } else if str_eq(op, "<>") || str_eq(op, "<&>") {
        Some((5, true, ""))
    } else if str_eq(op, "++") {
        Some((5, true, "String.append"))
    } else if str_eq(op, ".|.") {
        Some((6, false, ".or"))
    } else if str_eq(op, ".^.") {
        Some((7, false, ".xor"))
    } else if str_eq(op, ".&.") {
        Some((8, false, ".and"))
    } else if str_eq(op, "<<") {
        Some((9, false, ".shln"))
    } else if str_eq(op, ">>") {
        Some((9, false, ".shrn"))
    } else if str_eq(op, "+") {
        Some((10, false, ".add"))
    } else if str_eq(op, "-") {
        Some((10, false, ".sub"))
    } else if str_eq(op, "*") {
        Some((11, false, ".mul"))
    } else if str_eq(op, "/") {
        Some((11, false, ".div"))
    } else if str_eq(op, "%") {
        Some((11, false, ".mod"))
    } else {
        None
    }
}

/// The array of `Array.set(T, xs, i, v)` where it is a variable.
pub open spec fn array_write_target(value: Term) -> Option<TermRef> {
    if let Term::App(f3, _) = value {
        if let Term::App(f2, _) = *f3 {
            if let Term::App(f1, array) = *f2 {
                if let Term::App(head, _) = *f1 {
                    if (*head matches Term::Ref(n) && n@ == "Array.set"@) && *array is Var {
                        Some(array)
                    } else {
                        None
                    }
                } else {
                    None
                }
            } else {
                None
            }
        } else {
            None
        }
    } else {
        None
    }
}

/// The array variable of `Array.set(T, xs, i, v)` written as a statement.
pub fn array_write_binder(value: &TermRef) -> (r: Option<TermRef>)
    ensures
        match array_write_target(**value) {
            Some(a) => r == Some(a),
            None => r is None,
        },
{
    if let Term::App(set_with_index, _) = &**value {
        if let Term::App(set_with_array, _) = &**set_with_index {
            if let Term::App(set_with_type, array) = &**set_with_array {
                if let Term::App(head, _) = &**set_with_type {
                    let is_set = match &**head {
                        Term::Ref(name) => str_eq(name.as_str(), "Array.set"),
                        _ => false,
                    };
                    let is_var = match &**array {
                        Term::Var { .. } => true,
                        _ => false,
                    };
                    if is_set && is_var {
                        return Some(share(array));
                    }
                }
            }
        }
    }
    None
}

/// The characters between the quotes of a literal token.
pub open spec fn literal_inner(raw: Seq<char>) -> Seq<char> {
    if raw.len() >= 2 {
        raw.subrange(1, raw.len() - 1)
    } else {
        Seq::empty()
    }
}

/// The character that a one-letter escape stands for.
pub open spec fn simple_escape(e: char) -> Option<char> {
    if e == 'n' {
        Some('\n')
    } else if e == 't' {
        Some('\t')
    } else if e == 'r' {
        Some('\r')
    } else if e == '0' {
        Some('\0')
    } else if e == '\\' {
        Some('\\')
    } else if e == '\'' {
        Some('\'')
    } else if e == '"' {
        Some('"')
    } else {
        None
    }
}

/// The index of the first `}` at or after `at`, or -1 where there is none.
pub open spec fn closing_brace(cs: Seq<char>, at: int) -> int
    decreases cs.len() - at,
{
    if 0 <= at < cs.len() {
        if cs[at] == '}' {
            at
        } else {
            closing_brace(cs, at + 1)
        }
    } else {
        -1
    }
}

pub proof fn lemma_closing_brace(cs: Seq<char>, at: int)
    requires
        0 <= at,
    ensures
        closing_brace(cs, at) == -1 || (at <= closing_brace(cs, at) < cs.len() && cs[closing_brace(cs, at)] == '}'),
        closing_brace(cs, at) == -1 ==> forall|j: int| at <= j < cs.len() ==> cs[j] != '}',
        closing_brace(cs, at) != -1 ==> forall|j: int| at <= j < closing_brace(cs, at) ==> cs[j] != '}',
    decreases cs.len() - at,
{
    if at < cs.len() && cs[at] != '}' {
        lemma_closing_brace(cs, at + 1);
    }
}

/// `c` before what `rest` decodes to; a failure stays a failure.
pub open spec fn decoded_after(c: Seq<char>, rest: Result<Seq<char>, (Seq<char>, bool)>) -> Result<Seq<char>, (Seq<char>, bool)> {
    match rest {
        Ok(more) => Ok(c + more),
        Err(e) => Err(e),
    }
}

/// What the literal characters `cs` from index `i` decode to: the
/// characters, or the message of the first bad escape. The flag says whether
/// the message is the whole text (true) or only its start, where the text
/// that `u32::from_str_radix` gives for a bad number follows.
pub open spec fn decode_from(cs: Seq<char>, i: int) -> Result<Seq<char>, (Seq<char>, bool)>
    decreases cs.len() - i,
{
    if !(0 <= i < cs.len()) {
        Ok(seq![])
    } else if cs[i] != '\\' {
        decoded_after(seq![cs[i]], decode_from(cs, i + 1))
    } else if i + 1 >= cs.len() {
        Err(("unfinished escape"@, true))
    } else if let Some(c) = simple_escape(cs[i + 1]) {
        decoded_after(seq![c], decode_from(cs, i + 2))
    } else if cs[i + 1] == 'u' {
        if i + 2 >= cs.len() || cs[i + 2] != '{' {
            Err(("Unicode escape needs braces"@, true))
        } else {
            let j = closing_brace(cs, i + 3);
            proof {
                lemma_closing_brace(cs, i + 3);
            }
            if j < 0 {
                Err(("unfinished Unicode escape"@, true))
            } else {
                match hex_number(cs.subrange(i + 3, j)) {
                    None => Err(("invalid Unicode escape: "@, false)),
                    Some(u) => if scalar(u) {
                        decoded_after(seq![u as char], decode_from(cs, j + 1))
                    } else {
                        Err(("invalid Unicode code point"@, true))
                    },
                }
            }
        }
    } else {
        Err(("unknown escape: \\"@ + seq![cs[i + 1]], true))
    }
}

proof fn lemma_decoded_after(a: Seq<char>, b: Seq<char>, rest: Result<Seq<char>, (Seq<char>, bool)>)
    ensures
        decoded_after(a, decoded_after(b, rest)) == decoded_after(a + b, rest),
{
    match rest {
        Ok(more) => {
            assert(a + (b + more) =~= (a + b) + more);
        },
        Err(_) => {},
    }
}

fn escape_error(escape: char) -> (r: String)
    ensures
        r@ == "unknown escape: \\"@ + seq![escape],
{
    let mut cs: Vec<char> = chars_of("unknown escape: \\");
    cs.push(escape);
    string_of(cs.as_slice())
}

/// The characters that a string or character literal denotes, with `\n`,
/// `\t`, `\r`, `\0`, `\\`, `\'`, `\"` and `\u{hex}` escapes decoded: those of
/// `decode_from` over the characters between the quotes.
pub fn decode_literal(raw: &str) -> (r: Result<Vec<char>, String>)
    ensures
        match decode_from(literal_inner(raw@), 0) {
            Ok(out) => r matches Ok(v) && v@ == out,
            Err((m, true)) => r matches Err(e) && e@ == m,
            Err((m, false)) => r matches Err(e) && m.is_prefix_of(e@),
        },
{
    let all = chars_of(raw);
    let cs: Vec<char> = if all.len() >= 2 {
        crate::text::chars_between(&all, 1, all.len() - 1)
    } else {
        Vec::new()
    };
    let ghost inner = literal_inner(raw@);
    assert(cs@ == inner);
    let n = cs.len();
    let mut out: Vec<char> = Vec::new();
    let mut i: usize = 0;
    proof {
        match decode_from(inner, 0) {
            Ok(o) => assert(Seq::<char>::empty() + o =~= o),
            Err(_) => {},
        }
    }
    while i < n
        invariant
            n == cs@.len(),
            cs@ == inner,
            inner == literal_inner(raw@),
            i <= n,
            decode_from(inner, 0) == decoded_after(out@, decode_from(inner, i as int)),
        decreases n - i,
    {
        let c = cs[i];
        let ghost before = out@;
        if c != '\\' {
            proof {
                assert(decode_from(inner, i as int) == decoded_after(seq![c], decode_from(inner, i + 1)));
                lemma_decoded_after(out@, seq![c], decode_from(inner, i + 1));
            }
            out.push(c);
            proof {
                assert(out@ =~= before + seq![c]);
            }
            i = i + 1;
            continue;
        }
        if i + 1 >= n {
            return Err("unfinished escape".to_owned());
        }
        let escape = cs[i + 1];
        let simple = if escape == 'n' {
            Some('\n')
        } else if escape == 't' {
            Some('\t')
        } else if escape == 'r' {
            Some('\r')
        } else if escape == '0' {
            Some('\0')
        } else if escape == '\\' {
            Some('\\')
        } else if escape == '\'' {
            Some('\'')
        } else if escape == '"' {
            Some('"')
        } else {
            None
        };
        let ghost at = i as int;
        assert(simple == simple_escape(escape));
        let decoded = match simple {
            Some(d) => {
                proof {
                    assert(decode_from(inner, at) == decoded_after(seq![d], decode_from(inner, at + 2)));
                    lemma_decoded_after(out@, seq![d], decode_from(inner, i + 2));
                }
                i = i + 2;
                d
            },
            None => {
                if escape != 'u' {
                    return Err(escape_error(escape));
                }
                if i + 2 >= n || cs[i + 2] != '{' {
                    return Err("Unicode escape needs braces".to_owned());
                }
                let open = i + 3;
                let mut j = open;
                proof {
                    lemma_closing_brace(inner, open as int);
                }
                while j < n && cs[j] != '}'
                    invariant
                        open <= j <= n,
                        n == cs@.len(),
                        cs@ == inner,
                        closing_brace(inner, j as int) == closing_brace(inner, open as int),
                    decreases n - j,
                {
                    j = j + 1;
                }
                if j >= n {
                    return Err("unfinished Unicode escape".to_owned());
                }
                let text = string_of(vstd::slice::slice_subrange(cs.as_slice(), open, j));
                let u = match crate::text::parse_hex_u32(text.as_str()) {
                    Err(e) => {
                        let message = prefixed("invalid Unicode escape: ", e.as_str());
                        proof {
                            assert("invalid Unicode escape: "@.is_prefix_of(message@)) by {
                                assert(message@.subrange(0, "invalid Unicode escape: "@.len() as int) =~= "invalid Unicode escape: "@);
                            }
                        }
                        return Err(message);
                    },
                    Ok(u) => u,
                };
                let d = match crate::text::char_from_u32(u) {
                    Some(ch) => ch,
                    None => {
                        return Err("invalid Unicode code point".to_owned());
                    },
                };
                proof {
                    assert(text@ =~= inner.subrange(open as int, j as int));
                    assert(closing_brace(inner, open as int) == j);
                    assert(d == u as char);
                    assert(decode_from(inner, at) == decoded_after(seq![d], decode_from(inner, j + 1)));
                    lemma_decoded_after(out@, seq![d], decode_from(inner, j + 1));
                }
                i = j + 1;
                d
            },
        };
        out.push(decoded);
        proof {
            assert(out@ =~= before + seq![decoded]);
        }
    }
    proof {
        assert(out@ + seq![] =~= out@);
    }
    Ok(out)
}

/// Whether `n` is a power of two.
pub fn is_power_of_two(n: u32) -> (r: bool)
    ensures
        r == (n != 0 && n & sub_one(n) == 0),
{
    n != 0 && n & (n - 1) == 0
}

pub open spec fn sub_one(n: u32) -> u32 {
    if n == 0 { 0 } else { (n - 1) as u32 }
}

/// The position of the highest set bit of a nonzero word.
pub fn ilog2(n: u32) -> (r: u32)
    requires
        n != 0,
    ensures
        r < 32,
        r < 31 ==> r == bits_left(n),
{
    let mut v = n;
    let mut r: u32 = 0;
    while v > 1 && r < 31
        invariant
            r <= 31,
            v >= 1,
            r + bits_left(v) == bits_left(n),
        decreases v,
    {
        proof {
            lemma_bits_left_half(v);
        }
        v = v / 2;
        r = r + 1;
    }
    r
}

/// How many times a positive word can be halved before it reaches 1.
pub open spec fn bits_left(v: u32) -> nat
    decreases v,
{
    if v <= 1 { 0 } else { 1 + bits_left(v / 2) }
}

proof fn lemma_bits_left_half(v: u32)
    requires
        v > 1,
    ensures
        bits_left(v) == 1 + bits_left(v / 2),
{
}

impl<'f> Parser<'f> {
    /// Compile a body with `flatten`, locating a failure at the current token.
    fn flattened(&mut self, body: &Body, vars: &Vec<Variable>) -> (r: Result<TermRef, ParseError>)
        requires
            old(self).wf(),
        ensures
            final(self).follows(old(self)),
            final(self).at == old(self).at,
            final(self).tokens == old(self).tokens,
            body matches Body::Reply(v) ==> r matches Ok(t) && *t == crate::surface::lambdas(vars@, **v),
            r matches Err(e) ==> e.source == old(self).label && e.line == old(self).tokens@[old(self).at as int].line,
    {
        let mut fresh = self.fresh;
        let result = flatten(body, vars, &mut fresh);
        self.fresh = fresh;
        match result {
            Ok(t) => Ok(t),
            Err(e) => Err(self.error(e)),
        }
    }

    /// The column of the current token, less one.
    fn column_before(&self) -> (r: usize)
        requires
            self.wf(),
        ensures
            r == (if self.tokens@[self.at as int].column > 0 { self.tokens@[self.at as int].column - 1 } else { 0 }),
    {
        let c = self.tokens[self.at].column;
        if c > 0 { c - 1 } else { 0 }
    }

    /// A binder list up to `close`: `~` compile-time binders (in
    /// parentheses only), quantities, names and types. A plain binder
    /// without a type ranges over quantities.
    fn telescope(&mut self, close: &str) -> (r: Result<Vec<Binder>, ParseError>)
        requires
            old(self).wf(),
        ensures
            final(self).follows(old(self)),
            r matches Ok(bs) ==> bs@.len() <= LIST_LIMIT,
            old(self).takes(close@) ==> (r matches Ok(bs) && bs@.len() == 0),
        decreases MAX_SPECIALIZATION_DEPTH - old(self).templates.active, PARSE_DEPTH - old(self).depth, 1int,
    {
        let mut binders: Vec<Binder> = Vec::new();
        loop
            invariant_except_break
                binders@.len() == 0 ==> *self == *old(self),
            invariant
                self.follows(old(self)),
                binders@.len() <= LIST_LIMIT,
                binders@.len() > 0 ==> !old(self).takes(close@),
            ensures
                old(self).takes(close@) ==> binders@.len() == 0,
            decreases LIST_LIMIT - binders@.len(),
        {
            if self.take(close) {
                break;
            }
            if binders.len() >= LIST_LIMIT {
                return self.fail("binder telescope exceeds the parser resource limit of 128");
            }
            let compile_time = str_eq(close, ")") && self.take("~");
            let quant = if compile_time {
                Quant::Erased
            } else {
                self.quant()
            };
            let name = self.name()?;
            let typed = self.take(":");
            let (quant, ty) = if typed {
                let ty = self.expression(0)?;
                (quant, ty)
            } else if quant == Quant::Lone {
                (Quant::Erased, term(Term::Qnt))
            } else {
                return self.fail("expected a type after a quantified binder");
            };
            let variable = self.open(name.clone());
            if compile_time && self.instance_arguments.len() > 0 {
                let argument = self.instance_arguments.remove(0);
                bind_compile(&mut self.compile_bindings, variable.id, argument);
            }
            binders.push(Binder { quant, name, id: variable.id, ty });
            let _ = self.take(",");
        }
        Ok(binders)
    }

    /// One expression whose operators bind at least as tightly as `min`.
    fn expression(&mut self, min: u8) -> (r: Result<TermRef, ParseError>)
        requires
            old(self).wf(),
        ensures
            final(self).follows(old(self)),
            r is Ok ==> final(self).progressed(old(self)),
            r matches Ok(v) ==> height(*v) <= TERM_DEPTH,
            old(self).lone_nat() && old(self).depth < PARSE_DEPTH ==> (r matches Ok(t) && succ_chain(
                *t,
                crate::text::digits_value(old(self).text().drop_last()),
            )),
            old(self).lone_nat() && old(self).depth < PARSE_DEPTH ==> final(self).at + 1 == final(self).tokens@.len(),
            old(self).lone_numeral() && old(self).depth < PARSE_DEPTH ==> (r is Ok <==> crate::text::digits_value(old(self).text())
                <= u32::MAX),
            old(self).lone_numeral() && old(self).depth < PARSE_DEPTH ==> (r matches Ok(t) ==> crate::term::is_u32(
                *t,
                crate::text::digits_value(old(self).text()) as u32,
            ) && final(self).at + 1 == final(self).tokens@.len()),
            old(self).numeral_then_digit() && old(self).depth < PARSE_DEPTH ==> (r is Ok && final(self).at == old(self).at + 1
                && final(self).tokens == old(self).tokens),
            old(self).lone_numeral() && old(self).depth < PARSE_DEPTH ==> (r is Ok ==> final(self).tokens == old(self).tokens),
            old(self).numeral_then_looser(min) && old(self).depth < PARSE_DEPTH ==> (r matches Ok(t) && crate::term::is_u32(
                *t,
                crate::text::digits_value(old(self).text()) as u32,
            ) && final(self).at == old(self).at + 1 && final(self).tokens == old(self).tokens),
            old(self).numeral_chain() && min == 0 && old(self).depth + 1 < PARSE_DEPTH ==> (r matches Ok(t) && left_chain(
                *t,
                operator_method(old(self).tokens@[old(self).at + 1].text@),
                old(self).value_at(0),
                old(self).value_at(2),
                old(self).value_at(4),
            ) && final(self).at + 1 == final(self).tokens@.len() && final(self).tokens == old(self).tokens),
        decreases MAX_SPECIALIZATION_DEPTH - old(self).templates.active, PARSE_DEPTH - old(self).depth, 0int,
    {
        if self.depth >= PARSE_DEPTH {
            return self.fail("expression nesting exceeds the parser resource limit of 64");
        }
        self.depth = self.depth + 1;
        let result = self.expression_inner(min);
        self.depth = self.depth - 1;
        proof {
            if old(self).lone_nat() && old(self).depth < PARSE_DEPTH {
                if result is Ok {
                    lemma_succ_chain_height(result->Ok_0, crate::text::digits_value(old(self).text().drop_last()));
                }
            }
            if old(self).numeral_chain() && min == 0 && old(self).depth + 1 < PARSE_DEPTH {
                if result is Ok {
                    lemma_left_chain_height(
                        result->Ok_0,
                        operator_method(old(self).tokens@[old(self).at + 1].text@),
                        old(self).value_at(0),
                        old(self).value_at(2),
                        old(self).value_at(4),
                    );
                }
            }
            if (old(self).lone_numeral() || old(self).numeral_then_digit() || old(self).numeral_then_looser(min)) && old(self).depth
                < PARSE_DEPTH {
                if result is Ok {
                    lemma_u32_height(result->Ok_0, crate::text::digits_value(old(self).text()) as u32);
                }
            }
        }
        match result {
            Ok(value) => if within_term_depth(&value, TERM_DEPTH) {
                Ok(value)
            } else {
                self.fail("term depth exceeds the parser resource limit of 256")
            },
            Err(e) => Err(e),
        }
    }

    /// An atom followed by calls, indexing, type arguments, lambdas, arrows
    /// and binary operators, by precedence climbing.
    fn expression_inner(&mut self, min: u8) -> (r: Result<TermRef, ParseError>)
        requires
            old(self).wf(),
        ensures
            final(self).follows(old(self)),
            r is Ok ==> final(self).progressed(old(self)),
            old(self).lone_nat() ==> (r matches Ok(t) && succ_chain(*t, crate::text::digits_value(old(self).text().drop_last()))),
            old(self).lone_nat() ==> final(self).at + 1 == final(self).tokens@.len(),
            old(self).lone_numeral() ==> (r is Ok <==> crate::text::digits_value(old(self).text()) <= u32::MAX),
            old(self).lone_numeral() ==> (r matches Ok(t) ==> crate::term::is_u32(*t, crate::text::digits_value(old(self).text()) as u32)
                && final(self).at + 1 == final(self).tokens@.len() && final(self).tokens == old(self).tokens),
            old(self).numeral_then_digit() ==> (r matches Ok(t) && crate::term::is_u32(*t, crate::text::digits_value(old(self).text()) as u32)
                && final(self).at == old(self).at + 1 && final(self).tokens == old(self).tokens),
            old(self).numeral_then_looser(min) ==> (r matches Ok(t) && crate::term::is_u32(
                *t,
                crate::text::digits_value(old(self).text()) as u32,
            ) && final(self).at == old(self).at + 1 && final(self).tokens == old(self).tokens),
            old(self).numeral_chain() && min == 0 && old(self).depth < PARSE_DEPTH ==> (r matches Ok(t) && left_chain(
                *t,
                operator_method(old(self).tokens@[old(self).at + 1].text@),
                old(self).value_at(0),
                old(self).value_at(2),
                old(self).value_at(4),
            ) && final(self).at + 1 == final(self).tokens@.len() && final(self).tokens == old(self).tokens),
        decreases MAX_SPECIALIZATION_DEPTH - old(self).templates.active, PARSE_DEPTH - old(self).depth, 4int,
    {
        let ghost lone = old(self).lone_nat();
        let ghost n = crate::text::digits_value(old(self).text().drop_last());
        let ghost numeral = old(self).lone_numeral();
        let ghost v = crate::text::digits_value(old(self).text());
        let ghost pair = old(self).numeral_then_digit();
        let ghost looser = old(self).numeral_then_looser(min);
        let ghost chain = old(self).numeral_chain() && min == 0 && old(self).depth < PARSE_DEPTH;
        let ghost a0 = old(self).at as int;
        let ghost opt = old(self).tokens@[a0 + 1].text@;
        let ghost m = operator_method(opt);
        let ghost v0 = old(self).value_at(0);
        let ghost v1 = old(self).value_at(2);
        let ghost v2 = old(self).value_at(4);
        proof {
            if chain {
                let t = self.text();
                assert(t.last() == t[t.len() - 1]);
                assert('0' <= t[t.len() - 1] <= '9');
                law_operator_associativity(opt);
                lemma_operator_is_no_mark(opt);
                reveal_strlit("+");
                reveal_strlit("-");
                reveal_strlit("*");
                reveal_strlit("/");
                reveal_strlit("%");
                reveal_strlit("<&>");
                reveal_strlit("<>");
                assert(opt.len() == 1 && opt[0] != '>' && opt[0] != '%');
                assert(opt != "%"@ && opt != "<&>"@ && opt != "<>"@) by {
                    assert("%"@[0] == '%');
                }
            }
            if numeral || pair || looser {
                let t = self.text();
                assert(t.last() == t[t.len() - 1]);
                assert('0' <= t[t.len() - 1] <= '9');
            }
            if lone {
                let t = self.text();
                assert(t.drop_last()[0] == t[0]);
                assert('0' <= t.drop_last()[0] <= '9');
                assert(spec_digit_start(t));
                assert(!self.plus_follows());
            }
        }
        let mut out = self.atom()?;
        proof {
            if lone || numeral {
                assert(self.text().len() == 0);
                lemma_end_is_no_operator(self.text());
            }
            if pair {
                lemma_digit_is_no_operator(self.text());
            }
            if looser {
                lemma_operator_is_no_mark(self.text());
            }
        }
        let mut operations: usize = 0;
        loop
            invariant_except_break
                lone ==> operations == 0,
                numeral ==> operations == 0,
                pair ==> operations == 0,
                looser ==> operations == 0,
                chain ==> (self.at == a0 + 1 ==> operations == 0) && (self.at == a0 + 3 ==> operations == 1) && (self.at
                    == a0 + 5 ==> operations == 2),
            invariant
                chain == (old(self).numeral_chain() && min == 0 && old(self).depth < PARSE_DEPTH),
                a0 == old(self).at as int,
                opt == old(self).tokens@[a0 + 1].text@,
                m == operator_method(opt),
                v0 == old(self).value_at(0) && v1 == old(self).value_at(2) && v2 == old(self).value_at(4),
                chain ==> self.tokens == old(self).tokens && self.depth == old(self).depth && operations <= 3,
                chain ==> (operator_table(opt) matches Some((p, right, mm)) && !right && (p == 10 || p == 11) && mm == m),
                chain ==> opt.len() == 1 && opt != "%"@ && opt != "<&>"@ && opt != "<>"@ && opt[0] != '>',
                chain ==> opt != "!"@ && opt != "("@ && opt != "["@ && opt != "<"@ && opt != "=>"@ && opt != "->"@
                    && "=>"@ != ">"@ && "->"@ != ">"@,
                chain ==> (self.at == a0 + 1 && crate::term::is_u32(*out, v0)) || (self.at == a0 + 3 && (binary_parts(*out)
                    matches Some((m1, l, r)) && m1 == m && crate::term::is_u32(*l, v0) && crate::term::is_u32(*r, v1))) || (
                self.at == a0 + 5 && left_chain(*out, m, v0, v1, v2)),
                looser == old(self).numeral_then_looser(min),
                looser ==> crate::term::is_u32(*out, v as u32) && self.at == old(self).at + 1 && self.tokens == old(self).tokens
                    && (operator_table(self.text()) matches Some((p, _, _)) && p < min),
                looser ==> self.text() != "!"@ && self.text() != "("@ && self.text() != "["@ && self.text() != "<"@
                    && self.text() != "=>"@ && self.text() != "->"@ && "=>"@ != ">"@ && "->"@ != ">"@,
                pair == old(self).numeral_then_digit(),
                pair ==> crate::term::is_u32(*out, v as u32) && self.at == old(self).at + 1 && self.tokens == old(self).tokens
                    && operator_table(self.text()) is None,
                pair ==> self.text() != "!"@ && self.text() != "("@ && self.text() != "["@ && self.text() != "<"@
                    && self.text() != "=>"@ && self.text() != "->"@,
                numeral == old(self).lone_numeral(),
                v == crate::text::digits_value(old(self).text()),
                numeral ==> crate::term::is_u32(*out, v as u32) && v <= u32::MAX && self.at + 1 == self.tokens@.len()
                    && self.text().len() == 0 && operator_table(self.text()) is None && self.tokens == old(self).tokens,
                numeral ==> self.text() != "!"@ && self.text() != "("@ && self.text() != "["@ && self.text() != "<"@,
                self.progressed(old(self)),
                operations <= 257,
                lone == old(self).lone_nat(),
                n == crate::text::digits_value(old(self).text().drop_last()),
                lone ==> succ_chain(*out, n) && self.at + 1 == self.tokens@.len() && self.text().len() == 0
                    && operator_table(self.text()) is None,
                lone ==> self.text() != "!"@ && self.text() != "("@ && self.text() != "["@ && self.text() != "<"@,
            ensures
                chain ==> self.at == a0 + 5,
            decreases 257 - operations,
        {
            operations = operations + 1;
            if operations > 256 {
                return self.fail("expression spine exceeds the parser resource limit of 256");
            }
            proof {
                if chain {
                    if self.at == a0 + 5 {
                        assert(self.text().len() == 0);
                        lemma_end_is_no_operator(self.text());
                    } else {
                        assert(self.text() == opt);
                        let next = self.tokens@[self.at + 1].text@;
                        assert(numeral_token(next));
                        assert(!spec_name_start(next));
                    }
                }
            }
            let same_line = self.same_line();
            if self.is("!") {
                return self.fail("GPU offload calls (!) are not supported by this Rust implementation yet");
            }
            if self.is("(") && same_line {
                self.bump();
                out = self.call(out)?;
                continue;
            }
            if self.is("[") && same_line {
                self.bump();
                let index = self.expression(0)?;
                self.expect("]")?;
                let index = qualify_operators(&index, "U32");
                if self.take("<-") {
                    let value = self.expression(2)?;
                    out = apply(term(Term::Ref("Array.set".to_owned())), vec![term(Term::Ref("U32".to_owned())), out, index, value]);
                } else {
                    out = apply(term(Term::Ref("Array.get".to_owned())), vec![term(Term::Ref("U32".to_owned())), out, index]);
                }
                continue;
            }
            if self.is("<") && (min <= 4 || self.glued()) {
                self.bump();
                let first = self.expression(5)?;
                if self.is(">") || self.is(">>") || self.is(",") {
                    let head = match &*out {
                        Term::Ref(n) => Some(self.resolve(n.as_str())),
                        Term::Var { name, .. } => Some(self.resolve(name.as_str())),
                        _ => None,
                    };
                    let name = match head {
                        Some(n) => n,
                        None => {
                            return self.fail("type arguments require a datatype name");
                        },
                    };
                    let mut args: Vec<TermRef> = vec![first];
                    if !self.take(">") {
                        self.expect(",")?;
                        let mut more = self.arguments(">")?;
                        args.append(&mut more);
                    }
                    if let Some(k) = find_datatype(&self.book, name.as_str()) {
                        if let Declaration::Adt(adt) = &self.book.declarations[k] {
                            let quantities = leading_quantities(&adt.parameters);
                            if args.len() <= adt.parameters.len() && adt.parameters.len() - args.len() == quantities {
                                args = prepend_quantities(quantities, args, Quant::Lone);
                            }
                        }
                    }
                    out = term(Term::Adt { name, args, excluded: Vec::new() });
                } else {
                    out = apply(term(Term::Ref(".is_lt".to_owned())), vec![out, first]);
                }
                continue;
            }
            if min == 0 && self.take("=>") {
                if self.is_compile_binding(&out) {
                    return self.fail("a template argument cannot be rebound as a lambda binder");
                }
                let binder = match &*out {
                    Term::Ref(n) => Some(n.clone()),
                    Term::Var { name, .. } => Some(name.clone()),
                    _ => None,
                };
                let name = match binder {
                    Some(n) => n,
                    None => {
                        return self.fail("a lambda binder must be one name");
                    },
                };
                let old_len = self.scope.len();
                let reusable = self.is_reusable(&out);
                let v = self.bind_variable(name, reusable);
                let column = self.column_before();
                let body = self.body(column)?;
                let vars = vec![v];
                out = self.flattened(&body, &vars)?;
                self.scope.truncate(old_len);
                continue;
            }
            if min == 0 && self.take("->") {
                let body = self.expression(0)?;
                let v = self.fresh_variable("_".to_owned());
                out = term(Term::All { quant: Quant::Lone, name: v.name, id: v.id, domain: out, body });
                continue;
            }
            let op_info = operator(self.tokens[self.at].text.as_str());
            let (prec, right, method) = match op_info {
                Some(info) => info,
                None => {
                    break;
                },
            };
            if prec < min {
                break;
            }
            if crate::text::starts_with_char(self.tokens[self.at].text.as_str(), '>') && self.glued() {
                break;
            }
            if (self.is("+") || self.is("-")) && self.next_glued() && self.next_starts_name() {
                break;
            }
            if self.is("%") && self.next_glued() {
                break;
            }
            let ghost before = *self;
            let op = self.bump();
            proof {
                if chain {
                    assert(op@ == opt);
                    assert(self.at == before.at + 1);
                    if self.at == a0 + 2 {
                        let t = self.text();
                        assert(t.last() == t[t.len() - 1]);
                        assert('0' <= t[t.len() - 1] <= '9');
                        assert(self.numeral_then_looser((prec + 1) as u8));
                    } else {
                        assert(self.at == a0 + 4);
                        assert(self.lone_numeral());
                    }
                }
            }
            let ghost mid = *self;
            let b = self.expression(if right { prec } else { prec + 1 })?;
            proof {
                if chain {
                    if mid.at == a0 + 2 {
                        assert(crate::term::is_u32(*b, v1));
                        assert(self.at == a0 + 3);
                    } else {
                        assert(crate::term::is_u32(*b, v2));
                        assert(self.at == a0 + 5);
                    }
                    reveal_with_fuel(crate::term::applied, 3);
                }
            }
            out = if str_eq(op.as_str(), "<&>") {
                term(Term::Min(out, b))
            } else if str_eq(op.as_str(), "<>") {
                term(Term::Ctr { name: "Con".to_owned(), args: vec![out, b] })
            } else {
                apply(term(Term::Ref(method.to_owned())), vec![out, b])
            };
        }
        Ok(out)
    }

    /// Expressions separated by optional commas up to `close`.
    fn arguments(&mut self, close: &str) -> (r: Result<Vec<TermRef>, ParseError>)
        requires
            old(self).wf(),
        ensures
            final(self).follows(old(self)),
            r matches Ok(xs) ==> xs@.len() <= LIST_LIMIT,
            old(self).takes(close@) ==> (r matches Ok(xs) && xs@.len() == 0),
        decreases MAX_SPECIALIZATION_DEPTH - old(self).templates.active, PARSE_DEPTH - old(self).depth, 2int,
    {
        let mut xs: Vec<TermRef> = Vec::new();
        loop
            invariant_except_break
                xs@.len() == 0 ==> *self == *old(self),
            invariant
                self.follows(old(self)),
                xs@.len() <= LIST_LIMIT,
                xs@.len() > 0 ==> !old(self).takes(close@),
            ensures
                old(self).takes(close@) ==> xs@.len() == 0,
            decreases LIST_LIMIT - xs@.len(),
        {
            if self.take(close) {
                break;
            }
            if xs.len() >= LIST_LIMIT {
                return self.fail("argument list exceeds the parser resource limit of 128");
            }
            let x = self.expression(0)?;
            xs.push(x);
            let _ = self.take(",");
        }
        Ok(xs)
    }

    /// A primary expression: a sort, a binder form, braces, parentheses, a
    /// lambda-match, a rewrite, a hole, a list or array, a `+` marker, a
    /// literal, a constructor or a name.
    fn atom(&mut self) -> (r: Result<TermRef, ParseError>)
        requires
            old(self).wf(),
        ensures
            final(self).follows(old(self)),
            r is Ok ==> final(self).progressed(old(self)),
            spec_digit_start(old(self).text()) && crate::text::all_digits(old(self).text()) && old(self).text().last() != 'n' ==> (r is Ok
                <==> crate::text::digits_value(old(self).text()) <= u32::MAX),
            spec_digit_start(old(self).text()) && crate::text::all_digits(old(self).text()) && old(self).text().last() != 'n' ==> (r matches Ok(t)
                ==> crate::term::is_u32(*t, crate::text::digits_value(old(self).text()) as u32)),
            spec_digit_start(old(self).text()) && crate::text::all_digits(old(self).text()) && old(self).text().last() != 'n'
                ==> final(self).at == old(self).at + 1 && final(self).tokens == old(self).tokens,
            spec_digit_start(old(self).text()) && nat_text(old(self).text()) && crate::text::digits_value(old(self).text().drop_last()) > LIST_LIMIT ==> r is Err,
            spec_digit_start(old(self).text()) && nat_text(old(self).text()) && crate::text::digits_value(old(self).text().drop_last()) <= LIST_LIMIT
                && !old(self).plus_follows() ==> (r matches Ok(t) && succ_chain(*t, crate::text::digits_value(old(self).text().drop_last()))),
            spec_digit_start(old(self).text()) && nat_text(old(self).text()) && crate::text::digits_value(old(self).text().drop_last()) <= LIST_LIMIT
                && !old(self).plus_follows() ==> final(self).at == old(self).at + 1 && final(self).tokens == old(self).tokens,
        decreases MAX_SPECIALIZATION_DEPTH - old(self).templates.active, PARSE_DEPTH - old(self).depth, 3int,
    {
        proof {
            let t = self.text();
            if spec_digit_start(t) {
                lemma_digit_start_is_no_keyword(t);
            }
        }
        if self.is("~") {
            return self.fail("~ arguments require a previously declared template head and leading argument position");
        }
        if self.take("Type") {
            return Ok(term(Term::Typ(term(Term::Qua(Quant::Lone)))));
        }
        if self.take("Data") {
            return Ok(term(Term::Typ(term(Term::Qua(Quant::Many)))));
        }
        if self.take("Quant") {
            return Ok(term(Term::Qnt));
        }
        if self.take("Kind") {
            self.expect("(")?;
            let g = self.expression(0)?;
            self.expect(")")?;
            return Ok(term(Term::Typ(g)));
        }
        if self.take("do") {
            let module = self.name()?;
            let mut types = if self.take("<>") {
                Vec::new()
            } else {
                self.expect("<")?;
                self.arguments(">")?
            };
            let result = types.pop();
            self.expect(":")?;
            let column = self.tokens[self.at].column;
            return self.do_statement(module.as_str(), &types, &result, column);
        }
        if self.is("@") || self.is("&") {
            let exists = self.take("&");
            if !exists {
                self.expect("@")?;
            }
            if exists {
                let q = if self.is("0") {
                    Some(Quant::Erased)
                } else if self.is("1") {
                    Some(Quant::Lone)
                } else if self.is("2") {
                    Some(Quant::Many)
                } else {
                    None
                };
                if let Some(q) = q {
                    self.bump();
                    return Ok(term(Term::Qua(q)));
                }
            }
            let quant = if exists {
                Quant::Lone
            } else {
                self.quant()
            };
            let name = self.name()?;
            self.expect(":")?;
            let domain = self.expression(1)?;
            self.expect("->")?;
            let old_len = self.scope.len();
            let v = self.open(name.clone());
            let body = self.expression(0)?;
            self.scope.truncate(old_len);
            return Ok(
                if exists {
                    apply(term(Term::Ref("Exists".to_owned())), vec![domain, term(Term::Lam { name, id: v.id, body })])
                } else {
                    term(Term::All { quant, name, id: v.id, domain, body })
                },
            );
        }
        if self.take("{") {
            if self.take("==") {
                self.expect("}")?;
                return Ok(term(Term::Rfl));
            }
            let left = self.expression(0)?;
            let equality = self.take("==");
            let unequal = !equality && self.take("!=");
            if equality || unequal {
                let right = self.expression(0)?;
                self.expect(":")?;
                let ty = self.expression(0)?;
                self.expect("}")?;
                let equation = term(Term::Eql { left, right, ty });
                if unequal {
                    let v = self.fresh_variable("_".to_owned());
                    return Ok(term(Term::All {
                        quant: Quant::Lone,
                        name: v.name,
                        id: v.id,
                        domain: equation,
                        body: term(Term::Ref("Empty".to_owned())),
                    }));
                }
                return Ok(equation);
            }
            self.expect(":")?;
            let ty = self.expression(0)?;
            self.expect("}")?;
            return Ok(term(Term::Ann(left, ty)));
        }
        if self.take("(") {
            let column = self.column_before();
            let body = self.body(column)?;
            let none: Vec<Variable> = Vec::new();
            let mut out = self.flattened(&body, &none)?;
            if self.take(",") {
                let mut values: Vec<TermRef> = vec![out];
                loop
                    invariant
                        !spec_digit_start(old(self).text()),
                        self.progressed(old(self)),
                        values@.len() >= 1,
                    decreases self.remaining(),
                {
                    let v = self.expression(0)?;
                    values.push(v);
                    if !self.take(",") {
                        break;
                    }
                }
                out = values.pop().unwrap();
                let mut k: usize = values.len();
                while k > 0
                    invariant
                        !spec_digit_start(old(self).text()),
                        k <= values@.len(),
                    decreases k,
                {
                    k = k - 1;
                    out = term(Term::Ctr { name: "Tuple".to_owned(), args: vec![share(&values[k]), out] });
                }
            }
            if self.take(":") {
                let ty = self.expression(0)?;
                match type_head(&ty) {
                    Some(name) => {
                        out = qualify_operators(&out, name.as_str());
                    },
                    None => {
                        return self.fail("operators need a named type after ':'");
                    },
                }
            }
            self.expect(")")?;
            return Ok(out);
        }
        if self.take("\\") {
            self.expect("{")?;
            let mut arms: Vec<(String, TermRef)> = Vec::new();
            let mut tail = term(Term::Efq);
            loop
                invariant
                    !spec_digit_start(old(self).text()),
                    self.progressed(old(self)),
                decreases self.remaining(),
            {
                if self.take("}") {
                    break;
                }
                let value = self.expression(0)?;
                if self.take(":") {
                    let head = match &*value {
                        Term::Ref(n) => Some(self.resolve(n.as_str())),
                        Term::Var { name, .. } => Some(self.resolve(name.as_str())),
                        _ => None,
                    };
                    let name = match head {
                        Some(n) => n,
                        None => {
                            return self.fail("a lambda-match arm needs a constructor name");
                        },
                    };
                    let arm = self.expression(0)?;
                    arms.push((name, arm));
                    let _ = self.take(";");
                } else {
                    tail = value;
                    let _ = self.take(";");
                    self.expect("}")?;
                    break;
                }
            }
            let mut k: usize = arms.len();
            while k > 0
                invariant
                    !spec_digit_start(old(self).text()),
                    k <= arms@.len(),
                decreases k,
            {
                k = k - 1;
                tail = term(Term::Mat { constructor: arms[k].0.clone(), arm: share(&arms[k].1), fallback: tail });
            }
            return Ok(tail);
        }
        if self.take("%") {
            let first = self.expression(0)?;
            let rewrite_binder = self.take("@");
            let (name, evidence) = if rewrite_binder {
                let binder = match &*first {
                    Term::Ref(n) => Some(n.clone()),
                    Term::Var { name, .. } => Some(name.clone()),
                    _ => None,
                };
                let name = match binder {
                    Some(n) => n,
                    None => {
                        return self.fail("rewrite binder must be a name");
                    },
                };
                let evidence = self.expression(0)?;
                (name, evidence)
            } else {
                (String::new(), first)
            };
            self.expect(":")?;
            let old_len = self.scope.len();
            let x = self.fresh_variable("_".to_owned());
            self.scope.push(x.copy());
            let e = self.open(name.clone());
            let motive = self.expression(0)?;
            self.scope.truncate(old_len);
            let _ = self.take(";");
            let column = self.column_before();
            let body = self.body(column)?;
            let none: Vec<Variable> = Vec::new();
            let body = self.flattened(&body, &none)?;
            return Ok(term(Term::Rwt {
                evidence,
                motive: term(Term::Lam { name: x.name, id: x.id, body: term(Term::Lam { name, id: e.id, body: motive }) }),
                body,
            }));
        }
        if self.take("?") {
            let name = self.name()?;
            return Ok(term(Term::Hole(name)));
        }
        if self.take("[") {
            let mut values: Vec<TermRef> = if self.is("]") {
                Vec::new()
            } else {
                let v = self.expression(0)?;
                vec![v]
            };
            if values.len() > 0 && self.take(":") {
                let ty = self.expression(12)?;
                let count = self.take("*");
                if !count {
                    self.expect("^")?;
                }
                let size = self.expression(0)?;
                self.expect("]")?;
                let depth = if count {
                    match nat_value(&size) {
                        None => {
                            return self.fail("array count must be a Nat literal power of two");
                        },
                        Some(c) => {
                            if !is_power_of_two(c) {
                                return self.fail("array count must be a power of two");
                            }
                            nat_term(ilog2(c))
                        },
                    }
                } else {
                    size
                };
                let namespace = match type_head(&ty) {
                    Some(n) => n,
                    None => {
                        return self.fail("array operators need a named element type");
                    },
                };
                let value = qualify_operators(&values[0], namespace.as_str());
                return Ok(apply(term(Term::Ref("Array.new".to_owned())), vec![ty, depth, value]));
            }
            let _ = self.take(",");
            let mut more = self.arguments("]")?;
            values.append(&mut more);
            let mut out = term(Term::Ctr { name: "Nil".to_owned(), args: Vec::new() });
            let mut k: usize = values.len();
            while k > 0
                invariant
                    !spec_digit_start(old(self).text()),
                    k <= values@.len(),
                decreases k,
            {
                k = k - 1;
                out = term(Term::Ctr { name: "Con".to_owned(), args: vec![share(&values[k]), out] });
            }
            return Ok(out);
        }
        if self.take("+") {
            let value = self.expression(12)?;
            let name = match type_head(&value) {
                Some(n) => n,
                None => {
                    return self.fail("+ needs a quantified datatype");
                },
            };
            let found = find_datatype(&self.book, name.as_str());
            let k = match found {
                Some(k) => k,
                None => {
                    let plain = match &*value {
                        Term::Ref(_) => true,
                        Term::Var { .. } => true,
                        _ => false,
                    };
                    if plain {
                        let marker = self.fresh_variable(name);
                        self.reusable_markers.push(marker.id);
                        return Ok(marker.term());
                    }
                    return self.fail("+ needs a quantified datatype or a binder");
                },
            };
            let (count, nparams) = match &self.book.declarations[k] {
                Declaration::Adt(adt) => (leading_quantities(&adt.parameters), adt.parameters.len()),
                Declaration::Def(_) => (0, 0),
            };
            let mut args: Vec<TermRef> = match &*value {
                Term::Adt { args, .. } => crate::surface::share_each(args),
                _ => {
                    if nparams == count {
                        prepend_quantities(count, Vec::new(), Quant::Many)
                    } else {
                        return self.fail("+ needs all datatype arguments");
                    }
                },
            };
            if count == 0 {
                return self.fail("+ needs a datatype with quantity parameters");
            }
            let mut i: usize = 0;
            while i < count && i < args.len()
                invariant
                    i <= args@.len(),
                decreases count - i,
            {
                args.set(i, term(Term::Qua(Quant::Many)));
                i = i + 1;
            }
            return Ok(term(Term::Adt { name, args, excluded: Vec::new() }));
        }
        if digit_start(self.tokens[self.at].text.as_str()) {
            return self.number();
        }
        let quoted = crate::text::starts_with_char(self.tokens[self.at].text.as_str(), '"')
            || crate::text::starts_with_char(self.tokens[self.at].text.as_str(), '\'');
        if quoted {
            let raw = self.bump();
            let chars = match decode_literal(raw.as_str()) {
                Ok(c) => c,
                Err(e) => {
                    return Err(self.error(e));
                },
            };
            if chars.len() > LIST_LIMIT {
                return self.fail("string literal exceeds the parser resource limit of 128 characters");
            }
            if crate::text::starts_with_char(raw.as_str(), '\'') {
                if chars.len() != 1 {
                    return self.fail("a character literal needs exactly one character");
                }
                return Ok(term(Term::Ctr { name: "Chr".to_owned(), args: vec![u32_term(chars[0] as u32)] }));
            }
            let mut out = term(Term::Ctr { name: "SNil".to_owned(), args: Vec::new() });
            let mut k: usize = chars.len();
            while k > 0
                invariant
                    k <= chars@.len(),
                decreases k,
            {
                k = k - 1;
                let chr = term(Term::Ctr { name: "Chr".to_owned(), args: vec![u32_term(chars[k] as u32)] });
                out = term(Term::Ctr { name: "SCon".to_owned(), args: vec![chr, out] });
            }
            return Ok(out);
        }
        let name = self.name()?;
        if self.glued() && self.take("{") {
            let args = self.arguments("}")?;
            Ok(term(Term::Ctr { name: self.resolve(name.as_str()), args }))
        } else {
            Ok(self.variable(name.as_str()))
        }
    }

    /// A numeric literal: `3n` (optionally `3n+tail`), an `F32` such as
    /// `1.5`, or a `U32`.
    fn number(&mut self) -> (r: Result<TermRef, ParseError>)
        requires
            old(self).wf(),
            spec_digit_start(old(self).text()),
        ensures
            final(self).follows(old(self)),
            r is Ok ==> final(self).progressed(old(self)),
            crate::text::all_digits(old(self).text()) && old(self).text().last() != 'n' ==> (r is Ok <==> crate::text::digits_value(
                old(self).text(),
            ) <= u32::MAX),
            crate::text::all_digits(old(self).text()) && old(self).text().last() != 'n' ==> (r matches Ok(t)
                ==> crate::term::is_u32(*t, crate::text::digits_value(old(self).text()) as u32)),
            crate::text::all_digits(old(self).text()) && old(self).text().last() != 'n' ==> final(self).at == old(self).at + 1
                && final(self).tokens == old(self).tokens,
            nat_text(old(self).text()) && crate::text::digits_value(old(self).text().drop_last()) > LIST_LIMIT ==> r is Err,
            nat_text(old(self).text()) && crate::text::digits_value(old(self).text().drop_last()) <= LIST_LIMIT
                && !old(self).plus_follows() ==> (r matches Ok(t) && succ_chain(*t, crate::text::digits_value(old(self).text().drop_last()))),
            nat_text(old(self).text()) && crate::text::digits_value(old(self).text().drop_last()) <= LIST_LIMIT
                && !old(self).plus_follows() ==> final(self).at == old(self).at + 1 && final(self).tokens == old(self).tokens,
        decreases MAX_SPECIALIZATION_DEPTH - old(self).templates.active, PARSE_DEPTH - old(self).depth, 2int,
    {
        let raw = self.bump();
        let cs = chars_of(raw.as_str());
        proof {
            if crate::text::all_digits(raw@) && raw@.contains('.') {
                let j = choose|j: int| 0 <= j < raw@.len() && raw@[j] == '.';
                assert('0' <= raw@[j] <= '9');
            }
        }
        if cs.len() > 0 && cs[cs.len() - 1] == 'n' {
            let digits = string_of(vstd::slice::slice_subrange(cs.as_slice(), 0, cs.len() - 1));
            let count = match crate::text::parse_usize(digits.as_str()) {
                Ok(c) => c,
                Err(e) => {
                    return Err(self.error(prefixed("Nat literal is too large: ", e.as_str())));
                },
            };
            if count > LIST_LIMIT {
                return self.fail("Nat literals above 128 exceed the parser's resource limit");
            }
            let ghost bumped = *self;
            let glued = self.glued();
            let glued_plus = glued && self.take("+");
            proof {
                assert(raw@.len() > 0);
                assert(bumped.at == old(self).at + 1);
                assert(bumped.tokens == old(self).tokens);
                if glued_plus {
                    reveal_strlit("+");
                    reveal_strlit(">");
                    assert("+"@[0] != ">"@[0]);
                    assert("+"@ != ">"@);
                    assert(bumped.text() == "+"@);
                    assert(glued);
                    assert(bumped.takes("+"@));
                    let a = old(self).at as int;
                    assert(bumped.tokens@[a].end == bumped.tokens@[a + 1].start);
                    assert(bumped.tokens@[a + 1].text@ == "+"@);
                    assert(a + 2 < bumped.tokens@.len());
                    assert(old(self).plus_follows());
                }
            }
            let mut value = if glued_plus {
                self.expression(0)?
            } else {
                term(Term::Ctr { name: self.resolve("Zero"), args: Vec::new() })
            };
            let succ = self.resolve("Succ");
            let mut i: usize = 0;
            proof {
                assert(digits@ =~= old(self).text().drop_last());
                if !glued_plus {
                    assert(succ_chain(*value, 0));
                }
            }
            while i < count
                invariant
                    i <= count,
                    !glued_plus ==> succ_chain(*value, i as nat),
                decreases count - i,
            {
                let args = vec![value];
                assert(args@.len() == 1);
                value = term(Term::Ctr { name: succ.clone(), args });
                i = i + 1;
            }
            Ok(value)
        } else if contains_char(raw.as_str(), '.') {
            match self.floats.parse_f32(raw.as_str()) {
                Err(e) => Err(self.error(prefixed("invalid F32 literal: ", e.as_str()))),
                Ok(bits) => if non_finite(bits) {
                    self.fail("F32 literal must be finite")
                } else {
                    Ok(term(Term::Ctr { name: "F32".to_owned(), args: vec![word_term(bits)] }))
                },
            }
        } else {
            match crate::text::parse_u32(raw.as_str()) {
                Ok(v) => Ok(u32_term(v)),
                Err(e) => Err(self.error(prefixed("U32 literal must be at most 4294967295: ", e.as_str()))),
            }
        }
    }
    /// The arguments of a call whose `(` was just consumed: `~` template
    /// arguments for a template head, then ordinary ones. A closed template
    /// call names its specialised instance.
    fn call(&mut self, function: TermRef) -> (r: Result<TermRef, ParseError>)
        requires
            old(self).wf(),
        ensures
            final(self).follows(old(self)),
        decreases MAX_SPECIALIZATION_DEPTH - old(self).templates.active, PARSE_DEPTH - old(self).depth, 3int,
    {
        let template = match &*function {
            Term::Ref(name) => if has_template(&self.templates, name.as_str()).is_some() {
                Some(name.clone())
            } else {
                None
            },
            _ => None,
        };
        let mut compile_arguments: Vec<TermRef> = Vec::new();
        if template.is_some() {
            loop
                invariant
                    self.follows(old(self)),
                    compile_arguments@.len() <= LIST_LIMIT,
                decreases LIST_LIMIT - compile_arguments@.len(),
            {
                if !self.take("~") {
                    break;
                }
                if compile_arguments.len() >= LIST_LIMIT {
                    return self.fail("template argument list exceeds the resource limit of 128");
                }
                let argument = self.expression(0)?;
                let nat_name = self.resolve("Nat");
                compile_arguments.push(qualify_operators(&argument, nat_name.as_str()));
                let _ = self.take(",");
            }
        }
        let runtime_arguments = self.arguments(")")?;
        let mut function = function;
        if let Some(name) = template {
            if let Some(instance) = self.specialize(name.as_str(), &compile_arguments)? {
                function = term(Term::Ref(instance));
            }
        }
        let mut all = compile_arguments;
        let mut runtime = runtime_arguments;
        all.append(&mut runtime);
        let mut k: usize = 0;
        while k < all.len()
            invariant
                k <= all@.len(),
                self.follows(old(self)),
            decreases all@.len() - k,
        {
            let inline = match &*function {
                Term::Lam { id, body, .. } => if self.is_compile_binding(&function) {
                    Some(substitute(body, *id, &all[k]))
                } else {
                    None
                },
                _ => None,
            };
            function = match inline {
                Some(t) => t,
                None => term(Term::App(function, share(&all[k]))),
            };
            k = k + 1;
        }
        Ok(function)
    }

    /// The instance of template `name` for these closed arguments, parsed
    /// once per distinct argument key; `None` when an argument is open.
    fn specialize(&mut self, name: &str, arguments: &Vec<TermRef>) -> (r: Result<Option<String>, ParseError>)
        requires
            old(self).wf(),
        ensures
            final(self).follows(old(self)),
        decreases MAX_SPECIALIZATION_DEPTH - old(self).templates.active, PARSE_DEPTH - old(self).depth, 2int,
    {
        let key = match template_key(arguments) {
            Err(e) => {
                return self.fail(e);
            },
            Ok(None) => {
                return Ok(None);
            },
            Ok(Some(k)) => k,
        };
        let index = match has_template(&self.templates, name) {
            Some(i) => i,
            None => {
                return Ok(None);
            },
        };
        if let Some(instance) = lookup(&self.templates.declarations[index].1.instances, key.as_str()) {
            return Ok(Some(instance));
        }
        if self.templates.instances >= MAX_SPECIALIZATIONS || self.templates.active >= MAX_SPECIALIZATION_DEPTH {
            return self.fail("template specialization count or nesting budget exhausted");
        }
        let count = self.templates.declarations[index].1.instances.len();
        let instance = joined(name, '~', crate::text::decimal(count).as_str());
        let (tokens, at, label, namespace, aliases, origin, unsafe_) = {
            let t = &self.templates.declarations[index].1;
            (copy_tokens(t.tokens.as_slice()), t.at, t.label.clone(), t.namespace.clone(), copy_pairs(&t.aliases), t.origin.copy(), t.unsafe_)
        };
        let (template_name, mut template) = self.templates.declarations.remove(index);
        template.instances.push((key, instance.clone()));
        self.templates.declarations.insert(index, (template_name, template));
        proof {
            assert(self.templates.wf()) by {
                assert forall|k: int| 0 <= k < self.templates.declarations@.len() implies (#[trigger] self.templates.declarations@[k]).1.wf() by {
                    if k < index {
                        assert(self.templates.declarations@[k] == old(self).templates.declarations@[k]);
                    } else if k > index {
                        assert(self.templates.declarations@[k] == old(self).templates.declarations@[k]);
                    }
                }
            }
        }
        self.templates.instances = self.templates.instances + 1;
        self.templates.active = self.templates.active + 1;
        let mut book = Book::new();
        std::mem::swap(&mut book, &mut self.book);
        let mut templates = Templates::new();
        std::mem::swap(&mut templates, &mut self.templates);
        let foreign = self.foreign.take();
        let constructor_tags = self.constructor_tags.take();
        let mut sub = Parser {
            tokens,
            at,
            label,
            namespace,
            aliases,
            scope: Vec::new(),
            fresh: self.fresh,
            book,
            depth: 0,
            reusable: Vec::new(),
            reusable_markers: Vec::new(),
            templates,
            instance_name: Some(instance.clone()),
            instance_arguments: crate::surface::share_each(arguments),
            compile_bindings: Vec::new(),
            foreign,
            constructor_tags,
            origin,
            floats: self.floats,
        };
        let result = sub.definition(unsafe_);
        let Parser { fresh, book, templates, foreign, constructor_tags, .. } = sub;
        self.fresh = fresh;
        self.book = book;
        self.templates = templates;
        self.foreign = foreign;
        self.constructor_tags = constructor_tags;
        self.templates.active = self.templates.active - 1;
        match result {
            Ok(()) => Ok(Some(instance)),
            Err(e) => Err(e),
        }
    }

    /// A `do` block: `return e`, or a statement and the rest of the block,
    /// desugared into the module's `pure` and `bind`.
    fn do_statement(&mut self, module: &str, types: &Vec<TermRef>, result: &Option<TermRef>, column: usize) -> (r: Result<TermRef, ParseError>)
        requires
            old(self).wf(),
        ensures
            final(self).follows(old(self)),
        decreases MAX_SPECIALIZATION_DEPTH - old(self).templates.active, PARSE_DEPTH - old(self).depth, 0int,
    {
        if self.depth >= PARSE_DEPTH {
            return self.fail("do nesting exceeds the parser resource limit of 64");
        }
        self.depth = self.depth + 1;
        let parsed = self.do_statement_inner(module, types, result, column);
        self.depth = self.depth - 1;
        parsed
    }

    fn do_statement_inner(&mut self, module: &str, types: &Vec<TermRef>, result: &Option<TermRef>, column: usize) -> (r: Result<TermRef, ParseError>)
        requires
            old(self).wf(),
        ensures
            final(self).follows(old(self)),
        decreases MAX_SPECIALIZATION_DEPTH - old(self).templates.active, PARSE_DEPTH - old(self).depth, 1int,
    {
        if self.take("return") {
            let value = self.expression(0)?;
            return Ok(self.do_call(module, "pure", types, Vec::new(), result, vec![value]));
        }
        let value = self.expression(0)?;
        let name = match &*value {
            Term::Ref(n) => if contains_char(n.as_str(), '.') {
                None
            } else {
                Some(n.clone())
            },
            Term::Var { name, .. } => if contains_char(name.as_str(), '.') {
                None
            } else {
                Some(name.clone())
            },
            _ => None,
        };
        let annotated = name.is_some() && self.take(":");
        let step = !annotated && (self.is(";") || (!self.at_end() && self.tokens[self.at].column == column));
        let ty = if annotated {
            self.expression(1)?
        } else if step {
            self.variable("Unit")
        } else {
            share(&value)
        };
        let assignment = annotated && self.take("=");
        if !assignment {
            if annotated {
                self.expect("<-")?;
            } else if !step && !self.take("<-") {
                return Ok(value);
            }
        }
        let bound = if step {
            share(&value)
        } else {
            self.expression(0)?
        };
        let _ = self.take(";");
        let old_len = self.scope.len();
        let reusable = annotated && self.is_reusable(&value);
        let binder = match name {
            Some(n) => if annotated {
                n
            } else {
                "_".to_owned()
            },
            None => "_".to_owned(),
        };
        let variable = self.bind_variable(binder, reusable);
        let mut rebindings: Vec<(Variable, TermRef)> = Vec::new();
        std::mem::swap(&mut rebindings, &mut self.reusable);
        let tail = self.do_statement(module, types, result, column)?;
        let none: Vec<Variable> = Vec::new();
        let tail = self.flattened(&Body::Reply(tail).with_reusable(&rebindings), &none)?;
        self.scope.truncate(old_len);
        if assignment {
            Ok(term(Term::Let {
                bindings: vec![LetBinding { quant: Quant::Lone, name: variable.name, id: variable.id, value: term(Term::Ann(bound, ty)) }],
                body: tail,
            }))
        } else {
            Ok(self.do_call(module, "bind", types, vec![ty], result, vec![bound, term(Term::Lam { name: variable.name, id: variable.id, body: tail })]))
        }
    }

    /// `module.operation` applied to the type arguments, `before`, the
    /// result type where there is one, and `after`.
    fn do_call(&self, module: &str, operation: &str, types: &Vec<TermRef>, before: Vec<TermRef>, result: &Option<TermRef>, after: Vec<TermRef>) -> (r: TermRef)
        ensures
            exists|name: String| *r == crate::term::applied(
                Term::Ref(name),
                types@ + before@ + (match result {
                    Some(t) => seq![*t],
                    None => Seq::<TermRef>::empty(),
                }) + after@,
            ),
    {
        let mut arguments = crate::surface::share_each(types);
        let mut before = before;
        let ghost b = before@;
        arguments.append(&mut before);
        let ghost middle = match result {
            Some(t) => seq![*t],
            None => Seq::<TermRef>::empty(),
        };
        if let Some(t) = result {
            arguments.push(share(t));
        }
        proof {
            assert(arguments@ =~= types@ + b + middle);
        }
        let mut after = after;
        let ghost c = after@;
        arguments.append(&mut after);
        let head = joined(module, '.', operation);
        let name = self.resolve(head.as_str());
        proof {
            assert(arguments@ =~= types@ + b + middle + c);
        }
        apply(term(Term::Ref(name)), arguments)
    }

    /// The pattern that a parsed term denotes, binding its variables.
    #[verifier::loop_isolation(false)]
    fn pattern(&mut self, value: &TermRef) -> (r: Result<Pattern, ParseError>)
        requires
            old(self).wf(),
        ensures
            final(self).follows(old(self)),
            final(self).at == old(self).at,
            final(self).tokens == old(self).tokens,
            final(self).book == old(self).book,
            r matches Ok(p) ==> (**value matches Term::Ctr { name, args } ==> p matches Pattern::Constructor(n, fs) && n == name
                && fs@.len() == args@.len()),
            r matches Ok(p) ==> (**value is Ref || **value is Var ==> p is Variable),
            !(**value is Ref || **value is Var || **value is Ctr) ==> r is Err,
        decreases **value,
    {
        if self.is_compile_binding(value) {
            return self.fail("a template argument cannot be rebound as a pattern");
        }
        match &**value {
            Term::Ref(name) => self.binder_pattern(value, name),
            Term::Var { name, .. } => self.binder_pattern(value, name),
            Term::Ctr { name, args } => {
                let found = find_constructor(&self.book, name.as_str());
                let nfields = match found {
                    Some((k, c)) => match &self.book.declarations[k] {
                        Declaration::Adt(a) => a.constructors[c].fields.len(),
                        Declaration::Def(_) => 0,
                    },
                    None => {
                        return Err(self.error(prefixed("unknown constructor pattern: ", name.as_str())));
                    },
                };
                if nfields != args.len() {
                    let message = concat(
                        joined(prefixed("constructor ", name.as_str()).as_str(), ' ', "expects ").as_str(),
                        joined(crate::text::decimal(nfields).as_str(), ' ', "fields").as_str(),
                    );
                    return Err(self.error(message));
                }
                let mut fields: Vec<Pattern> = Vec::new();
                let mut k: usize = 0;
                while k < args.len()
                    invariant
                        k <= args@.len(),
                        fields@.len() == k,
                        self.follows(old(self)),
                        self.at == old(self).at,
                        self.tokens == old(self).tokens,
                        self.book == old(self).book,
                    decreases args@.len() - k,
                {
                    proof {
                        assert(decreases_to!(args@ => args@[k as int]));
                    }
                    let p = self.pattern(&args[k])?;
                    fields.push(p);
                    k = k + 1;
                }
                Ok(Pattern::Constructor(name.clone(), fields))
            },
            _ => self.fail("a pattern must be a binder or constructor"),
        }
    }

    fn binder_pattern(&mut self, value: &TermRef, name: &String) -> (r: Result<Pattern, ParseError>)
        requires
            old(self).wf(),
        ensures
            final(self).follows(old(self)),
            final(self).at == old(self).at,
            final(self).tokens == old(self).tokens,
            final(self).book == old(self).book,
            r matches Ok(p) ==> p matches Pattern::Variable(v) && v.name == *name,
            name@.contains('.') || name@.contains('/') ==> r is Err,
    {
        let resolved = self.resolve(name.as_str());
        if find_constructor(&self.book, resolved.as_str()).is_some() {
            let message = concat(prefixed("constructor pattern ", name.as_str()).as_str(), " requires braces");
            return Err(self.error(message));
        }
        if contains_char(name.as_str(), '.') || contains_char(name.as_str(), '/') {
            return self.fail("a pattern binder must be one unqualified name");
        }
        let reusable = self.is_reusable(value);
        Ok(Pattern::Variable(self.bind_variable(name.clone(), reusable)))
    }

    /// The patterns of several parsed terms.
    fn patterns_of(&mut self, values: &Vec<TermRef>) -> (r: Result<Vec<Pattern>, ParseError>)
        requires
            old(self).wf(),
        ensures
            final(self).follows(old(self)),
            final(self).at == old(self).at,
            final(self).tokens == old(self).tokens,
            final(self).book == old(self).book,
            r matches Ok(ps) ==> ps@.len() == values@.len(),
    {
        let mut out: Vec<Pattern> = Vec::new();
        let mut k: usize = 0;
        while k < values.len()
            invariant
                k <= values@.len(),
                out@.len() == k,
                self.follows(old(self)),
                self.at == old(self).at,
                self.tokens == old(self).tokens,
                self.book == old(self).book,
            decreases values@.len() - k,
        {
            let p = self.pattern(&values[k])?;
            out.push(p);
            k = k + 1;
        }
        Ok(out)
    }

    /// Expressions separated by optional commas, up to a `:`.
    fn terms_before_colon(&mut self) -> (r: Result<Vec<TermRef>, ParseError>)
        requires
            old(self).wf(),
        ensures
            final(self).follows(old(self)),
            r matches Ok(ts) ==> ts@.len() > 0,
        decreases MAX_SPECIALIZATION_DEPTH - old(self).templates.active, PARSE_DEPTH - old(self).depth, 2int,
    {
        let mut terms: Vec<TermRef> = Vec::new();
        loop
            invariant
                self.follows(old(self)),
            decreases self.remaining(),
        {
            let t = self.expression(0)?;
            terms.push(t);
            if self.take(":") {
                return Ok(terms);
            }
            let _ = self.take(",");
        }
    }

    /// A definition body: a `match`, a local binding and the rest, or a reply.
    /// `column` is the indentation that a `case` must exceed.
    fn body(&mut self, column: usize) -> (r: Result<Body, ParseError>)
        requires
            old(self).wf(),
        ensures
            final(self).follows(old(self)),
        decreases MAX_SPECIALIZATION_DEPTH - old(self).templates.active, PARSE_DEPTH - old(self).depth, 0int,
    {
        if self.depth >= PARSE_DEPTH {
            return self.fail("body nesting exceeds the parser resource limit of 64");
        }
        self.depth = self.depth + 1;
        let mut reusable: Vec<(Variable, TermRef)> = Vec::new();
        std::mem::swap(&mut reusable, &mut self.reusable);
        let result = match self.body_inner(column) {
            Ok(b) => Ok(b.with_reusable(&reusable)),
            Err(e) => Err(e),
        };
        self.depth = self.depth - 1;
        result
    }

    fn body_inner(&mut self, column: usize) -> (r: Result<Body, ParseError>)
        requires
            old(self).wf(),
        ensures
            final(self).follows(old(self)),
        decreases MAX_SPECIALIZATION_DEPTH - old(self).templates.active, PARSE_DEPTH - old(self).depth, 3int,
    {
        if self.take("match") {
            let scrutinees = self.terms_before_colon()?;
            let case_column = self.tokens[self.at].column;
            let mut rows: Vec<Row> = Vec::new();
            loop
                invariant
                    self.follows(old(self)),
                decreases self.remaining(),
            {
                if !(case_column > column && self.is("case") && self.tokens[self.at].column >= case_column) {
                    break;
                }
                let row_column = self.tokens[self.at].column;
                proof {
                    reveal_strlit("case");
                }
                self.bump();
                let patterns = self.terms_before_colon()?;
                if patterns.len() != scrutinees.len() {
                    return self.fail("a match needs one pattern per scrutinee");
                }
                let old_len = self.scope.len();
                let patterns = self.patterns_of(&patterns)?;
                let body = self.body(row_column)?;
                self.scope.truncate(old_len);
                rows.push(Row { patterns, body });
            }
            return Ok(Body::Match { scrutinees, rows });
        }
        let start = self.at;
        let mut quant = self.quant();
        let mut patterns: Vec<TermRef> = Vec::new();
        let mut values: Vec<TermRef> = Vec::new();
        let named = quant != Quant::Lone && self.at < self.tokens.len() - 1 && str_eq(self.tokens[self.at + 1].text.as_str(), "=");
        if named {
            let name = self.name()?;
            patterns.push(term(Term::Ref(name)));
            self.expect("=")?;
        } else {
            self.at = start;
            quant = Quant::Lone;
            let first = self.expression(0)?;
            patterns.push(first);
            loop
                invariant
                    self.follows(old(self)),
                    patterns@.len() >= 1,
                decreases self.remaining(),
            {
                let more = self.same_line() && (self.is("+") || name_start(self.tokens[self.at].text.as_str()))
                    && !is_keyword(self.tokens[self.at].text.as_str());
                if !more {
                    break;
                }
                let p = self.expression(0)?;
                patterns.push(p);
            }
            if patterns.len() == 1 && !self.is("=") {
                let more = self.is(";") || (!self.at_end() && start < self.tokens.len() && self.tokens[self.at].column
                    == self.tokens[start].column);
                let reply = match array_write_binder(&patterns[0]) {
                    Some(variable) => if more {
                        let written = patterns.remove(0);
                        values.push(written);
                        patterns.push(variable);
                        false
                    } else {
                        true
                    },
                    None => true,
                };
                if reply {
                    return Ok(Body::Reply(patterns.remove(0)));
                }
            } else {
                self.expect("=")?;
            }
        }
        loop
            invariant
                self.follows(old(self)),
            decreases patterns@.len() - values@.len(),
        {
            if values.len() >= patterns.len() {
                break;
            }
            let v = self.expression(0)?;
            values.push(v);
        }
        let _ = self.take(";");
        let old_len = self.scope.len();
        let patterns = self.patterns_of(&patterns)?;
        let body = self.body(column)?;
        self.scope.truncate(old_len);
        Ok(Body::Local { patterns, quant, values, body: Box::new(body) })
    }

    /// The last definition named `name` so far, when it has no body yet: a
    /// law, or a contract that this definition fills.
    fn prior_definition(&self, name: &str) -> (r: Option<(Vec<Binder>, TermRef, bool, bool)>)
        ensures
            match last_definition(self.book.declarations@, name@) {
                Some(d) => r matches Some((ps, ty, body, foreign)) && ps@ == d.parameters@ && ty == d.ty && body == d.body is Some
                    && foreign == d.foreign,
                None => r is None,
            },
    {
        let mut k: usize = self.book.declarations.len();
        proof {
            assert(self.book.declarations@.take(k as int) =~= self.book.declarations@);
        }
        while k > 0
            invariant
                k <= self.book.declarations@.len(),
                last_definition(self.book.declarations@, name@) == last_definition(self.book.declarations@.take(k as int), name@),
            decreases k,
        {
            proof {
                assert(self.book.declarations@.take(k as int).drop_last() =~= self.book.declarations@.take(k - 1));
            }
            k = k - 1;
            if let Declaration::Def(d) = &self.book.declarations[k] {
                if str_eq(d.name.as_str(), name) {
                    return Some((copy_binders(&d.parameters), share(&d.ty), d.body.is_some(), d.foreign));
                }
            }
        }
        proof {
            assert(self.book.declarations@.take(0) =~= Seq::<Declaration>::empty());
        }
        None
    }

    /// `def name(parameters) -> type: body`, a template when its first
    /// parameter is `~`, the body of an earlier law, or a foreign contract.
    fn definition(&mut self, unsafe_: bool) -> (r: Result<(), ParseError>)
        requires
            old(self).wf(),
        ensures
            final(self).follows(old(self)),
        decreases MAX_SPECIALIZATION_DEPTH - old(self).templates.active, PARSE_DEPTH - old(self).depth, 2int,
    {
        let declaration_at = self.at;
        let raw = self.name()?;
        let resolved = self.resolve(raw.as_str());
        let prior = if self.instance_name.is_none() {
            self.prior_definition(resolved.as_str())
        } else {
            None
        };
        let name = match &self.instance_name {
            Some(instance) => instance.clone(),
            None => if prior.is_some() {
                resolved
            } else {
                self.qualify(raw.as_str())
            },
        };
        self.expect("(")?;
        let template = prior.is_none() && self.instance_name.is_none() && self.is("~");
        let (parameters, ty, vars) = match prior {
            Some((parameters, ty, has_body, foreign)) => {
                if has_body || foreign {
                    return Err(self.error(prefixed("duplicate definition: ", name.as_str())));
                }
                let mut vars: Vec<Variable> = Vec::new();
                loop
                    invariant
                        self.follows(old(self)),
                        vars@.len() <= LIST_LIMIT,
                        declaration_at <= self.at,
                    decreases LIST_LIMIT - vars@.len(),
                {
                    if self.take(")") {
                        break;
                    }
                    if vars.len() >= LIST_LIMIT {
                        return self.fail("proof telescope exceeds the parser resource limit of 128");
                    }
                    let n = self.name()?;
                    let v = self.open(n);
                    vars.push(v);
                    let _ = self.take(",");
                }
                (parameters, ty, vars)
            },
            None => {
                self.require_fresh(name.as_str())?;
                if template {
                    let ghost before = self.templates.declarations@;
                    assert(self.templates.wf());
                    let saved = Template {
                        tokens: copy_tokens(self.tokens.as_slice()),
                        at: declaration_at,
                        label: self.label.clone(),
                        namespace: self.namespace.clone(),
                        aliases: copy_pairs(&self.aliases),
                        origin: self.origin.copy(),
                        unsafe_,
                        instances: Vec::new(),
                    };
                    self.templates.declarations.push((name.clone(), saved));
                    proof {
                        assert(self.templates.wf()) by {
                            assert forall|k: int| 0 <= k < self.templates.declarations@.len() implies (#[trigger] self.templates.declarations@[k]).1.wf() by {
                                if k < before.len() {
                                    assert(self.templates.declarations@[k] == before[k]);
                                }
                            }
                        }
                    }
                }
                let parameters = self.telescope(")")?;
                self.expect("->")?;
                let result = self.expression(0)?;
                let ty = arrows(&parameters, result);
                let mut vars: Vec<Variable> = Vec::new();
                let mut k: usize = 0;
                while k < parameters.len()
                    invariant
                        k <= parameters@.len(),
                    decreases parameters@.len() - k,
                {
                    vars.push(Variable { name: parameters[k].name.clone(), id: parameters[k].id });
                    k = k + 1;
                }
                (parameters, ty, vars)
            },
        };
        self.expect(":")?;
        if self.is("import") {
            let template_at = if template {
                Some(declaration_at)
            } else {
                None
            };
            return self.foreign_definition(name, raw.as_str(), &vars, &ty, unsafe_, template_at);
        }
        let temporary = self.book.declarations.len();
        self.book.declarations.push(
            Declaration::Def(DefDecl { name: name.clone(), parameters: copy_binders(&parameters), ty: share(&ty), body: None, unsafe_, foreign: false }),
        );
        let body = self.body(0)?;
        let value = self.flattened(&body, &vars)?;
        if temporary < self.book.declarations.len() {
            self.book.declarations.remove(temporary);
        }
        if template {
            self.retain_template_source(name.as_str(), declaration_at);
        } else {
            let nat_name = self.resolve("Nat");
            self.book.declarations.push(
                Declaration::Def(DefDecl {
                    name,
                    parameters,
                    ty: qualify_operators(&ty, nat_name.as_str()),
                    body: Some(qualify_operators(&value, nat_name.as_str())),
                    unsafe_,
                    foreign: false,
                }),
            );
        }
        Ok(())
    }

    /// Keep only the tokens of this template's own declaration.
    fn retain_template_source(&mut self, name: &str, declaration_at: usize)
        requires
            old(self).wf(),
            declaration_at <= old(self).at,
        ensures
            final(self).follows(old(self)),
            final(self).at == old(self).at,
            final(self).tokens == old(self).tokens,
            final(self).book == old(self).book,
            final(self).templates.declarations@.len() == old(self).templates.declarations@.len(),
            (forall|k: int| 0 <= k < old(self).templates.declarations@.len() ==> (#[trigger] old(self).templates.declarations@[k]).0@
                != name@) ==> final(self).templates.declarations@ == old(self).templates.declarations@,
            (exists|k: int| 0 <= k < old(self).templates.declarations@.len() && (#[trigger] old(self).templates.declarations@[k]).0@
                == name@) ==> exists|k: int|
                0 <= k < old(self).templates.declarations@.len() && old(self).templates.declarations@[k].0@ == name@ && {
                    let kept = final(self).templates.declarations@[k];
                    &&& kept.0 == old(self).templates.declarations@[k].0
                    &&& kept.1.at == 0
                    &&& kept.1.tokens@.drop_last() == old(self).tokens@.subrange(declaration_at as int, old(self).at as int)
                    &&& kept.1.tokens@.last().text@.len() == 0
                    &&& kept.1.tokens@.last().start == old(self).tokens@[old(self).at as int].start
                    &&& forall|j: int| 0 <= j < old(self).templates.declarations@.len() && j != k ==> final(self).templates.declarations@[j]
                        == old(self).templates.declarations@[j]
                },
    {
        let mut tokens = copy_tokens(vstd::slice::slice_subrange(self.tokens.as_slice(), declaration_at, self.at));
        let mut end = self.tokens[self.at].copy();
        end.text = String::new();
        tokens.push(end);
        if let Some(index) = has_template(&self.templates, name) {
            let (template_name, mut template) = self.templates.declarations.remove(index);
            template.tokens = tokens;
            template.at = 0;
            self.templates.declarations.insert(index, (template_name, template));
            proof {
                assert(self.templates.declarations@[index as int].1.tokens@.drop_last() =~= old(self).tokens@.subrange(declaration_at as int, old(self).at as int));
                assert forall|j: int| 0 <= j < old(self).templates.declarations@.len() && j != index implies self.templates.declarations@[j]
                    == old(self).templates.declarations@[j] by {
                }
                assert(self.templates.wf()) by {
                    assert forall|k: int| 0 <= k < self.templates.declarations@.len() implies (#[trigger] self.templates.declarations@[k]).1.wf() by {
                        if k != index {
                            assert(self.templates.declarations@[k] == old(self).templates.declarations@[k]);
                        }
                    }
                }
            }
        }
    }

    /// A definition whose body is a list of foreign imports: its contract
    /// is recorded, and its parameters are read off its declared type.
    fn foreign_definition(
        &mut self,
        name: String,
        local_name: &str,
        vars: &Vec<Variable>,
        ty: &TermRef,
        unsafe_: bool,
        template_at: Option<usize>,
    ) -> (r: Result<(), ParseError>)
        requires
            old(self).wf(),
            template_at matches Some(a) ==> a <= old(self).at,
        ensures
            final(self).follows(old(self)),
    {
        if self.foreign.is_none() {
            return self.fail("foreign C/JavaScript definitions are not supported by the Rust proof checker");
        }
        let imports = self.foreign_imports()?;
        if let Some(declaration_at) = template_at {
            self.retain_template_source(name.as_str(), declaration_at);
            return Ok(());
        }
        let mut cursor = share(ty);
        let mut parameters: Vec<Binder> = Vec::new();
        let mut k: usize = 0;
        while k < vars.len()
            invariant
                k <= vars@.len(),
                self.follows(old(self)),
            decreases vars@.len() - k,
        {
            loop
                decreases *cursor,
            {
                let inner = match &*cursor {
                    Term::Ann(value, _) => Some(share(value)),
                    _ => None,
                };
                match inner {
                    Some(v) => {
                        cursor = v;
                    },
                    None => {
                        break;
                    },
                }
            }
            let next = match &*cursor {
                Term::All { quant, id, domain, body, .. } => {
                    parameters.push(Binder { quant: *quant, name: vars[k].name.clone(), id: *id, ty: share(domain) });
                    Some(share(body))
                },
                _ => None,
            };
            match next {
                Some(b) => {
                    cursor = b;
                },
                None => {
                    return self.fail("foreign parameter list exceeds its declared function telescope");
                },
            }
            k = k + 1;
        }
        let builtin = match self.origin {
            SourceOrigin::Bundled => if str_eq(local_name, "IO.print") {
                Some(BuiltinForeign::Print)
            } else if str_eq(local_name, "IO.write") {
                Some(BuiltinForeign::Write)
            } else if str_eq(local_name, "IO.print_err") {
                Some(BuiltinForeign::PrintErr)
            } else {
                None
            },
            _ => None,
        };
        let mut names: Vec<String> = Vec::new();
        let mut j: usize = 0;
        while j < vars.len()
            invariant
                j <= vars@.len(),
            decreases vars@.len() - j,
        {
            names.push(vars[j].name.clone());
            j = j + 1;
        }
        let descriptor = ForeignDefinition {
            imports,
            local_symbol: local_symbol(local_name),
            declared_arity: vars.len(),
            parameters: names,
            builtin,
        };
        let mut table = match self.foreign.take() {
            Some(t) => t,
            None => Vec::new(),
        };
        insert_foreign(&mut table, name.clone(), descriptor);
        self.foreign = Some(table);
        let nat_name = self.resolve("Nat");
        self.book.declarations.push(
            Declaration::Def(DefDecl { name, parameters, ty: qualify_operators(ty, nat_name.as_str()), body: None, unsafe_, foreign: true }),
        );
        Ok(())
    }

    /// `import "path.c"` or `import "path.js"` lines, each at most once.
    fn foreign_imports(&mut self) -> (r: Result<Vec<ForeignImport>, ParseError>)
        requires
            old(self).wf(),
        ensures
            final(self).follows(old(self)),
            final(self).book == old(self).book,
            r matches Ok(imports) ==> imports@.len() <= LIST_LIMIT,
            !old(self).takes("import"@) ==> (r matches Ok(imports) && imports@.len() == 0),
    {
        let mut imports: Vec<ForeignImport> = Vec::new();
        let mut count: usize = 0;
        loop
            invariant_except_break
                count == 0 ==> *self == *old(self),
            invariant
                self.follows(old(self)),
                self.book == old(self).book,
                count <= LIST_LIMIT,
                imports@.len() <= count,
                count > 0 ==> old(self).takes("import"@),
            ensures
                !old(self).takes("import"@) ==> imports@.len() == 0,
            decreases LIST_LIMIT - count,
        {
            if !self.take("import") {
                break;
            }
            if count >= LIST_LIMIT {
                return self.fail("foreign import list exceeds the resource limit of 128");
            }
            count = count + 1;
            let token = self.bump();
            if !crate::text::starts_with_char(token.as_str(), '"') {
                return self.fail("foreign imports require a quoted .c or .js path");
            }
            let relative = string_of(literal_inner_chars(&chars_of(token.as_str())).as_slice());
            let target = match crate::paths::extension(relative.as_str()) {
                Some(e) => if str_eq(e.as_str(), "c") {
                    ForeignTarget::C
                } else if str_eq(e.as_str(), "js") {
                    ForeignTarget::JavaScript
                } else {
                    return self.fail("foreign imports require a .c or .js path");
                },
                None => {
                    return self.fail("foreign imports require a .c or .js path");
                },
            };
            if contains_char(relative.as_str(), '\0') {
                return self.fail("foreign import paths cannot contain NUL");
            }
            let path = match &self.origin {
                SourceOrigin::Local(directory) => crate::paths::lexical_path(crate::paths::join(directory.as_str(), relative.as_str()).as_str()),
                SourceOrigin::Bundled => crate::paths::lexical_path(relative.as_str()),
                SourceOrigin::Standalone => {
                    return self.fail("foreign imports need a declaring source file");
                },
            };
            let mut seen = false;
            let mut k: usize = 0;
            while k < imports.len()
                invariant
                    k <= imports@.len(),
                decreases imports@.len() - k,
            {
                if imports[k].target == target && str_eq(imports[k].path.as_str(), path.as_str()) {
                    seen = true;
                }
                k = k + 1;
            }
            if !seen {
                imports.push(ForeignImport { target, path });
            }
        }
        Ok(imports)
    }

    /// `type Name<parameters> is kind: Constructor{fields} ...`.
    fn datatype(&mut self) -> (r: Result<(), ParseError>)
        requires
            old(self).wf(),
        ensures
            final(self).follows(old(self)),
    {
        let raw = self.name()?;
        let name = self.qualify(raw.as_str());
        self.require_fresh(name.as_str())?;
        let erased_first = self.is("<-");
        if erased_first {
            let at = self.at;
            let mut token = self.tokens[at].copy();
            token.text = "-".to_owned();
            token.start = saturating_add(token.start, 1);
            token.column = saturating_add(token.column, 1);
            self.tokens.set(at, token);
            proof {
                reveal_strlit("-");
                reveal_strlit(">>");
                reveal_strlit("<-");
            }
        }
        let parameters = if self.take("<>") {
            Vec::new()
        } else if erased_first || self.take("<") {
            self.telescope(">")?
        } else {
            Vec::new()
        };
        self.expect("is")?;
        let kind = self.expression(0)?;
        self.expect(":")?;
        let index = self.book.declarations.len();
        self.book.declarations.push(
            Declaration::Adt(AdtDecl { name: name.clone(), parameters: copy_binders(&parameters), kind: share(&kind), constructors: Vec::new() }),
        );
        let mut constructors: Vec<ConstructorDecl> = Vec::new();
        loop
            invariant
                self.follows(old(self)),
                index < self.book.declarations@.len(),
            decreases self.remaining(),
        {
            if self.at_end() || self.is("type") || self.is("law") || self.is("def") || self.is("@") {
                break;
            }
            let raw = self.name()?;
            let constructor = self.qualify(raw.as_str());
            match self.constructor_tags.take() {
                Some(mut tags) => {
                    insert_pair(&mut tags, constructor.clone(), raw);
                    self.constructor_tags = Some(tags);
                },
                None => {},
            }
            let mut duplicate = find_constructor(&self.book, constructor.as_str()).is_some();
            let mut c: usize = 0;
            while c < constructors.len()
                invariant
                    c <= constructors@.len(),
                decreases constructors@.len() - c,
            {
                if str_eq(constructors[c].name.as_str(), constructor.as_str()) {
                    duplicate = true;
                }
                c = c + 1;
            }
            if duplicate {
                return Err(self.error(prefixed("duplicate constructor: ", constructor.as_str())));
            }
            self.expect("{")?;
            let old_len = self.scope.len();
            let fields = self.telescope("}")?;
            self.scope.truncate(old_len);
            constructors.push(ConstructorDecl { name: constructor, fields });
        }
        self.book.declarations.set(index, Declaration::Adt(AdtDecl { name, parameters, kind, constructors }));
        Ok(())
    }

    /// `law name: for x: A ... exs y: B ... body`, a definition without a body.
    fn law(&mut self) -> (r: Result<(), ParseError>)
        requires
            old(self).wf(),
        ensures
            final(self).follows(old(self)),
    {
        let raw = self.name()?;
        let name = self.qualify(raw.as_str());
        self.require_fresh(name.as_str())?;
        self.expect(":")?;
        let mut clauses: Vec<(bool, Binder)> = Vec::new();
        let mut parameters: Vec<Binder> = Vec::new();
        let mut universal = true;
        loop
            invariant
                self.follows(old(self)),
                clauses@.len() <= LIST_LIMIT,
            decreases LIST_LIMIT - clauses@.len(),
        {
            if !(self.is("for") || self.is("exs")) {
                break;
            }
            if clauses.len() >= LIST_LIMIT {
                return self.fail("law telescope exceeds the parser resource limit of 128");
            }
            let all = self.take("for");
            if !all {
                self.expect("exs")?;
                universal = false;
            }
            let quant = if all {
                self.quant()
            } else {
                Quant::Lone
            };
            let n = self.name()?;
            self.expect(":")?;
            let mut ty = self.expression(0)?;
            if self.take("where") {
                let old_len = self.scope.len();
                let v = self.open(n.clone());
                let predicate = self.expression(0)?;
                self.scope.truncate(old_len);
                ty = apply(term(Term::Ref("Exists".to_owned())), vec![ty, term(Term::Lam { name: n.clone(), id: v.id, body: predicate })]);
            }
            let v = self.open(n.clone());
            let b = Binder { quant, name: n, id: v.id, ty };
            if universal {
                parameters.push(copy_binder(&b));
            }
            clauses.push((all, b));
        }
        let body = self.body(0)?;
        let none: Vec<Variable> = Vec::new();
        let mut ty = self.flattened(&body, &none)?;
        let mut k: usize = clauses.len();
        while k > 0
            invariant
                k <= clauses@.len(),
            decreases k,
        {
            k = k - 1;
            let b = copy_binder(&clauses[k].1);
            ty = if clauses[k].0 {
                arrows(&vec![b], ty)
            } else {
                apply(term(Term::Ref("Exists".to_owned())), vec![b.ty, term(Term::Lam { name: b.name, id: b.id, body: ty })])
            };
        }
        let nat_name = self.resolve("Nat");
        self.book.declarations.push(
            Declaration::Def(DefDecl { name, parameters, ty: qualify_operators(&ty, nat_name.as_str()), body: None, unsafe_: false, foreign: false }),
        );
        Ok(())
    }

    /// Every declaration up to the end of the tokens.
    pub fn declarations(&mut self) -> (r: Result<(), ParseError>)
        requires
            old(self).wf(),
        ensures
            final(self).follows(old(self)),
            r is Ok ==> final(self).text().len() == 0,
            old(self).text().len() == 0 ==> r is Ok && *final(self) == *old(self),
    {
        loop
            invariant
                self.follows(old(self)),
                old(self).text().len() == 0 ==> *self == *old(self),
            ensures
                self.follows(old(self)),
                self.text().len() == 0,
            decreases self.remaining(),
        {
            if self.at_end() {
                break;
            }
            self.scope.clear();
            self.compile_bindings.clear();
            if self.take("type") {
                self.datatype()?;
            } else if self.take("law") {
                self.law()?;
            } else if self.take("def") {
                self.definition(false)?;
            } else if self.take("@") {
                self.expect("unsafe")?;
                self.expect("def")?;
                self.definition(true)?;
            } else {
                return self.fail("expected type, law, or def");
            }
        }
        Ok(())
    }
}

/// Bind a compile-time argument to a binder, replacing an earlier binding.
fn bind_compile(bindings: &mut Vec<(usize, TermRef)>, id: usize, value: TermRef)
    ensures
        forall|k: int| 0 <= k < old(bindings)@.len() && (#[trigger] old(bindings)@[k]).0 == id ==> final(bindings)@.len()
            == old(bindings)@.len(),
        (forall|k: int| 0 <= k < old(bindings)@.len() ==> (#[trigger] old(bindings)@[k]).0 != id) ==> final(bindings)@
            == old(bindings)@.push((id, value)),
        exists|k: int| 0 <= k < final(bindings)@.len() && final(bindings)@[k] == (id, value) && forall|j: int|
            0 <= j < k ==> (#[trigger] final(bindings)@[j]).0 != id,
        forall|j: int| 0 <= j < old(bindings)@.len() && (#[trigger] old(bindings)@[j]).0 != id ==> final(bindings)@[j]
            == old(bindings)@[j],
{
    let mut k: usize = 0;
    while k < bindings.len()
        invariant
            k <= bindings@.len(),
            bindings@ == old(bindings)@,
            forall|j: int| 0 <= j < k ==> (#[trigger] bindings@[j]).0 != id,
        decreases bindings@.len() - k,
    {
        if bindings[k].0 == id {
            bindings.set(k, (id, value));
            proof {
                assert(bindings@[k as int] == (id, value));
                assert forall|j: int| 0 <= j < k implies (#[trigger] bindings@[j]).0 != id by {
                    assert(bindings@[j] == old(bindings)@[j]);
                }
            }
            return;
        }
        k = k + 1;
    }
    bindings.push((id, value));
    proof {
        let last = bindings@.len() - 1;
        assert(bindings@[last] == (id, value));
        assert forall|j: int| 0 <= j < last implies (#[trigger] bindings@[j]).0 != id by {
            assert(bindings@[j] == old(bindings)@[j]);
        }
    }
}

/// How many leading parameters of a datatype range over quantities.
pub fn leading_quantities(parameters: &Vec<Binder>) -> (r: usize)
    ensures
        r <= parameters@.len(),
        forall|k: int| 0 <= k < r ==> *(#[trigger] parameters@[k]).ty is Qnt,
        r < parameters@.len() ==> !(*parameters@[r as int].ty is Qnt),
{
    let mut k: usize = 0;
    while k < parameters.len()
        invariant
            k <= parameters@.len(),
            forall|j: int| 0 <= j < k ==> *(#[trigger] parameters@[j]).ty is Qnt,
        decreases parameters@.len() - k,
    {
        match &*parameters[k].ty {
            Term::Qnt => {},
            _ => {
                return k;
            },
        }
        k = k + 1;
    }
    k
}

/// `count` quantity literals `q` followed by `args`.
pub fn prepend_quantities(count: usize, args: Vec<TermRef>, q: Quant) -> (r: Vec<TermRef>)
    ensures
        r@.len() == count + args@.len(),
        forall|k: int| 0 <= k < count ==> *(#[trigger] r@[k]) == Term::Qua(q),
        r@.skip(count as int) == args@,
{
    let mut out: Vec<TermRef> = Vec::new();
    let mut k: usize = 0;
    while k < count
        invariant
            k <= count,
            out@.len() == k,
            forall|j: int| 0 <= j < k ==> *(#[trigger] out@[j]) == Term::Qua(q),
        decreases count - k,
    {
        out.push(term(Term::Qua(q)));
        k = k + 1;
    }
    let ghost front = out@;
    let mut rest = args;
    out.append(&mut rest);
    proof {
        assert(out@.skip(count as int) =~= args@);
    }
    out

}

/// A copy of a binder.
pub fn copy_binder(b: &Binder) -> (r: Binder)
    ensures
        r == *b,
{
    Binder { quant: b.quant, name: b.name.clone(), id: b.id, ty: share(&b.ty) }
}

/// A copy of a telescope.
pub fn copy_binders(bs: &Vec<Binder>) -> (r: Vec<Binder>)
    ensures
        r@ == bs@,
{
    let mut out: Vec<Binder> = Vec::new();
    let mut k: usize = 0;
    while k < bs.len()
        invariant
            k <= bs@.len(),
            out@ == bs@.take(k as int),
        decreases bs@.len() - k,
    {
        out.push(copy_binder(&bs[k]));
        proof {
            assert(bs@.take(k + 1) =~= bs@.take(k as int).push(bs@[k as int]));
        }
        k = k + 1;
    }
    proof {
        assert(bs@.take(k as int) =~= bs@);
    }
    out
}

/// Set `key` to `value`, replacing an earlier entry.
pub fn insert_pair(v: &mut Vec<(String, String)>, key: String, value: String)
    ensures
        (forall|j: int| 0 <= j < old(v)@.len() ==> (#[trigger] old(v)@[j]).0@ != key@) ==> final(v)@ == old(v)@.push((key, value)),
        (exists|j: int| 0 <= j < old(v)@.len() && (#[trigger] old(v)@[j]).0@ == key@) ==> exists|j: int|
            0 <= j < old(v)@.len() && old(v)@[j].0@ == key@ && (forall|i: int| 0 <= i < j ==> (#[trigger] old(v)@[i]).0@ != key@)
                && final(v)@ == old(v)@.update(j, (key, value)),
{
    let mut k: usize = 0;
    while k < v.len()
        invariant
            k <= v@.len(),
            v@ == old(v)@,
            forall|i: int| 0 <= i < k ==> (#[trigger] v@[i]).0@ != key@,
        decreases v@.len() - k,
    {
        if str_eq(v[k].0.as_str(), key.as_str()) {
            v.set(k, (key, value));
            return;
        }
        k = k + 1;
    }
    v.push((key, value));
}

/// Record the contract of `name`, replacing an earlier one.
pub fn insert_foreign(v: &mut Vec<(String, ForeignDefinition)>, key: String, value: ForeignDefinition)
    ensures
        (forall|j: int| 0 <= j < old(v)@.len() ==> (#[trigger] old(v)@[j]).0@ != key@) ==> final(v)@ == old(v)@.push((key, value)),
        (exists|j: int| 0 <= j < old(v)@.len() && (#[trigger] old(v)@[j]).0@ == key@) ==> exists|j: int|
            0 <= j < old(v)@.len() && old(v)@[j].0@ == key@ && (forall|i: int| 0 <= i < j ==> (#[trigger] old(v)@[i]).0@ != key@)
                && final(v)@ == old(v)@.update(j, (key, value)),
{
    let mut k: usize = 0;
    while k < v.len()
        invariant
            k <= v@.len(),
            v@ == old(v)@,
            forall|i: int| 0 <= i < k ==> (#[trigger] v@[i]).0@ != key@,
        decreases v@.len() - k,
    {
        if str_eq(v[k].0.as_str(), key.as_str()) {
            v.set(k, (key, value));
            return;
        }
        k = k + 1;
    }
    v.push((key, value));
}

/// The characters between the first and the last of `cs`.
pub fn literal_inner_chars(cs: &Vec<char>) -> (r: Vec<char>)
    ensures
        r@ == literal_inner(cs@),
{
    if cs.len() >= 2 {
        crate::text::chars_between(cs, 1, cs.len() - 1)
    } else {
        Vec::new()
    }
}

/// The host symbol of a foreign definition: its name in ASCII lower case
/// with `.` and `/` replaced by `_`.
pub fn local_symbol(name: &str) -> (r: String)
    ensures
        r@.len() == name@.len(),
        forall|k: int| 0 <= k < name@.len() ==> #[trigger] r@[k] as u32 == symbol_code(name@[k]),
{
    let cs = chars_of(name);
    let mut out: Vec<char> = Vec::new();
    let mut k: usize = 0;
    while k < cs.len()
        invariant
            cs@ == name@,
            k <= cs@.len(),
            out@.len() == k,
            forall|j: int| 0 <= j < k ==> #[trigger] out@[j] as u32 == symbol_code(cs@[j]),
        decreases cs@.len() - k,
    {
        let c = cs[k];
        let mapped = if c == '.' || c == '/' {
            '_'
        } else if 'A' <= c && c <= 'Z' {
            lower(c)
        } else {
            c
        };
        out.push(mapped);
        k = k + 1;
    }
    string_of(out.as_slice())
}

pub open spec fn symbol_code(c: char) -> u32 {
    if c == '.' || c == '/' {
        '_' as u32
    } else if 'A' <= c <= 'Z' {
        ((c as u32) + 32) as u32
    } else {
        c as u32
    }
}

fn lower(c: char) -> (r: char)
    requires
        'A' <= c <= 'Z',
    ensures
        r as u32 == (c as u32) + 32,
{
    let u = (c as u32) + 32;
    match crate::text::char_from_u32(u) {
        Some(l) => l,
        None => c,
    }
}

/// The free variables of `t` are all in `scope`.
pub open spec fn closed(t: Term, scope: Seq<usize>) -> bool
    decreases t,
{
    match t {
        Term::Var { id, .. } => scope.contains(id),
        Term::GpuRef(_) => false,
        Term::Typ(g) => closed(*g, scope),
        Term::Min(a, b) => closed(*a, scope) && closed(*b, scope),
        Term::App(a, b) => closed(*a, scope) && closed(*b, scope),
        Term::Ann(a, b) => closed(*a, scope) && closed(*b, scope),
        Term::All { id, domain, body, .. } => closed(*domain, scope) && closed(*body, scope.push(id)),
        Term::Lam { id, body, .. } => closed(*body, scope.push(id)),
        Term::Adt { args, .. } => forall|k: int| 0 <= k < args@.len() ==> closed(*#[trigger] args@[k], scope),
        Term::Ctr { args, .. } => forall|k: int| 0 <= k < args@.len() ==> closed(*#[trigger] args@[k], scope),
        Term::Mat { arm, fallback, .. } => closed(*arm, scope) && closed(*fallback, scope),
        Term::Eql { left, right, ty } => closed(*left, scope) && closed(*right, scope) && closed(*ty, scope),
        Term::Rwt { evidence, motive, body } => closed(*evidence, scope) && closed(*motive, scope) && closed(*body, scope),
        Term::Let { bindings, body } => (forall|k: int| 0 <= k < bindings@.len() ==> closed(*#[trigger] bindings@[k].value, scope))
            && closed(*body, scope + binding_ids(bindings@)),
        _ => true,
    }
}

/// The binder identities of a list of let bindings.
pub open spec fn binding_ids(bs: Seq<LetBinding>) -> Seq<usize> {
    Seq::new(bs.len(), |k: int| bs[k].id)
}

/// The text of a quantity inside a template key.
pub open spec fn quant_chars(q: Quant) -> Seq<char> {
    match q {
        Quant::Erased => "0"@,
        Quant::Lone => "1"@,
        Quant::Many => "2"@,
    }
}

pub fn quant_text(q: Quant) -> (r: &'static str)
    ensures
        r@ == quant_chars(q),
{
    match q {
        Quant::Erased => "0",
        Quant::Lone => "1",
        Quant::Many => "2",
    }
}

/// `tag`, the byte length of `name` in decimal, `:`, then `name`.
pub open spec fn key_name(tag: Seq<char>, name: Seq<char>) -> Seq<char> {
    tag + spec_decimal(utf8_bytes(name)) + ":"@ + name
}

/// The distance from the innermost binder of `scope` to the latest one
/// that is `id`, or -1 where none is.
pub open spec fn binder_index(scope: Seq<usize>, id: usize) -> int
    decreases scope.len(),
{
    if scope.len() == 0 {
        -1
    } else if scope.last() == id {
        0
    } else if binder_index(scope.drop_last(), id) < 0 {
        -1
    } else {
        binder_index(scope.drop_last(), id) + 1
    }
}

/// The key of `t` under the binders `scope`: a parenthesised tag per node,
/// names with their byte length, bound variables by their distance to their
/// binder.
pub open spec fn key_term(t: Term, scope: Seq<usize>) -> Seq<char>
    decreases t, 1nat,
{
    "("@ + key_body(t, scope) + ")"@
}

/// The key of `t` inside its parentheses.
pub open spec fn key_body(t: Term, scope: Seq<usize>) -> Seq<char>
    decreases t, 0nat,
{
    match t {
        Term::Var { id, .. } => key_name("v"@, spec_decimal(binder_index(scope, id) as nat)),
        Term::Ref(name) => key_name("r"@, name@),
        Term::Typ(g) => "t"@ + key_term(*g, scope),
        Term::Qnt => "q"@,
        Term::Qua(q) => key_name("g"@, quant_chars(q)),
        Term::Min(a, b) => "m"@ + key_term(*a, scope) + key_term(*b, scope),
        Term::App(a, b) => "a"@ + key_term(*a, scope) + key_term(*b, scope),
        Term::Ann(a, b) => "n"@ + key_term(*a, scope) + key_term(*b, scope),
        Term::All { quant, id, domain, body, .. } => key_name("f"@, quant_chars(quant)) + key_term(*domain, scope)
            + key_term(*body, scope.push(id)),
        Term::Lam { id, body, .. } => "l"@ + key_term(*body, scope.push(id)),
        Term::Adt { name, args, excluded } => key_name("d"@, name@) + "["@ + key_terms(args@, scope) + "]"@
            + key_names(excluded@),
        Term::Ctr { name, args } => key_name("c"@, name@) + "["@ + key_terms(args@, scope) + "]"@,
        Term::Mat { constructor, arm, fallback } => key_name("b"@, constructor@) + key_term(*arm, scope) + key_term(
            *fallback,
            scope,
        ),
        Term::Efq => "e"@,
        Term::Eql { left, right, ty } => "="@ + key_term(*left, scope) + key_term(*right, scope) + key_term(*ty, scope),
        Term::Rfl => "p"@,
        Term::Rwt { evidence, motive, body } => "w"@ + key_term(*evidence, scope) + key_term(*motive, scope) + key_term(
            *body,
            scope,
        ),
        Term::Hole(name) => key_name("h"@, name@),
        Term::Let { bindings, body } => "s["@ + key_bindings(bindings@, scope) + "]"@ + key_term(
            *body,
            scope + binding_ids(bindings@),
        ),
        Term::GpuRef(_) => seq![],
    }
}

/// The keys of a list of terms, one after another.
pub open spec fn key_terms(ts: Seq<TermRef>, scope: Seq<usize>) -> Seq<char>
    decreases ts, 0nat,
{
    if ts.len() == 0 {
        seq![]
    } else {
        key_terms(ts.drop_last(), scope) + key_term(*ts.last(), scope)
    }
}

/// The keys of the values of let bindings, each after its quantity.
pub open spec fn key_bindings(bs: Seq<LetBinding>, scope: Seq<usize>) -> Seq<char>
    decreases bs, 0nat,
{
    if bs.len() == 0 {
        seq![]
    } else {
        key_bindings(bs.drop_last(), scope) + key_name("g"@, quant_chars(bs.last().quant)) + key_term(
            *bs.last().value,
            scope,
        )
    }
}

/// The excluded constructor names of a datatype, each tagged `x`.
pub open spec fn key_names(ns: Seq<String>) -> Seq<char>
    decreases ns.len(),
{
    if ns.len() == 0 {
        seq![]
    } else {
        key_names(ns.drop_last()) + key_name("x"@, ns.last()@)
    }
}

/// The number of nodes of `t` that a key visits.
pub open spec fn key_nodes(t: Term) -> nat
    decreases t,
{
    1 + match t {
        Term::Typ(g) => key_nodes(*g),
        Term::Min(a, b) => key_nodes(*a) + key_nodes(*b),
        Term::App(a, b) => key_nodes(*a) + key_nodes(*b),
        Term::Ann(a, b) => key_nodes(*a) + key_nodes(*b),
        Term::All { domain, body, .. } => key_nodes(*domain) + key_nodes(*body),
        Term::Lam { body, .. } => key_nodes(*body),
        Term::Adt { args, .. } => key_nodes_all(args@),
        Term::Ctr { args, .. } => key_nodes_all(args@),
        Term::Mat { arm, fallback, .. } => key_nodes(*arm) + key_nodes(*fallback),
        Term::Eql { left, right, ty } => key_nodes(*left) + key_nodes(*right) + key_nodes(*ty),
        Term::Rwt { evidence, motive, body } => key_nodes(*evidence) + key_nodes(*motive) + key_nodes(*body),
        Term::Let { bindings, body } => key_nodes_values(bindings@) + key_nodes(*body),
        _ => 0,
    }
}

pub open spec fn key_nodes_all(ts: Seq<TermRef>) -> nat
    decreases ts,
{
    if ts.len() == 0 {
        0
    } else {
        key_nodes_all(ts.drop_last()) + key_nodes(*ts.last())
    }
}

pub open spec fn key_nodes_values(bs: Seq<LetBinding>) -> nat
    decreases bs,
{
    if bs.len() == 0 {
        0
    } else {
        key_nodes_values(bs.drop_last()) + key_nodes(*bs.last().value)
    }
}

pub open spec fn max(a: nat, b: nat) -> nat {
    if a < b { b } else { a }
}

/// The number of nodes on the longest path from `t` down.
pub open spec fn key_height(t: Term) -> nat
    decreases t,
{
    1 + match t {
        Term::Typ(g) => key_height(*g),
        Term::Min(a, b) => max(key_height(*a), key_height(*b)),
        Term::App(a, b) => max(key_height(*a), key_height(*b)),
        Term::Ann(a, b) => max(key_height(*a), key_height(*b)),
        Term::All { domain, body, .. } => max(key_height(*domain), key_height(*body)),
        Term::Lam { body, .. } => key_height(*body),
        Term::Adt { args, .. } => key_height_all(args@),
        Term::Ctr { args, .. } => key_height_all(args@),
        Term::Mat { arm, fallback, .. } => max(key_height(*arm), key_height(*fallback)),
        Term::Eql { left, right, ty } => max(max(key_height(*left), key_height(*right)), key_height(*ty)),
        Term::Rwt { evidence, motive, body } => max(max(key_height(*evidence), key_height(*motive)), key_height(*body)),
        Term::Let { bindings, body } => max(key_height_values(bindings@), key_height(*body)),
        _ => 0,
    }
}

pub open spec fn key_height_all(ts: Seq<TermRef>) -> nat
    decreases ts,
{
    if ts.len() == 0 {
        0
    } else {
        max(key_height_all(ts.drop_last()), key_height(*ts.last()))
    }
}

pub open spec fn key_height_values(bs: Seq<LetBinding>) -> nat
    decreases bs,
{
    if bs.len() == 0 {
        0
    } else {
        max(key_height_values(bs.drop_last()), key_height(*bs.last().value))
    }
}

/// The key of a shared term.
pub open spec fn key_rc(t: TermRef, scope: Seq<usize>) -> Seq<char> {
    key_term(*t, scope)
}

/// The key of a term behind a reference.
pub open spec fn key_ref(t: &TermRef, scope: Seq<usize>) -> Seq<char> {
    key_term(**t, scope)
}

/// The key of a term behind a reference, inside its parentheses.
pub open spec fn key_body_ref(t: &TermRef, scope: Seq<usize>) -> Seq<char> {
    key_body(**t, scope)
}

/// The whole key of a list of template arguments.
pub open spec fn arguments_key(args: Seq<TermRef>) -> Seq<char> {
    "["@ + key_terms(args, seq![]) + "]"@
}

/// The key of `args` fits the limits: its text, its nodes and its depth.
pub open spec fn key_fits(args: Seq<TermRef>) -> bool {
    &&& utf8_bytes(arguments_key(args)) <= MAX_TEMPLATE_KEY_BYTES
    &&& key_nodes_all(args) <= 4096
    &&& key_height_all(args) <= 128
}

pub proof fn lemma_utf8_bytes_concat(a: Seq<char>, b: Seq<char>)
    ensures
        utf8_bytes(a + b) == utf8_bytes(a) + utf8_bytes(b),
    decreases b.len(),
{
    if b.len() > 0 {
        lemma_utf8_bytes_concat(a, b.drop_last());
        assert((a + b).drop_last() =~= a + b.drop_last());
        assert((a + b).last() == b.last());
    }
}

pub proof fn lemma_binder_index(scope: Seq<usize>, id: usize, k: int)
    requires
        0 <= k < scope.len(),
        scope[k] == id,
        forall|j: int| k < j < scope.len() ==> scope[j] != id,
    ensures
        binder_index(scope, id) == scope.len() - 1 - k,
    decreases scope.len(),
{
    if k < scope.len() - 1 {
        lemma_binder_index(scope.drop_last(), id, k);
    }
}

/// A structural key of closed template arguments. Bound variables are
/// written as their distance to their binder, so independently parsed
/// copies of one closed term share a key.
pub struct TemplateKey {
    pub text: Vec<char>,
    pub bytes: usize,
    pub nodes: usize,
}

impl TemplateKey {
    pub open spec fn wf(&self) -> bool {
        &&& self.bytes <= MAX_TEMPLATE_KEY_BYTES
        &&& self.bytes == utf8_bytes(self.text@)
        &&& self.nodes <= 4096
    }

    /// `self` is `old` with `s` written after it.
    pub open spec fn wrote(&self, old: &TemplateKey, s: Seq<char>) -> bool {
        &&& self.text@ == old.text@ + s
        &&& self.bytes == old.bytes + utf8_bytes(s)
    }

    fn write(&mut self, text: &str) -> (r: Result<(), &'static str>)
        requires
            old(self).wf(),
        ensures
            final(self).wf(),
            final(self).nodes == old(self).nodes,
            r is Ok ==> final(self).wrote(old(self), text@),
            old(self).bytes + utf8_bytes(text@) <= MAX_TEMPLATE_KEY_BYTES ==> r is Ok,
    {
        let n = crate::text::byte_len(text);
        if n > MAX_TEMPLATE_KEY_BYTES || self.bytes > MAX_TEMPLATE_KEY_BYTES - n {
            return Err("template argument key exceeds the resource limit of 2048 bytes");
        }
        let mut cs = chars_of(text);
        let ghost before = self.text@;
        self.text.append(&mut cs);
        proof {
            lemma_utf8_bytes_concat(before, text@);
        }
        self.bytes = self.bytes + n;
        Ok(())
    }

    fn name(&mut self, tag: &str, name: &str) -> (r: Result<(), &'static str>)
        requires
            old(self).wf(),
        ensures
            final(self).wf(),
            final(self).nodes == old(self).nodes,
            r is Ok ==> final(self).wrote(old(self), key_name(tag@, name@)),
            old(self).bytes + utf8_bytes(key_name(tag@, name@)) <= MAX_TEMPLATE_KEY_BYTES ==> r is Ok,
    {
        let ghost start = *self;
        let length = crate::text::decimal(crate::text::byte_len(name));
        proof {
            reveal_strlit(":");
            let d = spec_decimal(utf8_bytes(name@));
            lemma_utf8_bytes_concat(tag@, d);
            lemma_utf8_bytes_concat(tag@ + d, ":"@);
            lemma_utf8_bytes_concat(tag@ + d + ":"@, name@);
        }
        self.write(tag)?;
        self.write(length.as_str())?;
        self.write(":")?;
        self.write(name)?;
        proof {
            assert(self.text@ =~= start.text@ + key_name(tag@, name@));
        }
        Ok(())
    }

    /// The whole key text `s` is written after `old` and within the limit:
    /// every write along the way succeeds.
    pub open spec fn room(&self, s: Seq<char>) -> bool {
        self.bytes + utf8_bytes(s) <= MAX_TEMPLATE_KEY_BYTES
    }

    #[verifier::loop_isolation(false)]
    fn terms(&mut self, values: &Vec<TermRef>, scope: &Vec<usize>, depth: usize) -> (r: Result<bool, &'static str>)
        requires
            old(self).wf(),
            depth <= 129,
        ensures
            final(self).wf(),
            final(self).nodes >= old(self).nodes,
            r matches Ok(b) ==> (b <==> forall|k: int| 0 <= k < values@.len() ==> closed(*#[trigger] values@[k], scope@)),
            r == Ok::<bool, &'static str>(true) ==> final(self).wrote(old(self), "["@ + key_terms(values@, scope@) + "]"@)
                && final(self).nodes == old(self).nodes + key_nodes_all(values@),
            (forall|k: int| 0 <= k < values@.len() ==> closed(*#[trigger] values@[k], scope@)) && old(self).room(
                "["@ + key_terms(values@, scope@) + "]"@,
            ) && old(self).nodes + key_nodes_all(values@) <= 4096 && depth + key_height_all(values@) <= 128
                ==> r == Ok::<bool, &'static str>(true),
        decreases values@, 0nat,
    {
        let ghost start = *self;
        proof {
            lemma_bytes3("["@, key_terms(values@, scope@), "]"@);
            assert(values@.take(0) =~= Seq::<TermRef>::empty());
            assert(start.text@ + "["@ =~= start.text@ + ("["@ + key_terms(values@.take(0), scope@)));
        }
        self.write("[")?;
        let mut k: usize = 0;
        while k < values.len()
            invariant
                self.wf(),
                k <= values@.len(),
                depth <= 129,
                forall|j: int| 0 <= j < k ==> closed(*#[trigger] values@[j], scope@),
                self.wrote(&start, "["@ + key_terms(values@.take(k as int), scope@)),
                self.nodes == start.nodes + key_nodes_all(values@.take(k as int)),
                utf8_bytes("["@ + key_terms(values@, scope@) + "]"@) == utf8_bytes("["@) + utf8_bytes(key_terms(values@, scope@)) + utf8_bytes("]"@),
            decreases values@.len() - k,
        {
            proof {
                assert(decreases_to!(values@ => values@[k as int]));
                assert(values@.take(k + 1).drop_last() =~= values@.take(k as int));
                assert(values@.take(k + 1).last() == values@[k as int]);
                lemma_key_terms_take(values@, scope@, k + 1);
                lemma_bytes3("["@, key_terms(values@.take(k as int), scope@), key_rc(values@[k as int], scope@));
                lemma_utf8_bytes_concat("["@, key_terms(values@.take(k as int), scope@));
                lemma_utf8_bytes_concat(key_terms(values@.take(k as int), scope@), key_rc(values@[k as int], scope@));
                assert(key_terms(values@.take(k + 1), scope@) == key_terms(values@.take(k as int), scope@) + key_rc(
                    values@[k as int],
                    scope@,
                ));
                assert("["@ + key_terms(values@.take(k + 1), scope@) =~= ("["@ + key_terms(values@.take(k as int), scope@))
                    + key_rc(values@[k as int], scope@));
            }
            if !self.term(&values[k], scope, depth + 1)? {
                return Ok(false);
            }
            proof {
                assert(self.text@ =~= start.text@ + ("["@ + key_terms(values@.take(k + 1), scope@)));
            }
            k = k + 1;
        }
        proof {
            assert(values@.take(k as int) =~= values@);
            lemma_utf8_bytes_concat("["@, key_terms(values@, scope@));
        }
        self.write("]")?;
        proof {
            assert(self.text@ =~= start.text@ + ("["@ + key_terms(values@, scope@) + "]"@));
        }
        Ok(true)
    }

    /// Write the key of `value`; `Ok(false)` when it has a variable bound
    /// outside it.
    fn term(&mut self, value: &TermRef, scope: &Vec<usize>, depth: usize) -> (r: Result<bool, &'static str>)
        requires
            old(self).wf(),
        ensures
            final(self).wf(),
            final(self).nodes >= old(self).nodes,
            r matches Ok(b) ==> (b <==> closed(**value, scope@)),
            r == Ok::<bool, &'static str>(true) ==> final(self).wrote(old(self), key_ref(value, scope@))
                && final(self).nodes == old(self).nodes + key_nodes(**value),
            closed(**value, scope@) && old(self).room(key_ref(value, scope@)) && old(self).nodes + key_nodes(**value)
                <= 4096 && depth + key_height(**value) <= 129 ==> r == Ok::<bool, &'static str>(true),
        decreases **value, 2nat,
    {
        let ghost start = *self;
        proof {
            lemma_bytes3("("@, key_body_ref(value, scope@), ")"@);
            lemma_utf8_bytes_concat("("@, key_body_ref(value, scope@));
        }
        if depth > 128 || self.nodes >= 4096 {
            return Err("template argument structure exceeds the key resource limit");
        }
        self.nodes = self.nodes + 1;
        self.write("(")?;
        if !self.body(value, scope, depth)? {
            return Ok(false);
        }
        self.write(")")?;
        proof {
            assert(self.text@ =~= start.text@ + key_ref(value, scope@));
        }
        Ok(true)
    }

    /// Write the key of `value` inside its parentheses.
    #[verifier::loop_isolation(false)]
    #[verifier::spinoff_prover]
    #[verifier::rlimit(80)]
    fn body(&mut self, value: &TermRef, scope: &Vec<usize>, depth: usize) -> (r: Result<bool, &'static str>)
        requires
            old(self).wf(),
            depth <= 128,
        ensures
            final(self).wf(),
            final(self).nodes >= old(self).nodes,
            r matches Ok(b) ==> (b <==> closed(**value, scope@)),
            r == Ok::<bool, &'static str>(true) ==> final(self).wrote(old(self), key_body_ref(value, scope@))
                && final(self).nodes + 1 == old(self).nodes + key_nodes(**value),
            closed(**value, scope@) && old(self).room(key_body_ref(value, scope@)) && old(self).nodes + key_nodes(**value)
                <= 4097 && depth + key_height(**value) <= 129 ==> r == Ok::<bool, &'static str>(true),
        decreases **value, 1nat,
    {
        let ghost start = *self;
        match &**value {
            Term::Var { id, .. } => {
                let mut k: usize = scope.len();
                let mut found: Option<usize> = None;
                while k > 0 && found.is_none()
                    invariant
                        k <= scope@.len(),
                        found is None ==> forall|j: int| k <= j < scope@.len() ==> scope@[j] != *id,
                        found matches Some(f) ==> f < scope@.len() && scope@[scope@.len() - 1 - f] == *id
                            && forall|j: int| scope@.len() - 1 - f < j < scope@.len() ==> scope@[j] != *id,
                    decreases k,
                {
                    k = k - 1;
                    if scope[k] == *id {
                        found = Some(scope.len() - 1 - k);
                    }
                }
                match found {
                    None => {
                        proof {
                            assert(!scope@.contains(*id));
                        }
                        Ok(false)
                    },
                    Some(index) => {
                        let digits = crate::text::decimal(index);
                        proof {
                            lemma_binder_index(scope@, *id, scope@.len() - 1 - index);
                        }
                        self.name("v", digits.as_str())?;
                        Ok(true)
                    },
                }
            },
            Term::Ref(name) => {
                self.name("r", name.as_str())?;
                Ok(true)
            },
            Term::GpuRef(_) => Ok(false),
            Term::Typ(_) | Term::Lam { .. } => self.one(value, scope, depth),
            Term::Qnt => {
                self.write("q")?;
                Ok(true)
            },
            Term::Qua(q) => {
                self.name("g", quant_text(*q))?;
                Ok(true)
            },
            Term::Min(..) | Term::App(..) | Term::Ann(..) | Term::All { .. } | Term::Mat { .. } => self.pair(value, scope, depth),
            Term::Adt { .. } | Term::Ctr { .. } => self.data(value, scope, depth),
            Term::Efq => {
                self.write("e")?;
                Ok(true)
            },
            Term::Eql { .. } | Term::Rwt { .. } => self.triple(value, scope, depth),
            Term::Rfl => {
                self.write("p")?;
                Ok(true)
            },
            Term::Hole(name) => {
                self.name("h", name.as_str())?;
                Ok(true)
            },
            Term::Let { .. } => self.let_body(value, scope, depth),
        }
    }

    /// The key of a node with one child: a type's grade, or a lambda's body.
    #[verifier::spinoff_prover]
    fn one(&mut self, value: &TermRef, scope: &Vec<usize>, depth: usize) -> (r: Result<bool, &'static str>)
        requires
            old(self).wf(),
            depth <= 128,
            **value is Typ || **value is Lam,
        ensures
            final(self).wf(),
            final(self).nodes >= old(self).nodes,
            r matches Ok(b) ==> (b <==> closed(**value, scope@)),
            r == Ok::<bool, &'static str>(true) ==> final(self).wrote(old(self), key_body_ref(value, scope@))
                && final(self).nodes + 1 == old(self).nodes + key_nodes(**value),
            closed(**value, scope@) && old(self).room(key_body_ref(value, scope@)) && old(self).nodes + key_nodes(**value)
                <= 4097 && depth + key_height(**value) <= 129 ==> r == Ok::<bool, &'static str>(true),
        decreases **value, 0nat,
    {
        let ghost start = *self;
        match &**value {
            Term::Typ(grade) => {
                proof {
                    lemma_utf8_bytes_concat("t"@, key_ref(grade, scope@));
                }
                self.write("t")?;
                if !self.term(grade, scope, depth + 1)? {
                    return Ok(false);
                }
                proof {
                    assert(self.text@ =~= start.text@ + key_body_ref(value, scope@));
                }
                Ok(true)
            },
            Term::Lam { id, body, .. } => {
                let ghost inner = scope@.push(*id);
                proof {
                    lemma_utf8_bytes_concat("l"@, key_ref(body, inner));
                }
                self.write("l")?;
                let mut nested = copy_ids(scope);
                nested.push(*id);
                proof {
                    assert(nested@ =~= inner);
                }
                if !self.term(body, &nested, depth + 1)? {
                    return Ok(false);
                }
                proof {
                    assert(self.text@ =~= start.text@ + key_body_ref(value, scope@));
                }
                Ok(true)
            },
            _ => Ok(false),
        }
    }

    /// The key of a node with two children.
    #[verifier::spinoff_prover]
    fn pair(&mut self, value: &TermRef, scope: &Vec<usize>, depth: usize) -> (r: Result<bool, &'static str>)
        requires
            old(self).wf(),
            depth <= 128,
            **value is Min || **value is App || **value is Ann || **value is All || **value is Mat,
        ensures
            final(self).wf(),
            final(self).nodes >= old(self).nodes,
            r matches Ok(b) ==> (b <==> closed(**value, scope@)),
            r == Ok::<bool, &'static str>(true) ==> final(self).wrote(old(self), key_body_ref(value, scope@))
                && final(self).nodes + 1 == old(self).nodes + key_nodes(**value),
            closed(**value, scope@) && old(self).room(key_body_ref(value, scope@)) && old(self).nodes + key_nodes(**value)
                <= 4097 && depth + key_height(**value) <= 129 ==> r == Ok::<bool, &'static str>(true),
        decreases **value, 0nat,
    {
        let ghost start = *self;
        match &**value {
            Term::Min(a, b) | Term::App(a, b) | Term::Ann(a, b) => {
                let tag = match &**value {
                    Term::Min(..) => "m",
                    Term::App(..) => "a",
                    _ => "n",
                };
                proof {
                    reveal_strlit("m");
                    reveal_strlit("a");
                    reveal_strlit("n");
                    assert(key_body_ref(value, scope@) =~= tag@ + key_ref(a, scope@) + key_ref(b, scope@));
                    lemma_bytes3(tag@, key_ref(a, scope@), key_ref(b, scope@));
                    lemma_utf8_bytes_concat(tag@, key_ref(a, scope@));
                }
                self.write(tag)?;
                if !self.term(a, scope, depth + 1)? || !self.term(b, scope, depth + 1)? {
                    return Ok(false);
                }
                proof {
                    assert(self.text@ =~= start.text@ + key_body_ref(value, scope@));
                }
                Ok(true)
            },
            Term::All { quant, id, domain, body, .. } => {
                let ghost inner = scope@.push(*id);
                let ghost tag = key_name("f"@, quant_chars(*quant));
                proof {
                    lemma_bytes3(tag, key_ref(domain, scope@), key_ref(body, inner));
                    lemma_utf8_bytes_concat(tag, key_ref(domain, scope@));
                }
                self.name("f", quant_text(*quant))?;
                if !self.term(domain, scope, depth + 1)? {
                    return Ok(false);
                }
                let mut nested = copy_ids(scope);
                nested.push(*id);
                proof {
                    assert(nested@ =~= inner);
                }
                if !self.term(body, &nested, depth + 1)? {
                    return Ok(false);
                }
                proof {
                    assert(self.text@ =~= start.text@ + key_body_ref(value, scope@));
                }
                Ok(true)
            },
            Term::Mat { constructor, arm, fallback } => {
                let ghost tag = key_name("b"@, constructor@);
                proof {
                    lemma_bytes3(tag, key_ref(arm, scope@), key_ref(fallback, scope@));
                    lemma_utf8_bytes_concat(tag, key_ref(arm, scope@));
                }
                self.name("b", constructor.as_str())?;
                if !self.term(arm, scope, depth + 1)? || !self.term(fallback, scope, depth + 1)? {
                    return Ok(false);
                }
                proof {
                    assert(self.text@ =~= start.text@ + key_body_ref(value, scope@));
                }
                Ok(true)
            },
            _ => Ok(false),
        }
    }

    /// The key of a node with three children: an equality or a rewrite.
    #[verifier::spinoff_prover]
    fn triple(&mut self, value: &TermRef, scope: &Vec<usize>, depth: usize) -> (r: Result<bool, &'static str>)
        requires
            old(self).wf(),
            depth <= 128,
            **value is Eql || **value is Rwt,
        ensures
            final(self).wf(),
            final(self).nodes >= old(self).nodes,
            r matches Ok(b) ==> (b <==> closed(**value, scope@)),
            r == Ok::<bool, &'static str>(true) ==> final(self).wrote(old(self), key_body_ref(value, scope@))
                && final(self).nodes + 1 == old(self).nodes + key_nodes(**value),
            closed(**value, scope@) && old(self).room(key_body_ref(value, scope@)) && old(self).nodes + key_nodes(**value)
                <= 4097 && depth + key_height(**value) <= 129 ==> r == Ok::<bool, &'static str>(true),
        decreases **value, 0nat,
    {
        let ghost start = *self;
        let (tag, x, y, z) = match &**value {
            Term::Eql { left, right, ty } => ("=", left, right, ty),
            Term::Rwt { evidence, motive, body } => ("w", evidence, motive, body),
            _ => {
                return Ok(false);
            },
        };
        proof {
            reveal_strlit("=");
            reveal_strlit("w");
            assert(key_body_ref(value, scope@) =~= tag@ + key_ref(x, scope@) + key_ref(y, scope@) + key_ref(z, scope@));
            lemma_bytes4(tag@, key_ref(x, scope@), key_ref(y, scope@), key_ref(z, scope@));
            lemma_bytes3(tag@, key_ref(x, scope@), key_ref(y, scope@));
            lemma_utf8_bytes_concat(tag@, key_ref(x, scope@));
        }
        self.write(tag)?;
        if !self.term(x, scope, depth + 1)? || !self.term(y, scope, depth + 1)? || !self.term(z, scope, depth + 1)? {
            return Ok(false);
        }
        proof {
            assert(self.text@ =~= start.text@ + key_body_ref(value, scope@));
        }
        Ok(true)
    }

    /// The key of a datatype or a constructor: its name, its arguments in brackets, and a datatype's excluded constructors.
    #[verifier::spinoff_prover]
    #[verifier::loop_isolation(false)]
    fn data(&mut self, value: &TermRef, scope: &Vec<usize>, depth: usize) -> (r: Result<bool, &'static str>)
        requires
            old(self).wf(),
            depth <= 128,
            **value is Adt || **value is Ctr,
        ensures
            final(self).wf(),
            final(self).nodes >= old(self).nodes,
            r matches Ok(b) ==> (b <==> closed(**value, scope@)),
            r == Ok::<bool, &'static str>(true) ==> final(self).wrote(old(self), key_body_ref(value, scope@))
                && final(self).nodes + 1 == old(self).nodes + key_nodes(**value),
            closed(**value, scope@) && old(self).room(key_body_ref(value, scope@)) && old(self).nodes + key_nodes(**value)
                <= 4097 && depth + key_height(**value) <= 129 ==> r == Ok::<bool, &'static str>(true),
        decreases **value, 0nat,
    {
        let ghost start = *self;
        match &**value {
            Term::Adt { name, args, excluded } => {
                let ghost tag = key_name("d"@, name@);
                let ghost list = "["@ + key_terms(args@, scope@) + "]"@;
                proof {
                    assert(key_body_ref(value, scope@) =~= tag + list + key_names(excluded@));
                    lemma_bytes3(tag, list, key_names(excluded@));
                    lemma_utf8_bytes_concat(tag, list);
                    lemma_key_names_take(excluded@, 0);
                    assert(excluded@.take(0) =~= Seq::<String>::empty());
                }
                self.name("d", name.as_str())?;
                if !self.terms(args, scope, depth)? {
                    return Ok(false);
                }
                let ghost mid = *self;
                proof {
                    assert(mid.text@ =~= mid.text@ + key_names(excluded@.take(0)));
                    assert(mid.text@ =~= start.text@ + (tag + list));
                }
                let mut k: usize = 0;
                while k < excluded.len()
                    invariant
                        self.wf(),
                        k <= excluded@.len(),
                        self.nodes == mid.nodes,
                        self.wrote(&mid, key_names(excluded@.take(k as int))),
                        mid.wrote(&start, tag + list),
                        closed(**value, scope@) && start.room(key_body_ref(value, scope@)) ==> mid.room(key_names(excluded@)),
                    decreases excluded@.len() - k,
                {
                    proof {
                        assert(excluded@.take(k + 1).drop_last() =~= excluded@.take(k as int));
                        lemma_key_names_take(excluded@, k + 1);
                        lemma_utf8_bytes_concat(key_names(excluded@.take(k as int)), key_name("x"@, excluded@[k as int]@));
                    }
                    self.name("x", excluded[k].as_str())?;
                    proof {
                        assert(self.text@ =~= mid.text@ + key_names(excluded@.take(k + 1)));
                    }
                    k = k + 1;
                }
                proof {
                    assert(excluded@.take(k as int) =~= excluded@);
                    assert(self.text@ =~= start.text@ + key_body_ref(value, scope@));
                }
                Ok(true)
            },
            Term::Ctr { name, args } => {
                let ghost tag = key_name("c"@, name@);
                let ghost list = "["@ + key_terms(args@, scope@) + "]"@;
                proof {
                    assert(key_body_ref(value, scope@) =~= tag + list);
                    lemma_utf8_bytes_concat(tag, list);
                }
                self.name("c", name.as_str())?;
                if !self.terms(args, scope, depth)? {
                    return Ok(false);
                }
                proof {
                    assert(self.text@ =~= start.text@ + key_body_ref(value, scope@));
                }
                Ok(true)
            },
            _ => Ok(false),
        }
    }

    /// The key of a `let` inside its parentheses: the bindings' quantities
    /// and values in brackets, then the body under the new binders.
    #[verifier::loop_isolation(false)]
    #[verifier::spinoff_prover]
    #[verifier::rlimit(60)]
    fn let_body(&mut self, value: &TermRef, scope: &Vec<usize>, depth: usize) -> (r: Result<bool, &'static str>)
        requires
            old(self).wf(),
            depth <= 128,
            **value is Let,
        ensures
            final(self).wf(),
            final(self).nodes >= old(self).nodes,
            r matches Ok(b) ==> (b <==> closed(**value, scope@)),
            r == Ok::<bool, &'static str>(true) ==> final(self).wrote(old(self), key_body_ref(value, scope@))
                && final(self).nodes + 1 == old(self).nodes + key_nodes(**value),
            closed(**value, scope@) && old(self).room(key_body_ref(value, scope@)) && old(self).nodes + key_nodes(**value)
                <= 4097 && depth + key_height(**value) <= 129 ==> r == Ok::<bool, &'static str>(true),
        decreases **value, 0nat,
    {
        let ghost start = *self;
        let (bindings, body) = match &**value {
            Term::Let { bindings, body } => (bindings, body),
            _ => {
                return Ok(false);
            },
        };
        let ghost inner = scope@ + binding_ids(bindings@);
        proof {
            lemma_bytes4("s["@, key_bindings(bindings@, scope@), "]"@, key_ref(body, inner));
            lemma_bytes3("s["@, key_bindings(bindings@, scope@), "]"@);
            lemma_utf8_bytes_concat("s["@, key_bindings(bindings@, scope@));
            lemma_key_bindings_take(bindings@, scope@, 0);
            assert(bindings@.take(0) =~= Seq::<LetBinding>::empty());
        }
        self.write("s[")?;
        let ghost mid = *self;
        proof {
            assert(mid.text@ =~= mid.text@ + key_bindings(bindings@.take(0), scope@));
        }
        let mut k: usize = 0;
        while k < bindings.len()
            invariant
                self.wf(),
                k <= bindings@.len(),
                depth <= 128,
                forall|j: int| 0 <= j < k ==> closed(*#[trigger] bindings@[j].value, scope@),
                self.wrote(&mid, key_bindings(bindings@.take(k as int), scope@)),
                self.nodes == mid.nodes + key_nodes_values(bindings@.take(k as int)),
            decreases bindings@.len() - k,
        {
            proof {
                assert(decreases_to!(bindings@ => bindings@[k as int]));
                assert(decreases_to!(bindings@[k as int] => bindings@[k as int].value));
                assert(bindings@.take(k + 1).drop_last() =~= bindings@.take(k as int));
                assert(bindings@.take(k + 1).last() == bindings@[k as int]);
                lemma_key_bindings_take(bindings@, scope@, k + 1);
                lemma_bytes3(
                    key_bindings(bindings@.take(k as int), scope@),
                    key_name("g"@, quant_chars(bindings@[k as int].quant)),
                    key_rc(bindings@[k as int].value, scope@),
                );
                lemma_utf8_bytes_concat(
                    key_bindings(bindings@.take(k as int), scope@),
                    key_name("g"@, quant_chars(bindings@[k as int].quant)),
                );
            }
            self.name("g", quant_text(bindings[k].quant))?;
            if !self.term(&bindings[k].value, scope, depth + 1)? {
                return Ok(false);
            }
            proof {
                assert(self.text@ =~= mid.text@ + key_bindings(bindings@.take(k + 1), scope@));
            }
            k = k + 1;
        }
        proof {
            assert(bindings@.take(k as int) =~= bindings@);
        }
        self.write("]")?;
        let mut nested = copy_ids(scope);
        let mut j: usize = 0;
        while j < bindings.len()
            invariant
                j <= bindings@.len(),
                nested@ == scope@ + binding_ids(bindings@).take(j as int),
            decreases bindings@.len() - j,
        {
            nested.push(bindings[j].id);
            proof {
                assert(binding_ids(bindings@).take(j + 1) =~= binding_ids(bindings@).take(j as int).push(bindings@[j as int].id));
            }
            j = j + 1;
        }
        proof {
            assert(binding_ids(bindings@).take(j as int) =~= binding_ids(bindings@));
        }
        if !self.term(body, &nested, depth + 1)? {
            return Ok(false);
        }
        proof {
            assert(self.text@ =~= start.text@ + key_body_ref(value, scope@));
        }
        Ok(true)
    }
}

pub proof fn lemma_bytes3(a: Seq<char>, b: Seq<char>, c: Seq<char>)
    ensures
        utf8_bytes(a + b + c) == utf8_bytes(a) + utf8_bytes(b) + utf8_bytes(c),
{
    lemma_utf8_bytes_concat(a, b);
    lemma_utf8_bytes_concat(a + b, c);
}

pub proof fn lemma_bytes4(a: Seq<char>, b: Seq<char>, c: Seq<char>, d: Seq<char>)
    ensures
        utf8_bytes(a + b + c + d) == utf8_bytes(a) + utf8_bytes(b) + utf8_bytes(c) + utf8_bytes(d),
{
    lemma_bytes3(a, b, c);
    lemma_utf8_bytes_concat(a + b + c, d);
}

pub proof fn lemma_bytes5(a: Seq<char>, b: Seq<char>, c: Seq<char>, d: Seq<char>, e: Seq<char>)
    ensures
        utf8_bytes(a + b + c + d + e) == utf8_bytes(a) + utf8_bytes(b) + utf8_bytes(c) + utf8_bytes(d) + utf8_bytes(e),
{
    lemma_bytes4(a, b, c, d);
    lemma_utf8_bytes_concat(a + b + c + d, e);
}

pub proof fn lemma_bytes6(a: Seq<char>, b: Seq<char>, c: Seq<char>, d: Seq<char>, e: Seq<char>, f: Seq<char>)
    ensures
        utf8_bytes(a + b + c + d + e + f) == utf8_bytes(a) + utf8_bytes(b) + utf8_bytes(c) + utf8_bytes(d)
            + utf8_bytes(e) + utf8_bytes(f),
{
    lemma_bytes5(a, b, c, d, e);
    lemma_utf8_bytes_concat(a + b + c + d + e, f);
}

/// A prefix of a list of terms has no longer key, no more nodes and no
/// greater depth than the list.
pub proof fn lemma_key_terms_take(ts: Seq<TermRef>, scope: Seq<usize>, k: int)
    requires
        0 <= k <= ts.len(),
    ensures
        utf8_bytes(key_terms(ts.take(k), scope)) <= utf8_bytes(key_terms(ts, scope)),
        key_nodes_all(ts.take(k)) <= key_nodes_all(ts),
        key_height_all(ts.take(k)) <= key_height_all(ts),
    decreases ts.len(),
{
    if k == ts.len() {
        assert(ts.take(k) =~= ts);
    } else {
        lemma_key_terms_take(ts.drop_last(), scope, k);
        assert(ts.drop_last().take(k) =~= ts.take(k));
        lemma_utf8_bytes_concat(key_terms(ts.drop_last(), scope), key_rc(ts.last(), scope));
    }
}

pub proof fn lemma_key_bindings_take(bs: Seq<LetBinding>, scope: Seq<usize>, k: int)
    requires
        0 <= k <= bs.len(),
    ensures
        utf8_bytes(key_bindings(bs.take(k), scope)) <= utf8_bytes(key_bindings(bs, scope)),
        key_nodes_values(bs.take(k)) <= key_nodes_values(bs),
        key_height_values(bs.take(k)) <= key_height_values(bs),
    decreases bs.len(),
{
    if k == bs.len() {
        assert(bs.take(k) =~= bs);
    } else {
        lemma_key_bindings_take(bs.drop_last(), scope, k);
        assert(bs.drop_last().take(k) =~= bs.take(k));
        lemma_bytes3(
            key_bindings(bs.drop_last(), scope),
            key_name("g"@, quant_chars(bs.last().quant)),
            key_rc(bs.last().value, scope),
        );
    }
}

pub proof fn lemma_key_names_take(ns: Seq<String>, k: int)
    requires
        0 <= k <= ns.len(),
    ensures
        utf8_bytes(key_names(ns.take(k))) <= utf8_bytes(key_names(ns)),
    decreases ns.len(),
{
    if k == ns.len() {
        assert(ns.take(k) =~= ns);
    } else {
        lemma_key_names_take(ns.drop_last(), k);
        assert(ns.drop_last().take(k) =~= ns.take(k));
        lemma_utf8_bytes_concat(key_names(ns.drop_last()), key_name("x"@, ns.last()@));
    }
}

/// `f` never maps two identities to one.
pub open spec fn one_for_one(f: spec_fn(usize) -> usize) -> bool {
    forall|x: usize, y: usize| #[trigger] f(x) == #[trigger] f(y) ==> x == y
}

/// `b` is `a` with every binder and variable identity `x` replaced by
/// `f(x)`; the names of binders and variables are free to differ.
pub open spec fn renamed(a: Term, b: Term, f: spec_fn(usize) -> usize) -> bool
    decreases a,
{
    match a {
        Term::Var { id: i, .. } => b matches Term::Var { id: j, .. } && j == f(i),
        Term::Ref(x) => b matches Term::Ref(y) && x@ == y@,
        Term::GpuRef(x) => b matches Term::GpuRef(y) && x@ == y@,
        Term::Typ(x) => b matches Term::Typ(y) && renamed(*x, *y, f),
        Term::Qnt => b is Qnt,
        Term::Qua(p) => b matches Term::Qua(q) && p == q,
        Term::Min(x1, x2) => b matches Term::Min(y1, y2) && renamed(*x1, *y1, f) && renamed(*x2, *y2, f),
        Term::App(x1, x2) => b matches Term::App(y1, y2) && renamed(*x1, *y1, f) && renamed(*x2, *y2, f),
        Term::Ann(x1, x2) => b matches Term::Ann(y1, y2) && renamed(*x1, *y1, f) && renamed(*x2, *y2, f),
        Term::All { quant: q1, id: i, domain: x1, body: x2, .. } => b matches Term::All {
            quant: q2,
            id: j,
            domain: y1,
            body: y2,
            ..
        } && q1 == q2 && j == f(i) && renamed(*x1, *y1, f) && renamed(*x2, *y2, f),
        Term::Lam { id: i, body: x, .. } => b matches Term::Lam { id: j, body: y, .. } && j == f(i) && renamed(*x, *y, f),
        Term::Adt { name: n1, args: x, excluded: e1 } => b matches Term::Adt { name: n2, args: y, excluded: e2 }
            && n1@ == n2@ && crate::shape::same_names(e1@, e2@) && x@.len() == y@.len() && forall|k: int|
            0 <= k < x@.len() ==> renamed(*#[trigger] x@[k], *y@[k], f),
        Term::Ctr { name: n1, args: x } => b matches Term::Ctr { name: n2, args: y } && n1@ == n2@ && x@.len()
            == y@.len() && forall|k: int| 0 <= k < x@.len() ==> renamed(*#[trigger] x@[k], *y@[k], f),
        Term::Mat { constructor: c1, arm: x1, fallback: x2 } => b matches Term::Mat {
            constructor: c2,
            arm: y1,
            fallback: y2,
        } && c1@ == c2@ && renamed(*x1, *y1, f) && renamed(*x2, *y2, f),
        Term::Efq => b is Efq,
        Term::Eql { left: x1, right: x2, ty: x3 } => b matches Term::Eql { left: y1, right: y2, ty: y3 } && renamed(
            *x1,
            *y1,
            f,
        ) && renamed(*x2, *y2, f) && renamed(*x3, *y3, f),
        Term::Rfl => b is Rfl,
        Term::Rwt { evidence: x1, motive: x2, body: x3 } => b matches Term::Rwt {
            evidence: y1,
            motive: y2,
            body: y3,
        } && renamed(*x1, *y1, f) && renamed(*x2, *y2, f) && renamed(*x3, *y3, f),
        Term::Hole(x) => b matches Term::Hole(y) && x@ == y@,
        Term::Let { bindings: x, body: e1 } => b matches Term::Let { bindings: y, body: e2 } && x@.len() == y@.len()
            && (forall|k: int|
            0 <= k < x@.len() ==> (#[trigger] x@[k]).quant == y@[k].quant && y@[k].id == f(x@[k].id) && renamed(
                *x@[k].value,
                *y@[k].value,
                f,
            )) && renamed(*e1, *e2, f),
    }
}

proof fn lemma_binder_index_renamed(s: Seq<usize>, id: usize, f: spec_fn(usize) -> usize)
    requires
        one_for_one(f),
    ensures
        binder_index(s.map_values(f), f(id)) == binder_index(s, id),
        s.map_values(f).contains(f(id)) == s.contains(id),
    decreases s.len(),
{
    if s.len() > 0 {
        lemma_binder_index_renamed(s.drop_last(), id, f);
        assert(s.map_values(f).drop_last() =~= s.drop_last().map_values(f));
        assert(s.map_values(f).last() == f(s.last()));
        if s.map_values(f).contains(f(id)) {
            let k = choose|k: int| 0 <= k < s.map_values(f).len() && s.map_values(f)[k] == f(id);
            assert(s[k] == id);
        }
        if s.contains(id) {
            let k = choose|k: int| 0 <= k < s.len() && s[k] == id;
            assert(s.map_values(f)[k] == f(id));
        }
    } else {
        assert(s.map_values(f) =~= Seq::<usize>::empty());
    }
}

/// Renaming identities one for one keeps the key of a term, whether it is
/// closed, its nodes and its depth.
proof fn lemma_key_renamed(a: TermRef, b: TermRef, f: spec_fn(usize) -> usize, s: Seq<usize>)
    requires
        one_for_one(f),
        renamed(*a, *b, f),
    ensures
        key_term(*b, s.map_values(f)) == key_term(*a, s),
        key_body(*b, s.map_values(f)) == key_body(*a, s),
        closed(*b, s.map_values(f)) == closed(*a, s),
        key_nodes(*b) == key_nodes(*a),
        key_height(*b) == key_height(*a),
    decreases *a, 1nat,
{
    let t = s.map_values(f);
    match *a {
        Term::Var { id: i, .. } => {
            lemma_binder_index_renamed(s, i, f);
        },
        Term::Typ(x) => {
            if let Term::Typ(y) = *b {
                lemma_key_renamed(x, y, f, s);
            }
        },
        Term::Min(x1, x2) => {
            if let Term::Min(y1, y2) = *b {
                lemma_key_renamed(x1, y1, f, s);
                lemma_key_renamed(x2, y2, f, s);
            }
        },
        Term::App(x1, x2) => {
            if let Term::App(y1, y2) = *b {
                lemma_key_renamed(x1, y1, f, s);
                lemma_key_renamed(x2, y2, f, s);
            }
        },
        Term::Ann(x1, x2) => {
            if let Term::Ann(y1, y2) = *b {
                lemma_key_renamed(x1, y1, f, s);
                lemma_key_renamed(x2, y2, f, s);
            }
        },
        Term::All { id: i, domain: x1, body: x2, .. } => {
            if let Term::All { id: j, domain: y1, body: y2, .. } = *b {
                lemma_key_renamed(x1, y1, f, s);
                lemma_key_renamed(x2, y2, f, s.push(i));
                assert(s.push(i).map_values(f) =~= t.push(j));
            }
        },
        Term::Lam { id: i, body: x, .. } => {
            if let Term::Lam { id: j, body: y, .. } = *b {
                lemma_key_renamed(x, y, f, s.push(i));
                assert(s.push(i).map_values(f) =~= t.push(j));
            }
        },
        Term::Adt { args: x, excluded: e1, .. } => {
            if let Term::Adt { args: y, excluded: e2, .. } = *b {
                lemma_keys_renamed(x@, y@, f, s);
                lemma_key_names_same(e1@, e2@);
            }
        },
        Term::Ctr { args: x, .. } => {
            if let Term::Ctr { args: y, .. } = *b {
                lemma_keys_renamed(x@, y@, f, s);
            }
        },
        Term::Mat { arm: x1, fallback: x2, .. } => {
            if let Term::Mat { arm: y1, fallback: y2, .. } = *b {
                lemma_key_renamed(x1, y1, f, s);
                lemma_key_renamed(x2, y2, f, s);
            }
        },
        Term::Eql { left: x1, right: x2, ty: x3 } => {
            if let Term::Eql { left: y1, right: y2, ty: y3 } = *b {
                lemma_key_renamed(x1, y1, f, s);
                lemma_key_renamed(x2, y2, f, s);
                lemma_key_renamed(x3, y3, f, s);
            }
        },
        Term::Rwt { evidence: x1, motive: x2, body: x3 } => {
            if let Term::Rwt { evidence: y1, motive: y2, body: y3 } = *b {
                lemma_key_renamed(x1, y1, f, s);
                lemma_key_renamed(x2, y2, f, s);
                lemma_key_renamed(x3, y3, f, s);
            }
        },
        Term::Let { bindings: x, body: e1 } => {
            if let Term::Let { bindings: y, body: e2 } = *b {
                lemma_bindings_renamed(x@, y@, f, s);
                assert(binding_ids(y@) =~= binding_ids(x@).map_values(f));
                assert((s + binding_ids(x@)).map_values(f) =~= t + binding_ids(y@));
                lemma_key_renamed(e1, e2, f, s + binding_ids(x@));
            }
        },
        _ => {},
    }
}

proof fn lemma_keys_renamed(x: Seq<TermRef>, y: Seq<TermRef>, f: spec_fn(usize) -> usize, s: Seq<usize>)
    requires
        one_for_one(f),
        x.len() == y.len(),
        forall|k: int| 0 <= k < x.len() ==> renamed(*#[trigger] x[k], *y[k], f),
    ensures
        key_terms(y, s.map_values(f)) == key_terms(x, s),
        (forall|k: int| 0 <= k < y.len() ==> closed(*#[trigger] y[k], s.map_values(f))) == (forall|k: int|
            0 <= k < x.len() ==> closed(*#[trigger] x[k], s)),
        key_nodes_all(y) == key_nodes_all(x),
        key_height_all(y) == key_height_all(x),
    decreases x, 0nat,
{
    if x.len() > 0 {
        let n = x.len() - 1;
        assert(decreases_to!(x => x[n]));
        lemma_keys_renamed(x.drop_last(), y.drop_last(), f, s);
        lemma_key_renamed(x[n], y[n], f, s);
        assert forall|k: int| #![trigger x[k]] #![trigger y[k]] 0 <= k < x.len() implies closed(*x[k], s) == closed(*y[k], s.map_values(f)) by {
            if k < n {
                assert(x.drop_last()[k] == x[k]);
                assert(y.drop_last()[k] == y[k]);
                lemma_key_renamed(x[k], y[k], f, s);
            }
        }
    }
}

proof fn lemma_bindings_renamed(x: Seq<LetBinding>, y: Seq<LetBinding>, f: spec_fn(usize) -> usize, s: Seq<usize>)
    requires
        one_for_one(f),
        x.len() == y.len(),
        forall|k: int|
            0 <= k < x.len() ==> (#[trigger] x[k]).quant == y[k].quant && y[k].id == f(x[k].id) && renamed(
                *x[k].value,
                *y[k].value,
                f,
            ),
    ensures
        key_bindings(y, s.map_values(f)) == key_bindings(x, s),
        (forall|k: int| 0 <= k < y.len() ==> closed(*#[trigger] y[k].value, s.map_values(f))) == (forall|k: int|
            0 <= k < x.len() ==> closed(*#[trigger] x[k].value, s)),
        key_nodes_values(y) == key_nodes_values(x),
        key_height_values(y) == key_height_values(x),
    decreases x, 0nat,
{
    if x.len() > 0 {
        let n = x.len() - 1;
        assert(decreases_to!(x => x[n]));
        assert(decreases_to!(x[n] => x[n].value));
        lemma_bindings_renamed(x.drop_last(), y.drop_last(), f, s);
        lemma_key_renamed(x[n].value, y[n].value, f, s);
        assert forall|k: int| #![trigger x[k]] #![trigger y[k]] 0 <= k < x.len() implies closed(*x[k].value, s) == closed(
            *y[k].value,
            s.map_values(f),
        ) by {
            if k < n {
                assert(x.drop_last()[k] == x[k]);
                assert(y.drop_last()[k] == y[k]);
                lemma_key_renamed(x[k].value, y[k].value, f, s);
            }
        }
    }
}

proof fn lemma_key_names_same(a: Seq<String>, b: Seq<String>)
    requires
        crate::shape::same_names(a, b),
    ensures
        key_names(a) == key_names(b),
    decreases a.len(),
{
    if a.len() > 0 {
        lemma_key_names_same(a.drop_last(), b.drop_last());
        assert(a.last()@ == b[a.len() - 1]@);
    }
}

/// Renaming the binders of template arguments one for one changes neither
/// their key, nor whether they are closed, nor whether the key fits its
/// limits: independently parsed copies of closed arguments share one
/// instance.
pub proof fn law_renamed_arguments_share_a_key(a: Seq<TermRef>, b: Seq<TermRef>, f: spec_fn(usize) -> usize)
    requires
        one_for_one(f),
        a.len() == b.len(),
        forall|k: int| 0 <= k < a.len() ==> renamed(*#[trigger] a[k], *b[k], f),
    ensures
        arguments_key(b) == arguments_key(a),
        (forall|k: int| 0 <= k < b.len() ==> closed(*#[trigger] b[k], Seq::empty())) == (forall|k: int|
            0 <= k < a.len() ==> closed(*#[trigger] a[k], Seq::empty())),
        key_fits(b) == key_fits(a),
{
    let s = Seq::<usize>::empty();
    lemma_keys_renamed(a, b, f, s);
    assert(s.map_values(f) =~= s);
}

/// The key of closed template arguments, `None` when one of them has a
/// variable bound by the caller. Arguments that are closed and whose key
/// fits the limits always get their key.
pub fn template_key(arguments: &Vec<TermRef>) -> (r: Result<Option<String>, &'static str>)
    ensures
        r matches Ok(Some(k)) ==> k@ == arguments_key(arguments@) && forall|j: int|
            0 <= j < arguments@.len() ==> closed(*#[trigger] arguments@[j], Seq::empty()),
        r matches Ok(None) ==> exists|j: int| 0 <= j < arguments@.len() && !closed(*#[trigger] arguments@[j], Seq::empty()),
        (forall|j: int| 0 <= j < arguments@.len() ==> closed(*#[trigger] arguments@[j], Seq::empty())) && key_fits(
            arguments@,
        ) ==> r is Ok,
{
    let mut key = TemplateKey { text: Vec::new(), bytes: 0, nodes: 0 };
    let scope: Vec<usize> = Vec::new();
    proof {
        assert(scope@ =~= Seq::<usize>::empty());
        assert(key.text@ =~= Seq::<char>::empty());
    }
    let ghost start = key;
    if key.terms(arguments, &scope, 0)? {
        proof {
            assert(key.text@ =~= arguments_key(arguments@));
        }
        Ok(Some(string_of(key.text.as_slice())))
    } else {
        Ok(None)
    }
}

/// The shared state of one load: the book, the next binder identity, the
/// templates, and for executable loads the foreign contracts and the
/// constructor tags.
pub struct ParseState {
    pub book: Book,
    pub fresh: usize,
    pub templates: Templates,
    pub foreign: Option<Vec<(String, ForeignDefinition)>>,
    pub constructor_tags: Option<Vec<(String, String)>>,
}

impl ParseState {
    pub open spec fn wf(&self) -> bool {
        self.templates.wf() && self.templates.active == 0
    }

    /// The state of a load that has not read anything yet.
    pub fn new(executable: bool) -> (r: ParseState)
        ensures
            r.wf(),
            r.book.declarations@.len() == 0,
            r.fresh == 0,
            r.foreign is Some <==> executable,
            r.constructor_tags is Some <==> executable,
    {
        ParseState {
            book: Book::new(),
            fresh: 0,
            templates: Templates::new(),
            foreign: if executable { Some(Vec::new()) } else { None },
            constructor_tags: if executable { Some(Vec::new()) } else { None },
        }
    }
}

/// Parse every declaration of one source into the shared state.
pub fn parse_into(
    source: &str,
    label: &str,
    namespace: &str,
    aliases: Vec<(String, String)>,
    origin: SourceOrigin,
    foreign: bool,
    state: &mut ParseState,
    floats: &dyn FloatSyntax,
) -> (r: Result<(), ParseError>)
    requires
        old(state).wf(),
    ensures
        final(state).wf(),
        final(state).fresh >= old(state).fresh,
        final(state).book.declarations@.len() >= old(state).book.declarations@.len(),
        lex_from(source@, 0, 1, 1) is Err ==> *final(state) == *old(state) && refused_as_scanned(source@, label@, r),
{
    let tokens = match lex(source, label) {
        Ok(t) => t,
        Err(e) => {
            return Err(e);
        },
    };
    let mut book = Book::new();
    std::mem::swap(&mut book, &mut state.book);
    let mut templates = Templates::new();
    std::mem::swap(&mut templates, &mut state.templates);
    let (kept_foreign, table) = if foreign {
        (None, state.foreign.take())
    } else {
        (state.foreign.take(), None)
    };
    let tags = state.constructor_tags.take();
    let mut parser = Parser {
        tokens,
        at: 0,
        label: label.to_owned(),
        namespace: namespace.to_owned(),
        aliases,
        scope: Vec::new(),
        fresh: state.fresh,
        book,
        depth: 0,
        reusable: Vec::new(),
        reusable_markers: Vec::new(),
        templates,
        instance_name: None,
        instance_arguments: Vec::new(),
        compile_bindings: Vec::new(),
        foreign: table,
        constructor_tags: tags,
        origin,
        floats,
    };
    let result = parser.declarations();
    let Parser { fresh, book, templates, foreign: table, constructor_tags, .. } = parser;
    state.fresh = fresh;
    state.book = book;
    state.templates = templates;
    state.foreign = if foreign { table } else { kept_foreign };
    state.constructor_tags = constructor_tags;
    result
}

/// Parse a self-contained Bend source book; local imports need a loader.
pub fn parse(source: &str, floats: &dyn FloatSyntax) -> (r: Result<Book, ParseError>)
    ensures
        refused_as_scanned(source@, "<input>"@, r),
{
    let mut state = ParseState::new(false);
    match parse_into(source, "<input>", "", Vec::new(), SourceOrigin::Standalone, false, &mut state, floats) {
        Ok(()) => Ok(state.book),
        Err(e) => Err(e),
    }
}

/// Parse one expression, rejecting any trailing input. Operators without a
/// type annotation act on `Nat`.
pub fn parse_term(source: &str, floats: &dyn FloatSyntax) -> (r: Result<TermRef, ParseError>)
    ensures
        r matches Ok(t) ==> exists|v: Term| height(v) <= TERM_DEPTH && crate::term::qualify_rel(v, "Nat"@, *t),
        refused_as_scanned(source@, "<expression>"@, r),
        lone_nat_literal(source@) matches Some(n) ==> (r matches Ok(t) && succ_chain(*t, n)),
        lone_numeral_literal(source@) matches Some(v) ==> (r is Ok <==> v <= u32::MAX),
        lone_numeral_literal(source@) matches Some(v) ==> (r matches Ok(t) ==> crate::term::is_u32(*t, v as u32)),
        numeral_then_digit_source(source@) ==> (r matches Err(e) && e.message@ == "unexpected trailing input"@),
        numeral_chain_source(source@) matches Some((op, v0, v1, v2)) ==> (r matches Ok(t) && left_chain(
            *t,
            "Nat"@ + operator_method(op),
            v0,
            v1,
            v2,
        )),
{
    let tokens = lex(source, "<expression>")?;
    proof {
        if lone_nat_literal(source@) is Some || lone_numeral_literal(source@) is Some || numeral_then_digit_source(source@)
            || numeral_chain_source(source@) is Some {
            let spans = crate::lexer::lex_from(source@, 0, 1, 1)->Ok_0.0;
            assert(crate::lexer::spans_of(tokens@.drop_last())[0] == spans[0]);
            assert(tokens@.drop_last()[0] == tokens@[0]);
            if numeral_then_digit_source(source@) {
                assert(crate::lexer::spans_of(tokens@.drop_last())[1] == spans[1]);
                assert(tokens@.drop_last()[1] == tokens@[1]);
            }
            if numeral_chain_source(source@) is Some {
                assert(crate::lexer::spans_of(tokens@.drop_last())[1] == spans[1]);
                assert(tokens@.drop_last()[1] == tokens@[1]);
                assert(crate::lexer::spans_of(tokens@.drop_last())[2] == spans[2]);
                assert(tokens@.drop_last()[2] == tokens@[2]);
                assert(crate::lexer::spans_of(tokens@.drop_last())[3] == spans[3]);
                assert(tokens@.drop_last()[3] == tokens@[3]);
                assert(crate::lexer::spans_of(tokens@.drop_last())[4] == spans[4]);
                assert(tokens@.drop_last()[4] == tokens@[4]);
            }
        }
    }
    let mut parser = Parser {
        tokens,
        at: 0,
        label: "<expression>".to_owned(),
        namespace: String::new(),
        aliases: Vec::new(),
        scope: Vec::new(),
        fresh: 0,
        book: Book::new(),
        depth: 0,
        reusable: Vec::new(),
        reusable_markers: Vec::new(),
        templates: Templates::new(),
        instance_name: None,
        instance_arguments: Vec::new(),
        compile_bindings: Vec::new(),
        foreign: None,
        constructor_tags: None,
        origin: SourceOrigin::Standalone,
        floats,
    };
    proof {
        if lone_nat_literal(source@) is Some {
            assert(parser.lone_nat());
        }
        if lone_numeral_literal(source@) is Some {
            assert(parser.lone_numeral());
        }
        if numeral_then_digit_source(source@) {
            assert(parser.numeral_then_digit());
        }
        if numeral_chain_source(source@) is Some {
            assert(parser.numeral_chain());
        }
    }
    let value = parser.expression(0)?;
    if !parser.at_end() {
        return parser.fail("unexpected trailing input");
    }
    proof {
        if numeral_then_digit_source(source@) {
            assert(parser.text().len() > 0);
        }
    }
    let result = qualify_operators(&value, "Nat");
    proof {
        assert(height(*value) <= TERM_DEPTH && crate::term::qualify_rel(*value, "Nat"@, *result));
        if let Some(n) = lone_nat_literal(source@) {
            lemma_qualify_keeps_succ_chain(value, "Nat"@, result, n);
        }
        if let Some(v) = lone_numeral_literal(source@) {
            lemma_qualify_keeps_u32(value, "Nat"@, result, v as u32);
        }
        if let Some((op, v0, v1, v2)) = numeral_chain_source(source@) {
            law_operator_associativity(op);
            reveal_strlit(".add");
            reveal_strlit(".sub");
            reveal_strlit(".mul");
            reveal_strlit(".div");
            let m = operator_method(op);
            assert(m.len() > 0 && m[0] == '.');
            lemma_qualify_keeps_left_chain(value, "Nat"@, result, m, v0, v1, v2);
        }
    }
    Ok(result)
}

fn saturating_add(a: usize, b: usize) -> (r: usize)
    ensures
        r == if a + b <= usize::MAX { (a + b) as usize } else { usize::MAX },
{
    if a <= usize::MAX - b {
        a + b
    } else {
        usize::MAX
    }
}

} // verus!
