use std::cell::RefCell;
use std::collections::BTreeMap;
use teamy_bend::book::Declaration;
use teamy_bend::lexer::lex;
use teamy_bend::loader::{load, load_executable, ModuleFiles};
use teamy_bend::parser::{decode_literal, parse, parse_term, template_key, FloatSyntax};
use std::rc::Rc;
use teamy_bend::term::{Quant, Term};

struct HostFloats;

impl FloatSyntax for HostFloats {
    fn parse_f32(&self, text: &str) -> Result<u32, String> {
        text.parse::<f32>().map(f32::to_bits).map_err(|e| e.to_string())
    }
}

/// Module files held in memory, under one fixture directory.
struct Fixture {
    files: RefCell<BTreeMap<String, String>>,
}

impl Fixture {
    fn new() -> Fixture {
        Fixture { files: RefCell::new(BTreeMap::new()) }
    }

    fn write(&self, name: &str, text: &str) -> String {
        let path = format!("/fixture/{name}");
        self.files.borrow_mut().insert(path.clone(), text.to_owned());
        path
    }
}

impl ModuleFiles for Fixture {
    fn canonical(&self, path: &str) -> Result<String, String> {
        if self.files.borrow().contains_key(path) {
            Ok(path.to_owned())
        } else {
            Err("No such file or directory (os error 2)".to_owned())
        }
    }

    fn read(&self, path: &str) -> Result<String, String> {
        self.files
            .borrow()
            .get(path)
            .cloned()
            .ok_or_else(|| "No such file or directory (os error 2)".to_owned())
    }

    fn base(&self) -> String {
        String::new()
    }

    fn executable_base(&self) -> String {
        String::new()
    }
}

#[test]
fn foreign_bodies_keep_strict_rejection_and_cannot_be_refilled() {
    let fixture = Fixture::new();
    let foreign = "def effect() -> Type: import \"effect.js\"\n";
    parse(foreign, &HostFloats).err().expect("standalone proof parsing rejects foreign bodies");
    let path = fixture.write("strict.bend", foreign);
    load(&path, &fixture, &HostFloats).err().expect("proof module loading rejects foreign bodies");
    for body in [
        "def effect() -> Type: import effect.js\n",
        "def effect() -> Type: import \"effect.txt\"\n",
        "def effect() -> Type: import \"effect.js\"\ndef effect() -> Type: Type\n",
        "law effect: Type\ndef effect(): import \"effect.js\"\ndef effect(): Type\n",
        "def effect() -> Type: import \"bad\0name.js\"\n",
    ] {
        let path = fixture.write("invalid.bend", body);
        load_executable(&path, &fixture, &HostFloats)
            .err()
            .expect("malformed foreign contract or duplicate fill");
    }
}

#[test]
fn a_foreign_law_fill_uses_its_actual_parameter_list() {
    let fixture = Fixture::new();
    let path = fixture.write("main.bend", "import Base\nlaw effect: @-A: Type -> @text: String -> IO(Unit)\ndef effect(A, text): import \"not-installed.js\"\n");
    let source = load_executable(&path, &fixture, &HostFloats)
        .ok()
        .expect("arrow signature and foreign fill");
    let contract = &source
        .foreign
        .iter()
        .find(|(name, _)| name == "effect")
        .expect("foreign contract")
        .1;
    assert_eq!(contract.declared_arity, 2);
    let event = source
        .book
        .declarations
        .iter()
        .rev()
        .find_map(|declaration| match declaration {
            Declaration::Def(definition) if definition.name == "effect" => Some(definition),
            _ => None,
        })
        .expect("foreign fill event");
    assert!(event.foreign);
    assert_eq!(event.parameters.len(), 2);
    assert_eq!(event.parameters[0].quant, Quant::Erased);
    assert_eq!(event.parameters[1].quant, Quant::Lone);
    assert!(contract.imports[0].path.starts_with('/'));
}

#[test]
fn lexer_reports_located_failures() {
    let tokens = lex("def f() -> U32: 1 # note\n", "<t>").ok().unwrap();
    let texts: Vec<&str> = tokens.iter().map(|t| t.text.as_str()).collect();
    assert_eq!(texts, ["def", "f", "(", ")", "->", "U32", ":", "1", ""]);
    assert_eq!(tokens[1].column, 5);
    let error = lex("x = \"open", "<t>").err().unwrap();
    assert_eq!(error.message, "unterminated literal");
    assert_eq!((error.line, error.column), (1, 5));
    let error = lex("a.", "<t>").err().unwrap();
    assert_eq!(error.message, "a name cannot end with a dot");
    let error = lex("12x", "<t>").err().unwrap();
    assert_eq!(error.message, "invalid numeric literal suffix");
    let error = lex("\n  $", "<t>").err().unwrap();
    assert_eq!(error.message, "unexpected character '$'");
    assert_eq!(error.describe(), "<t>:2:3: unexpected character '$'");
}

#[test]
fn lexer_scans_numbers_punctuation_and_comment_columns() {
    let tokens = lex("1.5e-3 7n x<&>y .&. a.b", "<t>").ok().unwrap();
    let texts: Vec<&str> = tokens.iter().map(|t| t.text.as_str()).collect();
    assert_eq!(texts, ["1.5e-3", "7n", "x", "<&>", "y", ".&.", "a.b", ""]);
    assert_eq!((tokens[1].start, tokens[1].end), (7, 9));
    assert_eq!(tokens[3].column, 12);
    // A comment advances the column by bytes; the end token records it.
    let tokens = lex("a #é", "<t>").ok().unwrap();
    assert_eq!(tokens.len(), 2);
    assert_eq!((tokens[1].line, tokens[1].column), (1, 6));
    let tokens = lex("a\n  b", "<t>").ok().unwrap();
    assert_eq!((tokens[1].line, tokens[1].column), (2, 3));
    assert_eq!((tokens[2].start, tokens[2].end), (5, 5));
    let error = lex("  'a\nb'", "<t>").err().unwrap();
    assert_eq!(error.message, "a string or character literal cannot cross a line");
    assert_eq!((error.line, error.column), (1, 3));
    let error = lex("ok\n\"a\\\"", "<t>").err().unwrap();
    assert_eq!(error.message, "unterminated literal");
    assert_eq!((error.line, error.column), (2, 1));
}

#[test]
fn literals_decode_escapes_exactly() {
    assert_eq!(decode_literal("\"a\\nb\\t\\\\\\\"\"").ok().unwrap(), vec!['a', '\n', 'b', '\t', '\\', '"']);
    assert_eq!(decode_literal("'\\u{1F600}'").ok().unwrap(), vec!['\u{1F600}']);
    assert_eq!(decode_literal("'\\u{+41}'").ok().unwrap(), vec!['A']);
    assert_eq!(decode_literal("'\\'").err().unwrap(), "unfinished escape");
    assert_eq!(decode_literal("'\\q'").err().unwrap(), "unknown escape: \\q");
    assert_eq!(decode_literal("'\\u41'").err().unwrap(), "Unicode escape needs braces");
    assert_eq!(decode_literal("'\\u{41'").err().unwrap(), "unfinished Unicode escape");
    assert_eq!(decode_literal("'\\u{D800}'").err().unwrap(), "invalid Unicode code point");
    assert!(decode_literal("'\\u{xyz}'").err().unwrap().starts_with("invalid Unicode escape: "));
    assert!(decode_literal("'\\u{110000000}'").err().unwrap().starts_with("invalid Unicode escape: "));
}

#[test]
fn operators_default_to_nat_and_respect_precedence() {
    let value = parse_term("a + b * c", &HostFloats).ok().unwrap();
    let Term::App(f, c) = &*value else { panic!("application") };
    let Term::App(add, a) = &**f else { panic!("binary operator") };
    assert!(matches!(&**add, Term::Ref(name) if name == "Nat.add"));
    assert!(matches!(&**a, Term::Ref(name) if name == "a"));
    let Term::App(g, _) = &**c else { panic!("nested product") };
    let Term::App(mul, _) = &**g else { panic!("binary operator") };
    assert!(matches!(&**mul, Term::Ref(name) if name == "Nat.mul"));
    let error = parse_term("a b", &HostFloats).err().unwrap();
    assert_eq!(error.message, "unexpected trailing input");
    assert_eq!(error.source, "<expression>");
}

#[test]
fn literals_build_words_naturals_and_strings() {
    let value = parse_term("3n", &HostFloats).ok().unwrap();
    let mut depth = 0;
    let mut cursor = value;
    loop {
        match &*cursor.clone() {
            Term::Ctr { name, args } if name == "Succ" => {
                depth += 1;
                cursor = args[0].clone();
            }
            Term::Ctr { name, args } if name == "Zero" && args.is_empty() => break,
            _ => panic!("unary natural"),
        }
    }
    assert_eq!(depth, 3);
    let value = parse_term("\"hi\"", &HostFloats).ok().unwrap();
    assert!(matches!(&*value, Term::Ctr { name, args } if name == "SCon" && args.len() == 2));
    let value = parse_term("1.5", &HostFloats).ok().unwrap();
    assert!(matches!(&*value, Term::Ctr { name, .. } if name == "F32"));
    let error = parse_term("4294967296", &HostFloats).err().unwrap();
    assert!(error.message.starts_with("U32 literal must be at most 4294967295"));
    let error = parse_term("129n", &HostFloats).err().unwrap();
    assert_eq!(error.message, "Nat literals above 128 exceed the parser's resource limit");
    let error = parse_term("'ab'", &HostFloats).err().unwrap();
    assert_eq!(error.message, "a character literal needs exactly one character");
    let error = parse_term("\"\\q\"", &HostFloats).err().unwrap();
    assert_eq!(error.message, "unknown escape: \\q");
}

#[test]
fn books_hold_datatypes_definitions_and_laws_in_order() {
    let book = parse(
        "type Bool is Data:\n  True{}\n  False{}\ndef not(b: Bool) -> Bool:\n  match b:\n    case True{}: False{}\n    case False{}: True{}\nlaw double: Type\n",
        &HostFloats,
    )
    .ok()
    .expect("a small book");
    assert_eq!(book.declarations.len(), 3);
    match &book.declarations[0] {
        Declaration::Adt(adt) => {
            assert_eq!(adt.name, "Bool");
            assert_eq!(adt.constructors.len(), 2);
        }
        Declaration::Def(_) => panic!("datatype first"),
    }
    match &book.declarations[1] {
        Declaration::Def(def) => {
            assert_eq!(def.name, "not");
            assert!(def.body.is_some());
            assert_eq!(def.parameters.len(), 1);
        }
        Declaration::Adt(_) => panic!("definition second"),
    }
    match &book.declarations[2] {
        Declaration::Def(def) => assert!(def.body.is_none()),
        Declaration::Adt(_) => panic!("law third"),
    }
    let error = parse("type A is Data:\n  X{}\ntype A is Data:\n", &HostFloats).err().unwrap();
    assert_eq!(error.message, "duplicate declaration: A");
    let error = parse("type A is Data:\n  X{}\n  X{}\n", &HostFloats).err().unwrap();
    assert_eq!(error.message, "duplicate constructor: X");
}

#[test]
fn module_loading_rejects_cycles_and_inconsistent_imports() {
    let fixture = Fixture::new();
    fixture.write("a.bend", "import b.bend as B\ndef x() -> Type: Type\n");
    fixture.write("b.bend", "import a.bend as A\n");
    let path = fixture.write("main.bend", "import a.bend as A\n");
    let error = load(&path, &fixture, &HostFloats).err().unwrap();
    assert_eq!(error.message, "import cycle");
    let path = fixture.write("bad.bend", "import c.txt as C\n");
    let error = load(&path, &fixture, &HostFloats).err().unwrap();
    assert_eq!(error.message, "expected a .bend path and a simple alias");
    assert_eq!((error.line, error.column), (1, 1));
    let path = fixture.write("hub.bend", "import 0xabc.bend as H\n");
    let error = load(&path, &fixture, &HostFloats).err().unwrap();
    assert!(error.message.starts_with("hub package imports are not supported"));
    fixture.write("lib.bend", "def one() -> Type: Type\n");
    let path = fixture.write("ok.bend", "import lib.bend as L\ndef two() -> Type: L.one\n");
    let book = load(&path, &fixture, &HostFloats).ok().expect("aliased import");
    assert_eq!(book.declarations.len(), 2);
    match &book.declarations[0] {
        Declaration::Def(def) => assert_eq!(def.name, "lib.one"),
        Declaration::Adt(_) => panic!("definition"),
    }
}

#[test]
fn template_keys_spell_closed_arguments_by_binder_distance() {
    let zero = Rc::new(Term::Ctr { name: "Zero".to_owned(), args: Vec::new() });
    assert_eq!(template_key(&vec![zero.clone()]).ok().unwrap().unwrap(), "[(c4:Zero[])]");
    let identity = |id: usize| {
        Rc::new(Term::Lam {
            name: "x".to_owned(),
            id,
            body: Rc::new(Term::Var { name: "x".to_owned(), id }),
        })
    };
    let first = template_key(&vec![identity(3)]).ok().unwrap().unwrap();
    assert_eq!(first, "[(l(v1:0))]");
    assert_eq!(template_key(&vec![identity(9)]).ok().unwrap().unwrap(), first);
    let named = Rc::new(Term::Ref("é".to_owned()));
    assert_eq!(template_key(&vec![named, zero]).ok().unwrap().unwrap(), "[(r2:é)(c4:Zero[])]");
    let open = Rc::new(Term::Var { name: "y".to_owned(), id: 4 });
    assert!(template_key(&vec![open]).ok().unwrap().is_none());
    let long = Rc::new(Term::Ref("n".repeat(3000)));
    assert!(template_key(&vec![long]).is_err());
}

fn successors(t: &Term) -> Option<usize> {
    match t {
        Term::Ctr { args, .. } if args.is_empty() => Some(0),
        Term::Ctr { args, .. } if args.len() == 1 => successors(&args[0]).map(|n| n + 1),
        _ => None,
    }
}

#[test]
fn lone_nat_literals_nest_successors_up_to_the_limit() {
    let value = parse_term("32n", &HostFloats).ok().unwrap();
    assert_eq!(successors(&value), Some(32));
    let value = parse_term("128n", &HostFloats).ok().unwrap();
    assert_eq!(successors(&value), Some(128));
    let value = parse_term("0n", &HostFloats).ok().unwrap();
    assert_eq!(successors(&value), Some(0));
    let error = parse_term("129n", &HostFloats).err().unwrap();
    assert_eq!(error.message, "Nat literals above 128 exceed the parser's resource limit");
    assert!(parse_term("1 2", &HostFloats).is_err());
}

fn word_value(t: &Term) -> Option<u32> {
    let Term::Ctr { name, args } = t else { return None };
    if name != "U32" || args.len() != 1 {
        return None;
    }
    let mut node = args[0].clone();
    let mut value: u32 = 0;
    for i in 0..32 {
        let Term::Ctr { name, args } = &*node else { return None };
        if name != "WCon" || args.len() != 2 {
            return None;
        }
        match &*args[0] {
            Term::Ctr { name, .. } if name == "True" => value |= 1 << i,
            Term::Ctr { name, .. } if name == "False" => {}
            _ => return None,
        }
        node = args[1].clone();
    }
    match &*node {
        Term::Ctr { name, args } if name == "WNil" && args.is_empty() => Some(value),
        _ => None,
    }
}

#[test]
fn lone_decimal_numerals_are_u32_words_least_significant_bit_first() {
    let value = parse_term("305419896", &HostFloats).ok().unwrap();
    assert_eq!(word_value(&value), Some(0x1234_5678));
    let value = parse_term("4294967295", &HostFloats).ok().unwrap();
    assert_eq!(word_value(&value), Some(u32::MAX));
    let value = parse_term("0", &HostFloats).ok().unwrap();
    assert_eq!(word_value(&value), Some(0));
    assert!(parse_term("4294967296", &HostFloats).is_err());
    let error = parse_term("1 2", &HostFloats).err().unwrap();
    assert_eq!((error.line, error.column), (1, 3));
    assert_eq!(error.message, "unexpected trailing input");
}
