use teamy_bend::book::{AdtDecl, ConstructorDecl, DefDecl, Declaration};
use teamy_bend::machine::{nat_literal, Machine, Program, Value};
use teamy_bend::naturals::{checked_optimizations as nat_optimizations, Declarations, Operation};
use teamy_bend::numeric::{checked_optimizations, is_checked_word_operation, strip_annotations, PureOptimization};
use teamy_bend::packed::checked_layouts;
use teamy_bend::parser::{parse, parse_term, FloatSyntax};
use teamy_bend::term::{term, Binder, Quant, Term, TermRef};

struct HostFloats;

impl FloatSyntax for HostFloats {
    fn parse_f32(&self, text: &str) -> Result<u32, String> {
        text.parse::<f32>().map(f32::to_bits).map_err(|e| e.to_string())
    }
}

fn reference(name: &str) -> TermRef {
    term(Term::Ref(name.to_owned()))
}

fn ctr(name: &str, args: Vec<TermRef>) -> TermRef {
    term(Term::Ctr { name: name.to_owned(), args })
}

fn unary(n: usize) -> TermRef {
    let mut value = ctr("Zero", vec![]);
    for _ in 0..n {
        value = ctr("Succ", vec![value]);
    }
    value
}

fn binder(quant: Quant, name: &str, id: usize, ty: TermRef) -> Binder {
    Binder { quant, name: name.to_owned(), id, ty }
}

fn data(name: &str, parameters: Vec<Binder>, constructors: Vec<(&str, Vec<Binder>)>) -> AdtDecl {
    AdtDecl {
        name: name.to_owned(),
        parameters,
        kind: term(Term::Typ(term(Term::Qua(Quant::Many)))),
        constructors: constructors
            .into_iter()
            .map(|(name, fields)| ConstructorDecl { name: name.to_owned(), fields })
            .collect(),
    }
}

fn word(argument: TermRef) -> TermRef {
    term(Term::App(reference("Word"), argument))
}

/// The native layouts as the checked Base library declares them.
fn base_layouts() -> Vec<AdtDecl> {
    vec![
        data("Bool", vec![], vec![("False", vec![]), ("True", vec![])]),
        data(
            "Nat",
            vec![],
            vec![("Zero", vec![]), ("Succ", vec![binder(Quant::Lone, "pred", 1, reference("Nat"))])],
        ),
        data("Word.Nil", vec![], vec![("WNil", vec![])]),
        data(
            "Word.Con",
            vec![binder(Quant::Erased, "n", 0, reference("Nat"))],
            vec![(
                "WCon",
                vec![
                    binder(Quant::Lone, "head", 1, reference("Bool")),
                    binder(Quant::Lone, "tail", 2, word(term(Term::Var { name: "n".to_owned(), id: 0 }))),
                ],
            )],
        ),
        data("U32", vec![], vec![("U32", vec![binder(Quant::Lone, "bits", 0, word(unary(32)))])]),
        data("F32", vec![], vec![("F32", vec![binder(Quant::Lone, "bits", 0, word(unary(32)))])]),
    ]
}

fn names(list: &[&str]) -> Vec<String> {
    list.iter().map(|name| (*name).to_owned()).collect()
}

fn get<'a>(datatypes: &'a mut [AdtDecl], name: &str) -> &'a mut AdtDecl {
    datatypes.iter_mut().find(|d| d.name == name).unwrap()
}

#[test]
fn packing_requires_complete_sealed_exact_base_layouts() {
    let all = ["Bool", "Nat", "Word", "Word.Nil", "Word.Con", "U32", "F32"];
    let origins = names(&all);
    let program = Program::from_executable(&vec![], &base_layouts(), &origins, &vec![], &vec![]);
    assert!(program.packed);
    assert!(checked_layouts(&base_layouts(), &origins));
    assert!(!checked_layouts(&base_layouts(), &vec![]));
    for name in all {
        let missing: Vec<String> = origins.iter().filter(|n| *n != name).cloned().collect();
        assert!(!checked_layouts(&base_layouts(), &missing), "{name}");
    }
    for mutation in 0..11 {
        let mut datatypes = base_layouts();
        match mutation {
            0 => datatypes.retain(|d| d.name != "Word.Con"),
            1 => get(&mut datatypes, "Bool").constructors[0].name = "Fake".to_owned(),
            2 => get(&mut datatypes, "Nat").kind = term(Term::Typ(term(Term::Qua(Quant::Lone)))),
            3 => get(&mut datatypes, "Nat").constructors[1].fields[0].ty = reference("Bool"),
            4 => get(&mut datatypes, "Word.Con").parameters[0].quant = Quant::Lone,
            5 => get(&mut datatypes, "Word.Con").constructors[0].fields[0].quant = Quant::Erased,
            6 => get(&mut datatypes, "Word.Con").constructors[0].fields[0].ty = reference("Nat"),
            7 => get(&mut datatypes, "Word.Con").parameters[0].id += 1,
            8 => get(&mut datatypes, "U32").constructors[0].fields[0].ty = reference("Word.Nil"),
            9 => get(&mut datatypes, "F32").constructors[0].fields.clear(),
            10 => get(&mut datatypes, "Word.Nil").name = "other.Word.Nil".to_owned(),
            _ => unreachable!(),
        }
        assert!(!checked_layouts(&datatypes, &origins), "mutation {mutation}");
    }
}

#[test]
fn a_word_of_thirty_one_bits_or_a_gpu_reference_to_word_is_still_checked_exactly() {
    let origins = names(&["Bool", "Nat", "Word", "Word.Nil", "Word.Con", "U32", "F32"]);
    let mut short = base_layouts();
    get(&mut short, "U32").constructors[0].fields[0].ty = word(unary(31));
    assert!(!checked_layouts(&short, &origins));
    let mut gpu = base_layouts();
    get(&mut gpu, "F32").constructors[0].fields[0].ty = term(Term::App(term(Term::GpuRef("Word".to_owned())), unary(32)));
    assert!(checked_layouts(&gpu, &origins));
}

fn split(source: &str) -> (Vec<DefDecl>, Vec<AdtDecl>) {
    let book = parse(source, &HostFloats).expect("fixture parses");
    let mut definitions = Vec::new();
    let mut datatypes = Vec::new();
    for declaration in book.declarations {
        match declaration {
            Declaration::Def(definition) => definitions.push(definition),
            Declaration::Adt(datatype) => datatypes.push(datatype),
        }
    }
    (definitions, datatypes)
}

#[test]
fn user_u32_name_and_signature_keep_the_ordinary_body_without_base_origin() {
    let source = "type U32 is Data: Left{} Right{}\ndef U32.add(a: U32, b: U32) -> U32: a\n";
    let (definitions, datatypes) = split(source);
    for origins in [&[][..], &["U32"][..], &["U32.add"][..]] {
        let program = Program::from_executable(&definitions, &datatypes, &names(origins), &vec![], &vec![]);
        assert!(program.optimizations.is_empty());
        let result = program
            .evaluate(
                "U32.add",
                &vec![parse_term("Left{}", &HostFloats).unwrap(), parse_term("Right{}", &HostFloats).unwrap()],
            )
            .unwrap();
        assert!(matches!(result.as_ref(), Term::Ctr { name, args } if name == "Left" && args.is_empty()));
    }
}

/// `U32.add` with the checked Base signature `(a: U32, b: U32) -> U32`.
fn word_add() -> DefDecl {
    let u32_ = reference("U32");
    DefDecl {
        name: "U32.add".to_owned(),
        parameters: vec![binder(Quant::Lone, "a", 0, u32_.clone()), binder(Quant::Lone, "b", 1, u32_.clone())],
        ty: term(Term::All {
            quant: Quant::Lone,
            name: "a".to_owned(),
            id: 0,
            domain: u32_.clone(),
            body: term(Term::All { quant: Quant::Lone, name: "b".to_owned(), id: 1, domain: u32_.clone(), body: u32_ }),
        }),
        body: Some(term(Term::Var { name: "a".to_owned(), id: 0 })),
        unsafe_: false,
        foreign: false,
    }
}

#[test]
fn optimization_requires_a_filled_ordinary_body_and_exact_affine_signature() {
    let origins = names(&["U32", "U32.add"]);
    let program = Program::from_executable(&vec![word_add()], &vec![], &origins, &vec![], &vec![]);
    assert_eq!(program.optimizations, vec![PureOptimization::Add]);
    assert!(program.definitions[0].body.is_some());
    let strict = Program::from_checked(vec![], vec![]);
    assert!(strict.optimizations.is_empty());
    for variant in 0..6 {
        let mut invalid = word_add();
        match variant {
            0 => invalid.body = None,
            1 => invalid.foreign = true,
            2 => invalid.unsafe_ = true,
            3 => {
                invalid.parameters.pop();
            }
            4 => invalid.parameters[0].quant = Quant::Many,
            5 => {
                invalid.ty = term(Term::All {
                    quant: Quant::Lone,
                    name: "a".to_owned(),
                    id: 0,
                    domain: reference("F32"),
                    body: term(Term::All {
                        quant: Quant::Lone,
                        name: "b".to_owned(),
                        id: 1,
                        domain: reference("U32"),
                        body: reference("U32"),
                    }),
                });
            }
            _ => unreachable!(),
        }
        assert!(checked_optimizations(&vec![invalid], &origins).is_empty(), "variant {variant}");
    }
}

#[test]
fn annotations_around_word_signatures_are_looked_through() {
    let mut annotated = word_add();
    annotated.ty = term(Term::Ann(annotated.ty.clone(), reference("Type")));
    assert!(is_checked_word_operation(&annotated, 2));
    assert!(!is_checked_word_operation(&annotated, 1));
    let nested = term(Term::Ann(term(Term::Ann(reference("U32"), reference("A"))), reference("B")));
    assert!(matches!(strip_annotations(&nested).as_ref(), Term::Ref(name) if name == "U32"));
    let origins = names(&["U32", "U32.add", "U32.mul"]);
    let mut mul = word_add();
    mul.name = "U32.mul".to_owned();
    assert_eq!(
        checked_optimizations(&vec![mul, annotated], &origins),
        vec![PureOptimization::Add, PureOptimization::Mul]
    );
}

/// A small checked base: `Nat.sub` refers to `Nat`, whose successor field
/// refers back to `Nat`; `Nat.cmp` refers to a helper `Nat.step`.
fn nat_base() -> (Vec<DefDecl>, Vec<AdtDecl>) {
    let sub = DefDecl {
        name: "Nat.sub".to_owned(),
        parameters: vec![binder(Quant::Lone, "a", 0, reference("Nat"))],
        ty: term(Term::All { quant: Quant::Lone, name: "a".to_owned(), id: 0, domain: reference("Nat"), body: reference("Nat") }),
        body: Some(term(Term::Lam { name: "a".to_owned(), id: 0, body: term(Term::Var { name: "a".to_owned(), id: 0 }) })),
        unsafe_: false,
        foreign: false,
    };
    let cmp = DefDecl {
        name: "Nat.cmp".to_owned(),
        parameters: vec![],
        ty: reference("Nat"),
        body: Some(reference("Nat.step")),
        unsafe_: false,
        foreign: false,
    };
    let step = DefDecl {
        name: "Nat.step".to_owned(),
        parameters: vec![],
        ty: reference("Nat"),
        body: Some(ctr("Zero", vec![])),
        unsafe_: false,
        foreign: false,
    };
    let layouts = base_layouts();
    (vec![sub, cmp, step], layouts)
}

#[test]
fn native_naturals_need_sealed_layouts_and_every_reached_declaration_unchanged() {
    let (base_definitions, base_datatypes) = nat_base();
    let (definitions, datatypes) = nat_base();
    let all = names(&[
        "Bool", "Nat", "Word", "Word.Nil", "Word.Con", "U32", "F32", "Nat.sub", "Nat.cmp", "Nat.step",
    ]);
    let checked = |definitions: &Vec<DefDecl>, datatypes: &Vec<AdtDecl>, origins: &Vec<String>| {
        nat_optimizations(&Declarations {
            definitions,
            datatypes,
            origins,
            base_definitions: &base_definitions,
            base_datatypes: &base_datatypes,
        })
    };
    assert_eq!(checked(&definitions, &datatypes, &all), vec![Operation::Sub, Operation::Cmp]);
    assert!(checked(&definitions, &datatypes, &vec![]).is_empty());
    let without_helper: Vec<String> = all.iter().filter(|n| *n != "Nat.step").cloned().collect();
    assert_eq!(checked(&definitions, &datatypes, &without_helper), vec![Operation::Sub]);
    let (mut changed, _) = nat_base();
    changed[2].body = Some(ctr("Succ", vec![ctr("Zero", vec![])]));
    assert_eq!(checked(&changed, &datatypes, &all), vec![Operation::Sub]);
    let mut renamed = nat_base().1;
    get(&mut renamed, "Nat").constructors[0].name = "Nil".to_owned();
    assert!(checked(&definitions, &renamed, &all).is_empty());
    let program = Program::from_executable(&definitions, &datatypes, &all, &base_definitions, &base_datatypes);
    assert_eq!(program.nat_optimizations, vec![Operation::Sub, Operation::Cmp]);
    assert!(program.packed);
}

#[test]
fn literals_do_not_unfold_or_evaluate_a_successor_tail() {
    for tail in [reference("bad_tail"), term(Term::Var { name: "n".to_owned(), id: 0 })] {
        assert!(nat_literal("Succ", &vec![tail]).is_none());
    }
    let origins = names(&["Bool", "Nat", "Word", "Word.Nil", "Word.Con", "U32", "F32"]);
    let program = Program::from_executable(&vec![], &base_layouts(), &origins, &vec![], &vec![]);
    let strict = Program::from_checked(vec![], vec![]);
    for (program, packed) in [(&program, true), (&strict, false)] {
        let mut machine = Machine::new(program);
        let id = machine.expression(parse_term("32n", &HostFloats).unwrap(), 0).unwrap();
        assert_eq!(matches!(machine.force(id).unwrap(), Value::PackedNat(32)), packed);
    }
}
