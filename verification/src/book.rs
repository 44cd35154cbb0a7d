//! Books of declarations: datatypes with their constructors, and definitions
//! with their types and bodies.
use crate::term::{share, term, Binder, Term, TermRef};
use std::rc::Rc;
use vstd::prelude::*;

verus! {

/// One constructor of a datatype and its field telescope.
pub struct ConstructorDecl {
    pub name: String,
    pub fields: Vec<Binder>,
}

/// A datatype: its parameters, its kind and its constructors.
pub struct AdtDecl {
    pub name: String,
    pub parameters: Vec<Binder>,
    pub kind: TermRef,
    pub constructors: Vec<ConstructorDecl>,
}

/// A definition, a law (no body), or a foreign contract (no body, `foreign`).
pub struct DefDecl {
    pub name: String,
    pub parameters: Vec<Binder>,
    pub ty: TermRef,
    pub body: Option<TermRef>,
    pub unsafe_: bool,
    pub foreign: bool,
}

pub enum Declaration {
    Def(DefDecl),
    Adt(AdtDecl),
}

/// Declarations in source order.
pub struct Book {
    pub declarations: Vec<Declaration>,
}

impl Book {
    pub fn new() -> (r: Book)
        ensures
            r.declarations@.len() == 0,
    {
        Book { declarations: Vec::new() }
    }
}

/// The name a declaration introduces.
pub open spec fn declared_name(d: Declaration) -> Seq<char> {
    match d {
        Declaration::Def(def) => def.name@,
        Declaration::Adt(adt) => adt.name@,
    }
}

/// The function type `@b1 -> ... -> @bn -> result` over a telescope.
pub open spec fn spec_arrows(parameters: Seq<Binder>, result: Term) -> Term
    decreases parameters.len(),
{
    if parameters.len() == 0 {
        result
    } else {
        let b = parameters[0];
        Term::All {
            quant: b.quant,
            name: b.name,
            id: b.id,
            domain: b.ty,
            body: Rc::new(spec_arrows(parameters.skip(1), result)),
        }
    }
}

/// The dependent function type of a telescope ending in `result`.
pub fn arrows(parameters: &Vec<Binder>, result: TermRef) -> (r: TermRef)
    ensures
        *r == spec_arrows(parameters@, *result),
{
    let ghost res = result;
    let mut out = result;
    let mut i: usize = parameters.len();
    while i > 0
        invariant
            i <= parameters@.len(),
            *out == spec_arrows(parameters@.skip(i as int), *res),
        decreases i,
    {
        i = i - 1;
        let b = &parameters[i];
        proof {
            assert(parameters@.skip(i as int).skip(1) =~= parameters@.skip(i + 1));
            assert(parameters@.skip(i as int)[0] == parameters@[i as int]);
        }
        out = term(Term::All { quant: b.quant, name: b.name.clone(), id: b.id, domain: share(&b.ty), body: out });
    }
    proof {
        assert(parameters@.skip(0) =~= parameters@);
    }
    out
}

} // verus!
