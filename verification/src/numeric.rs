//! Which checked Base word operations may run natively. A definition only
//! qualifies when it is the sealed Base one and its type is exactly a
//! telescope of used-once `U32` parameters returning `U32`.
use crate::book::DefDecl;
use crate::packed::{contains, has_name};
use crate::term::{Binder, Quant, Term, TermRef};
use crate::text::str_eq;
use vstd::prelude::*;

verus! {

/// An optimization of a checked ordinary body, never an opaque assumption.
#[derive(Clone, Copy, Debug, PartialEq, Eq, Structural)]
pub enum PureOptimization {
    Add,
    Mul,
    Shl,
}

pub open spec fn optimization_name(op: PureOptimization) -> Seq<char> {
    match op {
        PureOptimization::Add => "U32.add"@,
        PureOptimization::Mul => "U32.mul"@,
        PureOptimization::Shl => "U32.shl"@,
    }
}

pub open spec fn optimization_arity(op: PureOptimization) -> nat {
    match op {
        PureOptimization::Add => 2,
        PureOptimization::Mul => 2,
        PureOptimization::Shl => 1,
    }
}

impl PureOptimization {
    /// The Base definition this operation replaces.
    pub fn name(self) -> (r: &'static str)
        ensures
            r@ == optimization_name(self),
    {
        match self {
            PureOptimization::Add => "U32.add",
            PureOptimization::Mul => "U32.mul",
            PureOptimization::Shl => "U32.shl",
        }
    }

    /// How many `U32` arguments it takes.
    pub fn arity(self) -> (r: usize)
        ensures
            r == optimization_arity(self),
    {
        match self {
            PureOptimization::Add => 2,
            PureOptimization::Mul => 2,
            PureOptimization::Shl => 1,
        }
    }
}

/// A term with its outer type annotations removed.
pub open spec fn stripped(t: Term) -> Term
    decreases t,
{
    match t {
        Term::Ann(inner, _) => stripped(*inner),
        _ => t,
    }
}

/// Stripping twice is stripping once, and a telescope check strips first.
proof fn lemma_stripped_idempotent(t: TermRef)
    ensures
        stripped(stripped(*t)) == stripped(*t),
        forall|ps: Seq<Binder>| #[trigger] word_telescope(stripped(*t), ps) == word_telescope(*t, ps),
    decreases *t,
{
    if let Term::Ann(inner, _) = *t {
        lemma_stripped_idempotent(inner);
    }
}

/// Skip the outer annotations of a term.
pub fn strip_annotations(value: &TermRef) -> (r: &TermRef)
    ensures
        **r == stripped(**value),
{
    let mut current: &TermRef = value;
    loop
        invariant
            stripped(**current) == stripped(**value),
        decreases crate::term::height(**current),
    {
        match &**current {
            Term::Ann(inner, _) => {
                current = inner;
            },
            _ => {
                return current;
            },
        }
    }
}

/// `t` is exactly the reference `name` (not a GPU reference).
pub open spec fn plain_ref(t: Term, name: Seq<char>) -> bool {
    t matches Term::Ref(n) && n@ == name
}

/// The type is `∀(x1: U32) … ∀(xn: U32). U32` over exactly these used-once
/// parameters, up to annotations.
pub open spec fn word_telescope(ty: Term, parameters: Seq<Binder>) -> bool
    decreases parameters.len(),
{
    let t = stripped(ty);
    if parameters.len() == 0 {
        plain_ref(t, "U32"@)
    } else {
        let p = parameters[0];
        &&& t matches Term::All { quant, id, domain, body, .. }
        &&& quant == Quant::Lone
        &&& p.quant == Quant::Lone
        &&& id == p.id
        &&& plain_ref(stripped(*domain), "U32"@)
        &&& plain_ref(stripped(*p.ty), "U32"@)
        &&& word_telescope(*body, parameters.skip(1))
    }
}

/// A checked, safe, non-foreign definition with a body, of `arity` word
/// parameters and a word result.
pub open spec fn spec_is_checked_word_operation(d: DefDecl, arity: nat) -> bool {
    &&& d.body is Some
    &&& !d.foreign
    &&& !d.unsafe_
    &&& d.parameters@.len() == arity
    &&& word_telescope(*d.ty, d.parameters@)
}

fn plain_ref_to(t: &TermRef, name: &str) -> (r: bool)
    ensures
        r == plain_ref(**t, name@),
{
    match &**t {
        Term::Ref(n) => str_eq(n.as_str(), name),
        _ => false,
    }
}

pub fn is_checked_word_operation(definition: &DefDecl, arity: usize) -> (r: bool)
    ensures
        r == spec_is_checked_word_operation(*definition, arity as nat),
{
    if definition.body.is_none() || definition.foreign || definition.unsafe_ || definition.parameters.len() != arity {
        return false;
    }
    let ghost ps = definition.parameters@;
    let mut telescope: &TermRef = strip_annotations(&definition.ty);
    proof {
        lemma_stripped_idempotent(definition.ty);
        assert(ps.skip(0) =~= ps);
    }
    let mut i: usize = 0;
    while i < definition.parameters.len()
        invariant
            i <= ps.len(),
            ps == definition.parameters@,
            word_telescope(*definition.ty, ps) == word_telescope(**telescope, ps.skip(i as int)),
            **telescope == stripped(**telescope),
        decreases ps.len() - i,
    {
        let parameter = &definition.parameters[i];
        proof {
            assert(ps.skip(i as int)[0] == ps[i as int]);
            assert(ps.skip(i as int).skip(1) =~= ps.skip(i + 1));
        }
        match &**telescope {
            Term::All { quant, id, domain, body, .. } => {
                if *quant != Quant::Lone || parameter.quant != Quant::Lone || *id != parameter.id
                    || !plain_ref_to(strip_annotations(domain), "U32") || !plain_ref_to(
                    strip_annotations(&parameter.ty),
                    "U32",
                ) {
                    return false;
                }
                telescope = strip_annotations(body);
                proof {
                    lemma_stripped_idempotent(*body);
                }
            },
            _ => {
                return false;
            },
        }
        i = i + 1;
    }
    proof {
        assert(ps.skip(i as int).len() == 0);
    }
    plain_ref_to(telescope, "U32")
}

/// The first definition of that name.
pub open spec fn find_def(ds: Seq<DefDecl>, name: Seq<char>) -> Option<DefDecl>
    decreases ds.len(),
{
    if ds.len() == 0 {
        None
    } else if ds[0].name@ == name {
        Some(ds[0])
    } else {
        find_def(ds.skip(1), name)
    }
}

pub(crate) fn find_definition<'a>(ds: &'a Vec<DefDecl>, name: &str) -> (r: Option<&'a DefDecl>)
    ensures
        match r {
            Some(d) => find_def(ds@, name@) == Some(*d),
            None => find_def(ds@, name@) is None,
        },
{
    let mut i: usize = 0;
    proof {
        assert(ds@.skip(0) =~= ds@);
    }
    while i < ds.len()
        invariant
            i <= ds@.len(),
            find_def(ds@, name@) == find_def(ds@.skip(i as int), name@),
        decreases ds@.len() - i,
    {
        proof {
            assert(ds@.skip(i as int).skip(1) =~= ds@.skip(i + 1));
            assert(ds@.skip(i as int)[0] == ds@[i as int]);
        }
        if str_eq(ds[i].name.as_str(), name) {
            return Some(&ds[i]);
        }
        i = i + 1;
    }
    proof {
        assert(ds@.skip(i as int).len() == 0);
    }
    None
}

/// Whether `op` may replace its Base definition: the name and `U32` are
/// sealed Base, and the definition is a checked word operation of its arity.
pub open spec fn optimization_checked(defs: Seq<DefDecl>, base: Seq<String>, op: PureOptimization) -> bool {
    &&& has_name(base, optimization_name(op))
    &&& has_name(base, "U32"@)
    &&& find_def(defs, optimization_name(op)) matches Some(d)
        && spec_is_checked_word_operation(d, optimization_arity(op))
}

/// The checked operations, in the order add, mul, shl.
pub open spec fn checked_set(defs: Seq<DefDecl>, base: Seq<String>) -> Seq<PureOptimization> {
    let one = |op: PureOptimization| if optimization_checked(defs, base, op) { seq![op] } else { Seq::empty() };
    one(PureOptimization::Add) + one(PureOptimization::Mul) + one(PureOptimization::Shl)
}

fn checked_one(definitions: &Vec<DefDecl>, base_names: &Vec<String>, op: PureOptimization) -> (r: bool)
    ensures
        r == optimization_checked(definitions@, base_names@, op),
{
    if !contains(base_names, op.name()) || !contains(base_names, "U32") {
        return false;
    }
    match find_definition(definitions, op.name()) {
        Some(d) => is_checked_word_operation(d, op.arity()),
        None => false,
    }
}

/// The word operations that run natively: those whose definitions are the
/// sealed, checked Base ones. A user definition of the same name or type
/// keeps its ordinary body.
pub fn checked_optimizations(definitions: &Vec<DefDecl>, base_names: &Vec<String>) -> (r: Vec<PureOptimization>)
    ensures
        r@ == checked_set(definitions@, base_names@),
{
    let mut result: Vec<PureOptimization> = Vec::new();
    if checked_one(definitions, base_names, PureOptimization::Add) {
        result.push(PureOptimization::Add);
    }
    if checked_one(definitions, base_names, PureOptimization::Mul) {
        result.push(PureOptimization::Mul);
    }
    if checked_one(definitions, base_names, PureOptimization::Shl) {
        result.push(PureOptimization::Shl);
    }
    proof {
        assert(result@ =~= checked_set(definitions@, base_names@));
    }
    result
}

} // verus!
