//! Whether a program's native datatypes have the exact checked Base layouts
//! that compact words and naturals stand for. A same-named user type alone
//! never enables packing.
use crate::book::AdtDecl;
use crate::term::{is_nat, Quant, Term, TermRef};
use crate::text::str_eq;
use vstd::prelude::*;

verus! {

/// `t` is a reference (or a GPU reference) to `name`.
pub open spec fn is_ref(t: Term, name: Seq<char>) -> bool {
    match t {
        Term::Ref(n) => n@ == name,
        Term::GpuRef(n) => n@ == name,
        _ => false,
    }
}

fn reference(value: &TermRef, expected: &str) -> (r: bool)
    ensures
        r == is_ref(**value, expected@),
{
    match &**value {
        Term::Ref(name) => str_eq(name.as_str(), expected),
        Term::GpuRef(name) => str_eq(name.as_str(), expected),
        _ => false,
    }
}

/// The datatype's kind is `Type` at quantity `Many`: plain data.
pub open spec fn spec_data_kind(d: AdtDecl) -> bool {
    match *d.kind {
        Term::Typ(q) => *q == Term::Qua(Quant::Many),
        _ => false,
    }
}

fn data_kind(datatype: &AdtDecl) -> (r: bool)
    ensures
        r == spec_data_kind(*datatype),
{
    match &*datatype.kind {
        Term::Typ(q) => match &**q {
            Term::Qua(Quant::Many) => true,
            _ => false,
        },
        _ => false,
    }
}

/// The constructors have exactly these names and field counts, in order,
/// and every field is used once.
pub open spec fn spec_constructors(d: AdtDecl, shapes: Seq<(Seq<char>, nat)>) -> bool {
    &&& d.constructors@.len() == shapes.len()
    &&& forall|i: int| 0 <= i < shapes.len() ==> {
        let c = #[trigger] d.constructors@[i];
        &&& c.name@ == shapes[i].0
        &&& c.fields@.len() == shapes[i].1
        &&& forall|j: int| 0 <= j < c.fields@.len() ==> (#[trigger] c.fields@[j]).quant == Quant::Lone
    }
}

pub open spec fn shape_views(shapes: Seq<(&str, usize)>) -> Seq<(Seq<char>, nat)> {
    shapes.map_values(|s: (&str, usize)| (s.0@, s.1 as nat))
}

fn constructors(datatype: &AdtDecl, shapes: &[(&str, usize)]) -> (r: bool)
    ensures
        r == spec_constructors(*datatype, shape_views(shapes@)),
{
    if datatype.constructors.len() != shapes.len() {
        return false;
    }
    let mut i: usize = 0;
    while i < shapes.len()
        invariant
            i <= shapes@.len(),
            datatype.constructors@.len() == shapes@.len(),
            forall|k: int| 0 <= k < i ==> {
                let c = #[trigger] datatype.constructors@[k];
                &&& c.name@ == shape_views(shapes@)[k].0
                &&& c.fields@.len() == shape_views(shapes@)[k].1
                &&& forall|j: int| 0 <= j < c.fields@.len() ==> (#[trigger] c.fields@[j]).quant == Quant::Lone
            },
        decreases shapes@.len() - i,
    {
        let c = &datatype.constructors[i];
        let (name, count) = shapes[i];
        if !str_eq(c.name.as_str(), name) || c.fields.len() != count {
            return false;
        }
        let mut j: usize = 0;
        while j < c.fields.len()
            invariant
                j <= c.fields@.len(),
                i < datatype.constructors@.len(),
                *c == datatype.constructors@[i as int],
                forall|k: int| 0 <= k < j ==> (#[trigger] c.fields@[k]).quant == Quant::Lone,
            decreases c.fields@.len() - j,
        {
            if c.fields[j].quant != Quant::Lone {
                proof {
                    let k = i as int;
                    assert(datatype.constructors@[k].fields@[j as int].quant != Quant::Lone);
                }
                return false;
            }
            j = j + 1;
        }
        i = i + 1;
    }
    true
}

/// `value` is the unary natural 32, written out to the last `Zero`.
fn nat_32(value: &TermRef) -> (r: bool)
    ensures
        r == is_nat(**value, 32),
{
    let mut current: &TermRef = value;
    let mut n: usize = 0;
    while n < 32
        invariant
            n <= 32,
            forall|m: nat| is_nat(**current, m) ==> is_nat(**value, (m + n) as nat),
            is_nat(**value, 32) ==> is_nat(**current, (32 - n) as nat),
        decreases 32 - n,
    {
        match &**current {
            Term::Ctr { name, args } => {
                if !str_eq(name.as_str(), "Succ") || args.len() != 1 {
                    proof {
                        assert(!is_nat(**current, (32 - n) as nat));
                    }
                    return false;
                }
                proof {
                    assert forall|m: nat| is_nat(*args@[0], m) implies is_nat(**value, (m + n + 1) as nat) by {
                        assert(is_nat(**current, (m + 1) as nat));
                    }
                }
                current = &args[0];
            },
            _ => {
                return false;
            },
        }
        n = n + 1;
    }
    match &**current {
        Term::Ctr { name, args } => {
            let r = str_eq(name.as_str(), "Zero") && args.len() == 0;
            proof {
                if r {
                    assert(is_nat(**current, 0));
                }
            }
            r
        },
        _ => false,
    }
}

/// The first datatype of that name.
pub open spec fn find_adt(ds: Seq<AdtDecl>, name: Seq<char>) -> Option<AdtDecl>
    decreases ds.len(),
{
    if ds.len() == 0 {
        None
    } else if ds[0].name@ == name {
        Some(ds[0])
    } else {
        find_adt(ds.skip(1), name)
    }
}

pub(crate) fn find<'a>(ds: &'a Vec<AdtDecl>, name: &str) -> (r: Option<&'a AdtDecl>)
    ensures
        match r {
            Some(d) => find_adt(ds@, name@) == Some(*d),
            None => find_adt(ds@, name@) is None,
        },
{
    let mut i: usize = 0;
    proof {
        assert(ds@.skip(0) =~= ds@);
    }
    while i < ds.len()
        invariant
            i <= ds@.len(),
            find_adt(ds@, name@) == find_adt(ds@.skip(i as int), name@),
        decreases ds@.len() - i,
    {
        proof {
            assert(ds@.skip(i as int).skip(1) =~= ds@.skip(i + 1));
            assert(ds@.skip(i as int)[0] == ds@[i as int]);
        }
        if str_eq(ds[i].name.as_str(), name) {
            return Some(&ds[i]);
        }
        i = i + 1;
    }
    proof {
        assert(ds@.skip(i as int).len() == 0);
    }
    None
}

/// Whether the list names `name`.
pub open spec fn has_name(names: Seq<String>, name: Seq<char>) -> bool {
    exists|i: int| 0 <= i < names.len() && (#[trigger] names[i])@ == name
}

pub(crate) fn contains(names: &Vec<String>, name: &str) -> (r: bool)
    ensures
        r == has_name(names@, name@),
{
    let mut i: usize = 0;
    while i < names.len()
        invariant
            i <= names@.len(),
            forall|k: int| 0 <= k < i ==> (#[trigger] names@[k])@ != name@,
        decreases names@.len() - i,
    {
        if str_eq(names[i].as_str(), name) {
            return true;
        }
        i = i + 1;
    }
    false
}

/// `Word.Con`: one erased `Nat` parameter `n` and `WCon(Bool, Word(n))`.
pub open spec fn cons_layout(cons: AdtDecl) -> bool {
    &&& cons.parameters@.len() == 1
    &&& spec_constructors(cons, seq![("WCon"@, 2nat)])
    &&& {
        let p = cons.parameters@[0];
        let fields = cons.constructors@[0].fields@;
        &&& p.quant == Quant::Erased
        &&& is_ref(*p.ty, "Nat"@)
        &&& is_ref(*fields[0].ty, "Bool"@)
        &&& match *fields[1].ty {
            Term::App(f, a) => is_ref(*f, "Word"@) && (*a matches Term::Var { id, .. } && id == p.id),
            _ => false,
        }
    }
}

/// A 32-bit word wrapper: one constructor over `Word(32)`.
pub open spec fn wrapper_layout(d: AdtDecl, wrapper: Seq<char>) -> bool {
    &&& d.parameters@.len() == 0
    &&& spec_constructors(d, seq![(wrapper, 1nat)])
    &&& match *d.constructors@[0].fields@[0].ty {
        Term::App(f, a) => is_ref(*f, "Word"@) && is_nat(*a, 32),
        _ => false,
    }
}

/// Every native name is sealed Base and found, plain data, and has the
/// exact checked layout.
pub open spec fn spec_checked_layouts(ds: Seq<AdtDecl>, base: Seq<String>) -> bool {
    &&& has_name(base, "Word"@)
    &&& has_name(base, "Bool"@) && has_name(base, "Nat"@) && has_name(base, "Word.Nil"@)
    &&& has_name(base, "Word.Con"@) && has_name(base, "U32"@) && has_name(base, "F32"@)
    &&& find_adt(ds, "Bool"@) matches Some(b) && find_adt(ds, "Nat"@) matches Some(n)
        && find_adt(ds, "Word.Nil"@) matches Some(nil) && find_adt(ds, "Word.Con"@) matches Some(cons)
        && find_adt(ds, "U32"@) matches Some(u) && find_adt(ds, "F32"@) matches Some(f)
        && spec_data_kind(b) && spec_data_kind(n) && spec_data_kind(nil) && spec_data_kind(cons)
        && spec_data_kind(u) && spec_data_kind(f)
        && b.parameters@.len() == 0 && spec_constructors(b, seq![("False"@, 0nat), ("True"@, 0nat)])
        && n.parameters@.len() == 0 && spec_constructors(n, seq![("Zero"@, 0nat), ("Succ"@, 1nat)])
        && is_ref(*n.constructors@[1].fields@[0].ty, "Nat"@)
        && nil.parameters@.len() == 0 && spec_constructors(nil, seq![("WNil"@, 0nat)])
        && cons_layout(cons)
        && wrapper_layout(u, "U32"@) && wrapper_layout(f, "F32"@)
}

fn word_wrapper(d: &AdtDecl, wrapper: &str) -> (r: bool)
    ensures
        r == wrapper_layout(*d, wrapper@),
{
    let shapes = [(wrapper, 1usize)];
    proof {
        assert(shape_views(shapes@) =~= seq![(wrapper@, 1nat)]);
    }
    if d.parameters.len() != 0 || !constructors(d, &shapes) {
        return false;
    }
    match &*d.constructors[0].fields[0].ty {
        Term::App(f, a) => reference(f, "Word") && nat_32(a),
        _ => false,
    }
}

/// Whether the program's `Bool`, `Nat`, `Word.Nil`, `Word.Con`, `U32` and
/// `F32` are the sealed Base declarations with their exact native layouts.
pub fn checked_layouts(datatypes: &Vec<AdtDecl>, base_names: &Vec<String>) -> (r: bool)
    ensures
        r == spec_checked_layouts(datatypes@, base_names@),
{
    if !contains(base_names, "Word") || !contains(base_names, "Bool") || !contains(base_names, "Nat")
        || !contains(base_names, "Word.Nil") || !contains(base_names, "Word.Con") || !contains(base_names, "U32")
        || !contains(base_names, "F32") {
        return false;
    }
    let (boolean, natural, nil, cons, u32_, f32_) = match (
        find(datatypes, "Bool"),
        find(datatypes, "Nat"),
        find(datatypes, "Word.Nil"),
        find(datatypes, "Word.Con"),
        find(datatypes, "U32"),
        find(datatypes, "F32"),
    ) {
        (Some(b), Some(n), Some(nil), Some(c), Some(u), Some(f)) => (b, n, nil, c, u, f),
        _ => {
            return false;
        },
    };
    if !data_kind(boolean) || !data_kind(natural) || !data_kind(nil) || !data_kind(cons) || !data_kind(u32_)
        || !data_kind(f32_) {
        return false;
    }
    let bool_shapes = [("False", 0usize), ("True", 0usize)];
    let nat_shapes = [("Zero", 0usize), ("Succ", 1usize)];
    let nil_shapes = [("WNil", 0usize)];
    let cons_shapes = [("WCon", 2usize)];
    proof {
        assert(shape_views(bool_shapes@) =~= seq![("False"@, 0nat), ("True"@, 0nat)]);
        assert(shape_views(nat_shapes@) =~= seq![("Zero"@, 0nat), ("Succ"@, 1nat)]);
        assert(shape_views(nil_shapes@) =~= seq![("WNil"@, 0nat)]);
        assert(shape_views(cons_shapes@) =~= seq![("WCon"@, 2nat)]);
    }
    if boolean.parameters.len() != 0 || !constructors(boolean, &bool_shapes) || natural.parameters.len() != 0
        || !constructors(natural, &nat_shapes) || !reference(&natural.constructors[1].fields[0].ty, "Nat")
        || nil.parameters.len() != 0 || !constructors(nil, &nil_shapes) || cons.parameters.len() != 1
        || !constructors(cons, &cons_shapes) {
        return false;
    }
    let parameter = &cons.parameters[0];
    let fields = &cons.constructors[0].fields;
    let word_of_parameter = match &*fields[1].ty {
        Term::App(f, a) => reference(f, "Word") && match &**a {
            Term::Var { id, .. } => *id == parameter.id,
            _ => false,
        },
        _ => false,
    };
    if parameter.quant != Quant::Erased || !reference(&parameter.ty, "Nat") || !reference(&fields[0].ty, "Bool")
        || !word_of_parameter {
        return false;
    }
    word_wrapper(u32_, "U32") && word_wrapper(f32_, "F32")
}

} // verus!
