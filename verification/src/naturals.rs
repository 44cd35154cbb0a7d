//! Which compact-natural operations may run natively. Loader origin is
//! necessary but not enough: the operation's definition, and every Base
//! definition or datatype it reaches through references, must be the checked
//! Base declaration up to binder identities. A modified helper anywhere on
//! the way keeps the ordinary body.
use crate::book::{AdtDecl, DefDecl};
use crate::numeric::{find_def, find_definition};
use crate::packed::{checked_layouts, contains, find, find_adt, spec_checked_layouts};
use crate::shape::{adt_alike, adt_refs, def_alike, def_refs, held, Shape};
use vstd::prelude::*;

verus! {

/// A natural-number operation with a native fast path.
#[derive(Clone, Copy, Debug, PartialEq, Eq, Structural)]
pub enum Operation {
    Sub,
    Cmp,
    Show,
    FromU32,
    ToU32,
}

pub open spec fn operation_name(op: Operation) -> Seq<char> {
    match op {
        Operation::Sub => "Nat.sub"@,
        Operation::Cmp => "Nat.cmp"@,
        Operation::Show => "Nat.show"@,
        Operation::FromU32 => "U32.to_nat"@,
        Operation::ToU32 => "U32.from_nat"@,
    }
}

pub open spec fn operation_arity(op: Operation) -> nat {
    match op {
        Operation::Sub => 2,
        Operation::Cmp => 2,
        _ => 1,
    }
}

impl Operation {
    /// The Base definition this operation replaces.
    pub fn name(self) -> (r: &'static str)
        ensures
            r@ == operation_name(self),
    {
        match self {
            Operation::Sub => "Nat.sub",
            Operation::Cmp => "Nat.cmp",
            Operation::Show => "Nat.show",
            Operation::FromU32 => "U32.to_nat",
            Operation::ToU32 => "U32.from_nat",
        }
    }

    /// How many arguments it takes.
    pub fn arity(self) -> (r: usize)
        ensures
            r == operation_arity(self),
    {
        match self {
            Operation::Sub => 2,
            Operation::Cmp => 2,
            _ => 1,
        }
    }
}

/// A program's declarations and sealed names, beside the checked Base ones.
pub struct Declarations<'a> {
    pub definitions: &'a Vec<DefDecl>,
    pub datatypes: &'a Vec<AdtDecl>,
    pub origins: &'a Vec<String>,
    pub base_definitions: &'a Vec<DefDecl>,
    pub base_datatypes: &'a Vec<AdtDecl>,
}

/// The name is sealed Base, and the program's declaration of it is the Base
/// one (a definition if Base defines one, else a datatype).
pub open spec fn name_ok(d: Declarations, n: Seq<char>) -> bool {
    &&& held(d.origins@).contains(n)
    &&& match find_def(d.base_definitions@, n) {
        Some(e) => find_def(d.definitions@, n) matches Some(a) && def_alike(a, e),
        None => match find_adt(d.base_datatypes@, n) {
            Some(e) => find_adt(d.datatypes@, n) matches Some(a) && adt_alike(a, e),
            None => false,
        },
    }
}

/// The names the Base declaration of `n` refers to.
pub open spec fn name_refs(d: Declarations, n: Seq<char>) -> Set<Seq<char>> {
    match find_def(d.base_definitions@, n) {
        Some(e) => def_refs(e),
        None => match find_adt(d.base_datatypes@, n) {
            Some(e) => adt_refs(e),
            None => Set::empty(),
        },
    }
}

/// Every name of `s` is checked and its references stay within `s`.
pub open spec fn closed_ok(d: Declarations, s: Set<Seq<char>>) -> bool {
    forall|n: Seq<char>| #[trigger] s.contains(n) ==> name_ok(d, n) && name_refs(d, n).subset_of(s)
}

/// `n` and everything it reaches are checked Base declarations.
pub open spec fn reaches_only_base(d: Declarations, n: Seq<char>) -> bool {
    exists|s: Set<Seq<char>>| s.contains(n) && closed_ok(d, s)
}

pub open spec fn def_names(ds: Seq<DefDecl>) -> Seq<Seq<char>> {
    ds.map_values(|x: DefDecl| x.name@)
}

pub open spec fn adt_names(ds: Seq<AdtDecl>) -> Seq<Seq<char>> {
    ds.map_values(|x: AdtDecl| x.name@)
}

/// The names of the Base declarations.
pub open spec fn base_keys(d: Declarations) -> Seq<Seq<char>> {
    def_names(d.base_definitions@) + adt_names(d.base_datatypes@)
}

/// How many keys a set of names leaves out.
pub open spec fn count_out(keys: Seq<Seq<char>>, c: Set<Seq<char>>) -> nat
    decreases keys.len(),
{
    if keys.len() == 0 {
        0
    } else {
        count_out(keys.drop_last(), c) + if c.contains(keys.last()) { 0nat } else { 1nat }
    }
}

proof fn lemma_count_out_insert(keys: Seq<Seq<char>>, c: Set<Seq<char>>, x: Seq<char>)
    ensures
        count_out(keys, c.insert(x)) <= count_out(keys, c),
        !c.contains(x) && keys.contains(x) ==> count_out(keys, c.insert(x)) < count_out(keys, c),
    decreases keys.len(),
{
    if keys.len() > 0 {
        lemma_count_out_insert(keys.drop_last(), c, x);
        if !c.contains(x) && keys.contains(x) && keys.last() != x {
            let i = choose|i: int| 0 <= i < keys.len() && keys[i] == x;
            assert(keys.drop_last()[i] == x);
        }
    }
}

proof fn lemma_found_def_is_key(ds: Seq<DefDecl>, n: Seq<char>)
    requires
        find_def(ds, n) is Some,
    ensures
        def_names(ds).contains(n),
    decreases ds.len(),
{
    if ds[0].name@ == n {
        assert(def_names(ds)[0] == n);
    } else {
        lemma_found_def_is_key(ds.skip(1), n);
        let i = choose|i: int| 0 <= i < ds.skip(1).len() && def_names(ds.skip(1))[i] == n;
        assert(def_names(ds)[i + 1] == n);
    }
}

proof fn lemma_found_adt_is_key(ds: Seq<AdtDecl>, n: Seq<char>)
    requires
        find_adt(ds, n) is Some,
    ensures
        adt_names(ds).contains(n),
    decreases ds.len(),
{
    if ds[0].name@ == n {
        assert(adt_names(ds)[0] == n);
    } else {
        lemma_found_adt_is_key(ds.skip(1), n);
        let i = choose|i: int| 0 <= i < ds.skip(1).len() && adt_names(ds.skip(1))[i] == n;
        assert(adt_names(ds)[i + 1] == n);
    }
}

/// Compare the declaration of one name with its Base declaration, noting
/// the names the Base declaration refers to.
fn name_matches(d: &Declarations, name: &String, shape: &mut Shape) -> (r: bool)
    requires
        old(shape).bindings@.len() == 0,
        held(old(shape).references@) == Set::<Seq<char>>::empty(),
    ensures
        r == name_ok(*d, name@),
        held(final(shape).references@).subset_of(name_refs(*d, name@)),
        r ==> name_refs(*d, name@).subset_of(held(final(shape).references@)),
        r ==> find_def(d.base_definitions@, name@) is Some || find_adt(d.base_datatypes@, name@) is Some,
{
    if !contains(d.origins, name.as_str()) {
        proof {
            assert(crate::packed::has_name(d.origins@, name@) == held(d.origins@).contains(name@));
        }
        return false;
    }
    proof {
        assert(crate::packed::has_name(d.origins@, name@) == held(d.origins@).contains(name@));
    }
    match find_definition(d.base_definitions, name.as_str()) {
        Some(expected) => match find_definition(d.definitions, name.as_str()) {
            Some(actual) => shape.definition(actual, expected),
            None => false,
        },
        None => match find(d.base_datatypes, name.as_str()) {
            Some(expected) => match find(d.datatypes, name.as_str()) {
                Some(actual) => shape.datatype(actual, expected),
                None => false,
            },
            None => false,
        },
    }
}

/// Whether `start` and every Base declaration it reaches are the checked
/// Base declarations, visiting each name once.
pub fn only_base_reached(d: &Declarations, start: &str) -> (r: bool)
    ensures
        r == reaches_only_base(*d, start@),
{
    let ghost keys = base_keys(*d);
    let mut pending: Vec<String> = Vec::new();
    pending.push(start.to_owned());
    let mut checked: Vec<String> = Vec::new();
    proof {
        assert(held(pending@).contains(start@)) by {
            assert(pending@[0]@ == start@);
        }
        assert(held(checked@) =~= Set::<Seq<char>>::empty());
    }
    loop
        invariant
            keys == base_keys(*d),
            held(pending@).contains(start@) || held(checked@).contains(start@),
            forall|n: Seq<char>| #[trigger] held(checked@).contains(n) ==> name_ok(*d, n)
                && name_refs(*d, n).subset_of(held(checked@) + held(pending@)),
            forall|s: Set<Seq<char>>| closed_ok(*d, s) && #[trigger] s.contains(start@) ==> held(checked@).subset_of(s)
                && held(pending@).subset_of(s),
        decreases count_out(keys, held(checked@)), pending@.len(),
    {
        let ghost before_pending = pending@;
        let name = match pending.pop() {
            Some(n) => n,
            None => {
                proof {
                    assert(held(pending@) =~= Set::<Seq<char>>::empty());
                    assert(closed_ok(*d, held(checked@)));
                }
                return true;
            },
        };
        proof {
            assert(before_pending == pending@.push(name));
            assert(held(before_pending) =~= held(pending@).insert(name@)) by {
                assert(before_pending[before_pending.len() - 1] == name);
                assert forall|n: Seq<char>| held(before_pending).contains(n) implies held(pending@).insert(name@).contains(n) by {
                    let k = choose|k: int| 0 <= k < before_pending.len() && before_pending[k]@ == n;
                    if k < pending@.len() {
                        assert(pending@[k]@ == n);
                    }
                }
                assert forall|n: Seq<char>| held(pending@).insert(name@).contains(n) implies held(before_pending).contains(n) by {
                    if n != name@ {
                        let k = choose|k: int| 0 <= k < pending@.len() && pending@[k]@ == n;
                        assert(before_pending[k]@ == n);
                    }
                }
            }
        }
        if contains(&checked, name.as_str()) {
            proof {
                assert(crate::packed::has_name(checked@, name@) == held(checked@).contains(name@));
            }
            continue;
        }
        proof {
            assert(crate::packed::has_name(checked@, name@) == held(checked@).contains(name@));
        }
        let ghost before_checked = checked@;
        checked.push(name.clone());
        proof {
            assert(held(checked@) =~= held(before_checked).insert(name@)) by {
                assert(checked@[checked@.len() - 1]@ == name@);
                assert forall|n: Seq<char>| held(checked@).contains(n) implies held(before_checked).insert(name@).contains(n) by {
                    let k = choose|k: int| 0 <= k < checked@.len() && checked@[k]@ == n;
                    if k < before_checked.len() {
                        assert(before_checked[k]@ == n);
                    }
                }
                assert forall|n: Seq<char>| held(before_checked).insert(name@).contains(n) implies held(checked@).contains(n) by {
                    if n != name@ {
                        let k = choose|k: int| 0 <= k < before_checked.len() && before_checked[k]@ == n;
                        assert(checked@[k]@ == n);
                    }
                }
            }
        }
        let mut shape = Shape::new();
        if !name_matches(d, &name, &mut shape) {
            proof {
                assert forall|s: Set<Seq<char>>| closed_ok(*d, s) && s.contains(start@) implies false by {
                    assert(held(before_pending).subset_of(s));
                    assert(s.contains(name@));
                }
            }
            return false;
        }
        proof {
            lemma_count_out_insert(keys, held(before_checked), name@);
            if find_def(d.base_definitions@, name@) is Some {
                lemma_found_def_is_key(d.base_definitions@, name@);
                let ks = def_names(d.base_definitions@);
                let i = choose|i: int| 0 <= i < ks.len() && ks[i] == name@;
                assert(keys[i] == name@);
            } else {
                lemma_found_adt_is_key(d.base_datatypes@, name@);
                let ks = adt_names(d.base_datatypes@);
                let i = choose|i: int| 0 <= i < ks.len() && ks[i] == name@;
                assert(keys[d.base_definitions@.len() + i] == name@);
            }
        }
        let ghost mid_pending = pending@;
        let ghost noted = shape.references@;
        pending.append(&mut shape.references);
        proof {
            assert(held(pending@) =~= held(mid_pending) + held(noted)) by {
                assert forall|n: Seq<char>| held(pending@).contains(n) implies (held(mid_pending) + held(noted)).contains(n) by {
                    let k = choose|k: int| 0 <= k < pending@.len() && pending@[k]@ == n;
                    if k < mid_pending.len() {
                        assert(mid_pending[k]@ == n);
                    } else {
                        assert(noted[k - mid_pending.len()]@ == n);
                    }
                }
                assert forall|n: Seq<char>| (held(mid_pending) + held(noted)).contains(n) implies held(pending@).contains(n) by {
                    if held(mid_pending).contains(n) {
                        let k = choose|k: int| 0 <= k < mid_pending.len() && mid_pending[k]@ == n;
                        assert(pending@[k]@ == n);
                    } else {
                        let k = choose|k: int| 0 <= k < noted.len() && noted[k]@ == n;
                        assert(pending@[mid_pending.len() + k]@ == n);
                    }
                }
            }
        }
    }
}

/// The operations that run natively: none unless the native layouts are
/// the checked Base ones; then each operation whose definition, with every
/// Base declaration it reaches, is the checked Base declaration.
pub fn checked_optimizations(d: &Declarations) -> (r: Vec<Operation>)
    ensures
        r@ == seq![Operation::Sub, Operation::Cmp, Operation::Show, Operation::FromU32, Operation::ToU32].filter(
            |op: Operation| spec_checked_layouts(d.datatypes@, d.origins@) && reaches_only_base(*d, operation_name(op)),
        ),
{
    let ghost all = seq![Operation::Sub, Operation::Cmp, Operation::Show, Operation::FromU32, Operation::ToU32];
    let ghost keep = |op: Operation| spec_checked_layouts(d.datatypes@, d.origins@) && reaches_only_base(*d, operation_name(op));
    let mut result: Vec<Operation> = Vec::new();
    let layouts = checked_layouts(d.datatypes, d.origins);
    let ops = [Operation::Sub, Operation::Cmp, Operation::Show, Operation::FromU32, Operation::ToU32];
    proof {
        assert(ops@ =~= all);
        reveal(Seq::filter);
        assert(all.take(0).filter(keep) =~= Seq::<Operation>::empty());
    }
    let mut i: usize = 0;
    while i < 5
        invariant
            i <= 5,
            ops@ == all,
            layouts == spec_checked_layouts(d.datatypes@, d.origins@),
            keep == (|op: Operation| spec_checked_layouts(d.datatypes@, d.origins@) && reaches_only_base(*d, operation_name(op))),
            result@ == all.take(i as int).filter(keep),
        decreases 5 - i,
    {
        let op = ops[i];
        proof {
            reveal(Seq::filter);
            assert(all.take(i + 1).drop_last() =~= all.take(i as int));
            assert(all.take(i + 1).last() == op);
        }
        if layouts && only_base_reached(d, op.name()) {
            result.push(op);
        }
        i = i + 1;
    }
    proof {
        assert(all.take(5) =~= all);
    }
    result
}

} // verus!
