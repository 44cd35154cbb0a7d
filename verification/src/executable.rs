//! Programs that the loader sealed for execution: their native layouts and
//! the operations that may run natively are decided once, from the checked
//! declarations and the names that the loader minted as Base.
use crate::book::{AdtDecl, DefDecl};
use crate::machine::{Definition, Program};
use crate::naturals::{self, operation_name, reaches_only_base, Declarations, Operation};
use crate::numeric::{self, checked_set};
use crate::packed::{checked_layouts, spec_checked_layouts};
use crate::term::share;
use vstd::prelude::*;

verus! {

impl Program {
    /// An executable program: the definitions with their bodies, the
    /// datatype names, and the native layouts and fast paths that the sealed
    /// Base declarations allow.
    pub fn from_executable(
        definitions: &Vec<DefDecl>,
        datatypes: &Vec<AdtDecl>,
        base_names: &Vec<String>,
        base_definitions: &Vec<DefDecl>,
        base_datatypes: &Vec<AdtDecl>,
    ) -> (r: Program)
        ensures
            r.definitions@.len() == definitions@.len(),
            forall|k: int| 0 <= k < definitions@.len() ==> (#[trigger] r.definitions@[k]).name@ == definitions@[k].name@
                && r.definitions@[k].body == definitions@[k].body,
            r.datatypes@.len() == datatypes@.len(),
            forall|k: int| 0 <= k < datatypes@.len() ==> (#[trigger] r.datatypes@[k])@ == datatypes@[k].name@,
            r.packed == spec_checked_layouts(datatypes@, base_names@),
            r.optimizations@ == checked_set(definitions@, base_names@),
            r.nat_optimizations@ == seq![Operation::Sub, Operation::Cmp, Operation::Show, Operation::FromU32, Operation::ToU32].filter(
                |op: Operation| spec_checked_layouts(datatypes@, base_names@) && reaches_only_base(
                    Declarations { definitions, datatypes, origins: base_names, base_definitions, base_datatypes },
                    operation_name(op),
                ),
            ),
    {
        let mut defs: Vec<Definition> = Vec::new();
        let mut k: usize = 0;
        while k < definitions.len()
            invariant
                k <= definitions@.len(),
                defs@.len() == k,
                forall|j: int| 0 <= j < k ==> (#[trigger] defs@[j]).name@ == definitions@[j].name@ && defs@[j].body
                    == definitions@[j].body,
            decreases definitions@.len() - k,
        {
            let d = &definitions[k];
            let body = match &d.body {
                Some(b) => Some(share(b)),
                None => None,
            };
            defs.push(Definition { name: d.name.clone(), body });
            k = k + 1;
        }
        let mut names: Vec<String> = Vec::new();
        let mut j: usize = 0;
        while j < datatypes.len()
            invariant
                j <= datatypes@.len(),
                names@.len() == j,
                forall|i: int| 0 <= i < j ==> (#[trigger] names@[i])@ == datatypes@[i].name@,
            decreases datatypes@.len() - j,
        {
            names.push(datatypes[j].name.clone());
            j = j + 1;
        }
        let declarations = Declarations { definitions, datatypes, origins: base_names, base_definitions, base_datatypes };
        Program {
            definitions: defs,
            datatypes: names,
            packed: checked_layouts(datatypes, base_names),
            optimizations: numeric::checked_optimizations(definitions, base_names),
            nat_optimizations: naturals::checked_optimizations(&declarations),
        }
    }
}

} // verus!
