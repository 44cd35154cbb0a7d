//! Sealed file identities. The host file stays with the table, or with the
//! operation that took it out, until it is returned or closed.
use crate::machine::ARENA_LIMIT;
use std::collections::BTreeMap;
use vstd::prelude::*;

verus! {

broadcast use {vstd::std_specs::btree::group_btree_axioms, vstd::laws_cmp::group_laws_cmp};

/// A file identity as a program holds it; only the table makes one.
#[derive(Clone, Copy, Debug, PartialEq, Eq, Structural)]
pub struct Handle(u64);

impl Handle {
    /// The identity number.
    pub closed spec fn number(self) -> u64 {
        self.0
    }

    /// The identity number.
    pub fn id(self) -> (r: u64)
        ensures
            r == self.number(),
    {
        self.0
    }
}

/// The open files by identity, and the next identity to hand out.
pub struct State<F> {
    pub files: BTreeMap<u64, F>,
    pub next: u64,
}

impl<F> State<F> {
    /// An empty table.
    pub fn new() -> (r: State<F>)
        ensures
            r.files@ == Map::<u64, F>::empty(),
            r.next == 0,
    {
        State { files: BTreeMap::new(), next: 0 }
    }

    /// Whether no file is held.
    pub fn is_empty(&self) -> (r: bool)
        ensures
            r == (self.files@.len() == 0),
    {
        self.files.is_empty()
    }

    /// Hold a new file under the next identity. The identity is spent even
    /// when the table then refuses the file.
    pub fn insert(&mut self, file: F) -> (r: Result<Handle, String>)
        ensures
            old(self).next == u64::MAX ==> r is Err && final(self).files@ == old(self).files@ && final(self).next
                == old(self).next,
            old(self).next < u64::MAX ==> final(self).next == old(self).next + 1,
            old(self).next < u64::MAX && (old(self).files@.len() >= ARENA_LIMIT || old(self).files@.contains_key(
                old(self).next,
            )) ==> r is Err && final(self).files@ == old(self).files@,
            old(self).next < u64::MAX && old(self).files@.len() < ARENA_LIMIT && !old(self).files@.contains_key(
                old(self).next,
            ) ==> (r matches Ok(h) && h.number() == old(self).next && final(self).files@ == old(self).files@.insert(
                old(self).next,
                file,
            )),
    {
        let id = self.next;
        match id.checked_add(1) {
            Some(next) => {
                self.next = next;
            },
            None => {
                return Err("native file identity budget exhausted".to_owned());
            },
        }
        let handle = Handle(id);
        match self.restore(handle, file) {
            Ok(()) => Ok(handle),
            Err(e) => Err(e),
        }
    }

    /// Take a file out of the table for an operation.
    pub fn take(&mut self, handle: Handle) -> (r: Result<F, String>)
        ensures
            final(self).next == old(self).next,
            old(self).files@.contains_key(handle.number()) ==> r == Ok::<F, String>(old(self).files@[handle.number()])
                && final(self).files@ == old(self).files@.remove(handle.number()),
            !old(self).files@.contains_key(handle.number()) ==> r is Err && final(self).files@ == old(self).files@,
    {
        match self.files.remove(&handle.0) {
            Some(file) => Ok(file),
            None => Err("native file handle is closed or belongs to a pending operation".to_owned()),
        }
    }

    /// Return a file that an operation took out.
    pub fn restore(&mut self, handle: Handle, file: F) -> (r: Result<(), String>)
        ensures
            final(self).next == old(self).next,
            r is Err <==> old(self).files@.len() >= ARENA_LIMIT || old(self).files@.contains_key(handle.number()),
            r is Err ==> final(self).files@ == old(self).files@,
            r is Ok ==> final(self).files@ == old(self).files@.insert(handle.number(), file),
    {
        if self.files.len() >= ARENA_LIMIT {
            return Err("native file handle budget exhausted".to_owned());
        }
        if self.files.contains_key(&handle.0) {
            return Err("native file handle was returned twice".to_owned());
        }
        self.files.insert(handle.0, file);
        Ok(())
    }
}

/// Taking a file out of a table within its budget and returning it under
/// the same identity succeeds (the room and the identity are free again)
/// and leaves the table as it was.
pub proof fn law_take_then_restore<F>(files: Map<u64, F>, id: u64)
    requires
        files.dom().finite(),
        files.len() <= ARENA_LIMIT,
        files.contains_key(id),
    ensures
        files.remove(id).len() < ARENA_LIMIT,
        !files.remove(id).contains_key(id),
        files.remove(id).insert(id, files[id]) == files,
{
    assert(files.remove(id).insert(id, files[id]) =~= files);
}

} // verus!
